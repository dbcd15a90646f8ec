//! Records and lines in a byte buffer, and the aggregation of one line-aligned
//! range of it.
use crate::stats::{
    add_reading, counts_within, lemma_add_is_merge, lemma_combine_wf_single, lemma_merge_assoc, lemma_merge_empty, map_wf,
    merge_maps, single, CityStats, Summary,
};
use crate::table::{lookup, new_table, store, StatsTable};
use crate::tenths::{parse_temp, parsed_tenths};
use vstd::prelude::*;
use vstd::slice::slice_subrange;

verus! {

/// The byte that ends a line.
pub const NEWLINE: u8 = 10;

/// The byte between a record's key and its value.
pub const SEPARATOR: u8 = 59;

/// The index of the first `b` in `s`, or `s.len()` when there is none.
pub open spec fn find(s: Seq<u8>, b: u8) -> nat
    decreases s.len(),
{
    if s.len() == 0 {
        0
    } else if s[0] == b {
        0
    } else {
        1 + find(s.drop_first(), b)
    }
}

/// `m` after the line `line`: a record `key;value` whose value parses adds a
/// reading under `key` (the text before the first separator); any other line
/// leaves `m` as it is.
pub open spec fn add_line(m: Map<Seq<u8>, Summary>, line: Seq<u8>) -> Map<Seq<u8>, Summary> {
    let semi = find(line, SEPARATOR);
    if semi < line.len() {
        match parsed_tenths(line.skip(semi + 1int)) {
            Some(v) => add_reading(m, line.take(semi as int), v as int),
            None => m,
        }
    } else {
        m
    }
}

/// `m` after every line of `s` in order. Lines end at a newline, which is not
/// part of them; the last line may end with the buffer instead.
pub open spec fn fold_lines(m: Map<Seq<u8>, Summary>, s: Seq<u8>) -> Map<Seq<u8>, Summary>
    decreases s.len(),
{
    if s.len() == 0 {
        m
    } else {
        let e = find(s, NEWLINE);
        if e < s.len() {
            fold_lines(add_line(m, s.take(e as int)), s.skip(e + 1int))
        } else {
            add_line(m, s)
        }
    }
}

/// The statistics of every record in `s`.
pub open spec fn aggregate_of(s: Seq<u8>) -> Map<Seq<u8>, Summary> {
    fold_lines(Map::empty(), s)
}

pub proof fn lemma_find_bounds(s: Seq<u8>, b: u8)
    ensures
        find(s, b) <= s.len(),
        find(s, b) < s.len() ==> s[find(s, b) as int] == b,
        forall|j: int| 0 <= j < find(s, b) ==> s[j] != b,
    decreases s.len(),
{
    if s.len() > 0 && s[0] != b {
        lemma_find_bounds(s.drop_first(), b);
        assert forall|j: int| 0 <= j < find(s, b) implies s[j] != b by {
            if j > 0 {
                assert(s[j] == s.drop_first()[j - 1]);
            }
        }
    }
}

/// `find` is the only index with nothing equal to `b` before it and `b` (or
/// the end) at it.
pub proof fn lemma_find_unique(s: Seq<u8>, b: u8, i: int)
    requires
        0 <= i <= s.len(),
        forall|j: int| 0 <= j < i ==> s[j] != b,
        i == s.len() || s[i] == b,
    ensures
        find(s, b) == i,
    decreases s.len(),
{
    if s.len() > 0 && i > 0 {
        assert forall|j: int| 0 <= j < i - 1 implies s.drop_first()[j] != b by {
            assert(s.drop_first()[j] == s[j + 1]);
        }
        lemma_find_unique(s.drop_first(), b, i - 1);
    }
}

/// A byte found in `x` is found at the same index in `x + y`.
pub proof fn lemma_find_concat(x: Seq<u8>, y: Seq<u8>, b: u8)
    requires
        find(x, b) < x.len(),
    ensures
        find(x + y, b) == find(x, b),
{
    lemma_find_bounds(x, b);
    let i = find(x, b) as int;
    assert forall|j: int| 0 <= j < i implies (x + y)[j] != b by {
        assert((x + y)[j] == x[j]);
    }
    lemma_find_unique(x + y, b, i);
}

/// Folding the lines of `x + y` is folding those of `x`, then those of `y`,
/// when `x` ends with a newline (or either part is empty).
pub proof fn lemma_fold_concat(m: Map<Seq<u8>, Summary>, x: Seq<u8>, y: Seq<u8>)
    requires
        x.len() == 0 || y.len() == 0 || x.last() == NEWLINE,
    ensures
        fold_lines(m, x + y) == fold_lines(fold_lines(m, x), y),
    decreases x.len(),
{
    if x.len() == 0 {
        assert(x + y =~= y);
    } else if y.len() == 0 {
        assert(x + y =~= x);
    } else {
        assert(x[x.len() - 1] == NEWLINE);
        lemma_find_bounds(x, NEWLINE);
        let e = find(x, NEWLINE);
        lemma_find_concat(x, y, NEWLINE);
        assert((x + y).take(e as int) =~= x.take(e as int));
        let rest = x.skip(e + 1int);
        assert((x + y).skip(e + 1int) =~= rest + y);
        if rest.len() > 0 {
            assert(rest.last() == x.last());
        }
        lemma_fold_concat(add_line(m, x.take(e as int)), rest, y);
    }
}

/// A line added to `m` is a merge of `m` with that line's own map.
pub proof fn lemma_add_line_merge(m: Map<Seq<u8>, Summary>, line: Seq<u8>)
    ensures
        add_line(m, line) == merge_maps(m, add_line(Map::empty(), line)),
{
    let semi = find(line, SEPARATOR);
    if semi < line.len() {
        match parsed_tenths(line.skip(semi + 1int)) {
            Some(v) => {
                let k = line.take(semi as int);
                lemma_add_is_merge(m, k, v as int);
                lemma_add_is_merge(Map::empty(), k, v as int);
                lemma_merge_empty(Map::empty().insert(k, single(v as int)));
            },
            None => {
                lemma_merge_empty(m);
            },
        }
    } else {
        lemma_merge_empty(m);
    }
}

/// Folding lines onto `m` is merging `m` with the lines' own map.
pub proof fn lemma_fold_merge(m: Map<Seq<u8>, Summary>, s: Seq<u8>)
    ensures
        fold_lines(m, s) == merge_maps(m, aggregate_of(s)),
    decreases s.len(),
{
    if s.len() == 0 {
        lemma_merge_empty(m);
    } else {
        let e = find(s, NEWLINE);
        lemma_find_bounds(s, NEWLINE);
        let line = s.take(e as int);
        let one = add_line(Map::empty(), line);
        lemma_add_line_merge(m, line);
        lemma_add_line_merge(Map::empty(), line);
        lemma_merge_empty(one);
        if e < s.len() {
            let rest = s.skip(e + 1int);
            lemma_fold_merge(add_line(m, line), rest);
            lemma_fold_merge(one, rest);
            lemma_merge_assoc(m, one, aggregate_of(rest));
        } else {
            assert(line =~= s);
            lemma_add_line_merge(m, s);
        }
    }
}

/// The records of `x + y` are those of `x` merged with those of `y`, when
/// `x` ends with a newline (or either part is empty).
pub proof fn lemma_aggregate_split(x: Seq<u8>, y: Seq<u8>)
    requires
        x.len() == 0 || y.len() == 0 || x.last() == NEWLINE,
    ensures
        aggregate_of(x + y) == merge_maps(aggregate_of(x), aggregate_of(y)),
{
    lemma_fold_concat(Map::empty(), x, y);
    lemma_fold_merge(aggregate_of(x), y);
}

proof fn lemma_fold_wf(m: Map<Seq<u8>, Summary>, s: Seq<u8>)
    requires
        map_wf(m),
    ensures
        map_wf(fold_lines(m, s)),
    decreases s.len(),
{
    if s.len() > 0 {
        let e = find(s, NEWLINE);
        let line = if e < s.len() {
            s.take(e as int)
        } else {
            s
        };
        let semi = find(line, SEPARATOR);
        if semi < line.len() {
            if let Some(v) = parsed_tenths(line.skip(semi + 1int)) {
                lemma_combine_wf_single(m, line.take(semi as int), v as int);
            }
        }
        if e < s.len() {
            lemma_fold_wf(add_line(m, line), s.skip(e + 1int));
        }
    }
}

/// Every key in the statistics of a buffer has at least one reading, and its
/// sum lies between `count * min` and `count * max`.
pub proof fn lemma_aggregate_wf(s: Seq<u8>)
    ensures
        map_wf(aggregate_of(s)),
{
    lemma_fold_wf(Map::empty(), s);
}

/// Relies on `memchr::memchr`: the index of the first `needle` in `haystack`,
/// or `None` when it does not occur.
#[verifier::external_body]
pub(crate) fn first_byte(needle: u8, haystack: &[u8]) -> (r: Option<usize>)
    ensures
        r.is_some() <==> find(haystack@, needle) < haystack@.len(),
        r.is_some() ==> r.unwrap() == find(haystack@, needle),
{
    memchr::memchr(needle, haystack)
}

/// The statistics of the records in `buf[start..end]`, which must begin at
/// the start of a line. Malformed lines are skipped.
pub(crate) fn scan_range(buf: &[u8], start: usize, end: usize) -> (r: StatsTable)
    requires
        start <= end <= buf@.len(),
    ensures
        r@ == aggregate_of(buf@.subrange(start as int, end as int)),
        map_wf(r@),
        counts_within(r@, end - start),
{
    let mut t = new_table();
    assert(t@ =~= Map::empty());
    let mut pos = start;
    while pos < end
        invariant
            start <= pos <= end <= buf@.len(),
            fold_lines(t@, buf@.subrange(pos as int, end as int)) == aggregate_of(
                buf@.subrange(start as int, end as int),
            ),
            map_wf(t@),
            counts_within(t@, pos - start),
        decreases end - pos,
    {
        let ghost m0 = t@;
        let ghost s = buf@.subrange(pos as int, end as int);
        let rest = slice_subrange(buf, pos, end);
        proof {
            lemma_find_bounds(s, NEWLINE);
        }
        let line_end: usize = match first_byte(NEWLINE, rest) {
            Some(i) => pos + i,
            None => end,
        };
        let line = slice_subrange(buf, pos, line_end);
        assert(line@ =~= s.take(line_end - pos));
        proof {
            lemma_find_bounds(line@, SEPARATOR);
        }
        if let Some(semi) = first_byte(SEPARATOR, line) {
            let key = slice_subrange(line, 0, semi);
            let text = slice_subrange(line, semi + 1, line.len());
            assert(key@ =~= line@.take(semi as int));
            assert(text@ =~= line@.skip(semi + 1));
            if let Some(v) = parse_temp(text) {
                let one = CityStats::from_reading(v);
                let s = match lookup(&t, key) {
                    Some(prev) => {
                        assert(t@.contains_key(key@) && t@[key@] == prev@);
                        assert(prev.count <= pos - start);
                        prev.merged(&one)
                    },
                    None => one,
                };
                store(&mut t, key, s);
                proof {
                    assert(t@ =~= add_reading(m0, key@, v as int));
                    lemma_combine_wf_single(m0, key@, v as int);
                }
            }
        }
        assert(t@ == add_line(m0, line@));
        if line_end < end {
            pos = line_end + 1;
            assert(buf@.subrange(pos as int, end as int) =~= s.skip(find(s, NEWLINE) + 1int));
        } else {
            pos = end;
            assert(line@ =~= s);
        }
    }
    t
}

} // verus!

//! Splitting a buffer into line-aligned partitions, merging the partitions'
//! statistics, and the whole aggregation done partition by partition.
use crate::lines::{
    aggregate_of, find, first_byte, lemma_aggregate_split, lemma_find_bounds,
    lemma_find_unique, NEWLINE,
};
use crate::stats::{lemma_merge_wf, CityStats, map_wf, merge_maps, Summary};
use crate::table::{entries, lookup, store, StatsTable};
use vstd::prelude::*;
use vstd::slice::slice_subrange;

verus! {

/// The start of the first line that begins after offset `t`: just past the
/// first newline at or after `t`, or the end of `s` when there is none.
pub open spec fn line_start_after(s: Seq<u8>, t: int) -> int {
    let e = t + find(s.skip(t), NEWLINE);
    if e < s.len() {
        e + 1
    } else {
        s.len() as int
    }
}

/// Where partition `i` of `n` begins (and partition `i - 1` ends): `0` for the
/// first, the end of `s` for `i == n`, and otherwise the start of the first
/// line after the offset `len * i / n`.
pub open spec fn boundary(s: Seq<u8>, i: int, n: int) -> int {
    if i <= 0 {
        0
    } else if i >= n {
        s.len() as int
    } else {
        line_start_after(s, s.len() * i / n)
    }
}

/// The statistics of partitions `0 .. i` of `n`, merged in order.
pub open spec fn merged_partitions(s: Seq<u8>, n: int, i: int) -> Map<Seq<u8>, Summary>
    decreases i,
{
    if i <= 0 {
        Map::empty()
    } else {
        merge_maps(
            merged_partitions(s, n, i - 1),
            aggregate_of(s.subrange(boundary(s, i - 1, n), boundary(s, i, n))),
        )
    }
}

proof fn lemma_line_start_after(s: Seq<u8>, t: int)
    requires
        0 <= t <= s.len(),
    ensures
        t <= line_start_after(s, t) <= s.len(),
        line_start_after(s, t) == s.len() || s[line_start_after(s, t) - 1] == NEWLINE,
{
    lemma_find_bounds(s.skip(t), NEWLINE);
    let e = t + find(s.skip(t), NEWLINE);
    if e < s.len() {
        assert(s[e] == s.skip(t)[e - t]);
    }
}

proof fn lemma_line_start_after_monotone(s: Seq<u8>, t1: int, t2: int)
    requires
        0 <= t1 <= t2 <= s.len(),
    ensures
        line_start_after(s, t1) <= line_start_after(s, t2),
{
    lemma_line_start_after(s, t1);
    lemma_line_start_after(s, t2);
    let r1 = s.skip(t1);
    let r2 = s.skip(t2);
    lemma_find_bounds(r1, NEWLINE);
    let p1 = t1 + find(r1, NEWLINE);
    if p1 >= t2 {
        assert forall|j: int| 0 <= j < p1 - t2 implies r2[j] != NEWLINE by {
            assert(r2[j] == r1[j + t2 - t1]);
        }
        if p1 < s.len() {
            assert(r2[p1 - t2] == r1[p1 - t1]);
        }
        lemma_find_unique(r2, NEWLINE, p1 - t2);
    }
}

/// Partition boundaries begin at 0, end at the buffer's end, never go down,
/// and each one is a line start (or the end).
pub proof fn lemma_boundary(s: Seq<u8>, n: int, i: int, j: int)
    requires
        1 <= n,
        0 <= i <= j <= n,
    ensures
        0 <= boundary(s, i, n) <= boundary(s, j, n) <= s.len(),
        boundary(s, i, n) == 0 || boundary(s, i, n) == s.len() || s[boundary(s, i, n) - 1]
            == NEWLINE,
{
    let len = s.len() as int;
    if 0 < i && i < n {
        assert(0 <= len * i <= len * n) by (nonlinear_arith)
            requires
                0 <= len,
                0 < i < n,
        ;
        vstd::arithmetic::div_mod::lemma_div_is_ordered(len * i, len * n, n);
        assert(len * n / n == len) by (nonlinear_arith)
            requires
                n > 0,
        ;
        assert(0 <= len * i / n) by (nonlinear_arith)
            requires
                n > 0,
                len * i >= 0,
        ;
        lemma_line_start_after(s, len * i / n);
        if j < n {
            assert(len * i <= len * j) by (nonlinear_arith)
                requires
                    0 <= len,
                    i <= j,
            ;
            assert(len * j <= len * n) by (nonlinear_arith)
                requires
                    0 <= len,
                    j <= n,
            ;
            vstd::arithmetic::div_mod::lemma_div_is_ordered(len * i, len * j, n);
            vstd::arithmetic::div_mod::lemma_div_is_ordered(len * j, len * n, n);
            lemma_line_start_after_monotone(s, len * i / n, len * j / n);
        }
    } else if i == 0 && 0 < j && j < n {
        assert(0 <= len * j <= len * n) by (nonlinear_arith)
            requires
                0 <= len,
                0 < j < n,
        ;
        vstd::arithmetic::div_mod::lemma_div_is_ordered(len * j, len * n, n);
        assert(len * n / n == len) by (nonlinear_arith)
            requires
                n > 0,
        ;
        assert(0 <= len * j / n) by (nonlinear_arith)
            requires
                n > 0,
                len * j >= 0,
        ;
        lemma_line_start_after(s, len * j / n);
    }
}

/// Merging the statistics of the first `i` partitions gives the statistics
/// of the buffer up to the end of partition `i - 1`.
pub proof fn lemma_merged_prefix(s: Seq<u8>, n: int, i: int)
    requires
        1 <= n,
        0 <= i <= n,
    ensures
        merged_partitions(s, n, i) == aggregate_of(s.subrange(0, boundary(s, i, n))),
    decreases i,
{
    if i == 0 {
        assert(s.subrange(0, 0) =~= Seq::<u8>::empty());
        assert(aggregate_of(Seq::<u8>::empty()) =~= Map::empty());
    } else {
        lemma_merged_prefix(s, n, i - 1);
        lemma_boundary(s, n, i - 1, i);
        lemma_boundary(s, n, i, n);
        let a = boundary(s, i - 1, n);
        let b = boundary(s, i, n);
        let x = s.subrange(0, a);
        let y = s.subrange(a, b);
        assert(x + y =~= s.subrange(0, b));
        if a == s.len() {
            assert(y.len() == 0);
        } else if a > 0 {
            assert(x.last() == s[a - 1]);
        }
        lemma_aggregate_split(x, y);
    }
}

/// Splitting the buffer into any number of partitions and merging their
/// statistics gives the statistics of the whole buffer, the same as with a
/// single partition.
pub proof fn lemma_partition_invariance(s: Seq<u8>, n: int)
    requires
        1 <= n,
    ensures
        merged_partitions(s, n, n) == aggregate_of(s),
        merged_partitions(s, n, n) == merged_partitions(s, 1, 1),
{
    lemma_merged_prefix(s, n, n);
    lemma_merged_prefix(s, 1, 1);
    assert(s.subrange(0, s.len() as int) =~= s);
}

/// The boundaries of `workers` partitions of `buf`: `workers + 1` offsets, the
/// first `0` and the last `buf.len()`; partition `i` is `r[i] .. r[i + 1]`.
pub fn partition(buf: &[u8], workers: usize) -> (r: Vec<usize>)
    requires
        workers >= 1,
    ensures
        r@.len() == workers + 1,
        forall|i: int| 0 <= i <= workers ==> r@[i] == boundary(buf@, i, workers as int),
{
    let len = buf.len();
    let mut r: Vec<usize> = Vec::new();
    r.push(0);
    let mut i: usize = 1;
    while i < workers
        invariant
            1 <= i <= workers,
            len == buf@.len(),
            r@.len() == i,
            forall|j: int| 0 <= j < i ==> r@[j] == boundary(buf@, j, workers as int),
        decreases workers - i,
    {
        let ghost li = len as int * i as int;
        assert(li <= len as int * workers as int) by (nonlinear_arith)
            requires
                li == len as int * i as int,
                i < workers,
                0 <= len,
        ;
        assert(0 <= li <= 0xffff_ffff_ffff_ffff_ffff_ffff_ffff_ffff) by (nonlinear_arith)
            requires
                li == len as int * i as int,
                0 <= len <= 0xffff_ffff_ffff_ffff,
                0 <= i <= 0xffff_ffff_ffff_ffff,
        ;
        let p: u128 = (len as u128) * (i as u128);
        let q: u128 = p / (workers as u128);
        proof {
            vstd::arithmetic::div_mod::lemma_div_is_ordered(li, len as int * workers as int, workers as int);
            assert(len as int * workers as int / workers as int == len) by (nonlinear_arith)
                requires
                    workers > 0,
            ;
        }
        let t = q as usize;
        let rest = slice_subrange(buf, t, len);
        let b: usize = match first_byte(NEWLINE, rest) {
            Some(e) => t + e + 1,
            None => len,
        };
        assert(rest@ =~= buf@.skip(t as int));
        r.push(b);
        i = i + 1;
    }
    r.push(len);
    r
}

/// Merges `part` into `acc` by the merge rule, key by key.
pub(crate) fn merge_into(acc: &mut StatsTable, part: &StatsTable)
    requires
        map_wf(old(acc)@),
        map_wf(part@),
        forall|k: Seq<u8>|
            old(acc)@.contains_key(k) && part@.contains_key(k) ==> old(acc)@[k].count
                + part@[k].count <= u64::MAX,
    ensures
        final(acc)@ == merge_maps(old(acc)@, part@),
        map_wf(final(acc)@),
{
    let items = entries(part);
    let ghost a0 = acc@;
    let ghost p = part@;
    let mut i: usize = 0;
    while i < items.len()
        invariant
            i <= items@.len(),
            a0 == old(acc)@,
            p == part@,
            map_wf(a0),
            map_wf(p),
            forall|k: Seq<u8>|
                a0.contains_key(k) && p.contains_key(k) ==> a0[k].count + p[k].count <= u64::MAX,
            forall|j: int| 0 <= j < items@.len() ==> p.contains_key(#[trigger] items@[j].0@)
                && p[items@[j].0@] == items@[j].1@,
            forall|j: int, l: int| 0 <= j < l < items@.len() ==> items@[j].0@ != items@[l].0@,
            acc@ == merge_maps(a0, p.restrict(done_keys(items@, i as int))),
            map_wf(acc@),
        decreases items@.len() - i,
    {
        let key = items[i].0.as_slice();
        let s = items[i].1;
        let ghost k = key@;
        let ghost before = acc@;
        assert(!done_keys(items@, i as int).contains(k));
        assert(p.contains_key(items@[i as int].0@) && p[k] == s@);
        assert(before.contains_key(k) == a0.contains_key(k));
        let next = match lookup(acc, key) {
            Some(cur) => {
                assert(before.contains_key(k) && before[k] == cur@);
                assert(a0.contains_key(k));
                cur.merged(&s)
            },
            None => s,
        };
        store(acc, key, next);
        proof {
            assert(done_keys(items@, i + 1) =~= done_keys(items@, i as int).insert(k));
            let goal = merge_maps(a0, p.restrict(done_keys(items@, i + 1)));
            assert(goal.contains_key(k) && goal[k] == next@);
            assert(acc@ =~= before.insert(k, next@));
            assert(goal =~= before.insert(k, next@));
            lemma_merge_wf(a0, p.restrict(done_keys(items@, i + 1)));
        }
        i = i + 1;
    }
    proof {
        assert(p.restrict(done_keys(items@, i as int)) =~= p);
    }
}

/// The keys of the first `i` items.
pub open spec fn done_keys(items: Seq<(Vec<u8>, CityStats)>, i: int) -> Set<Seq<u8>> {
    Set::new(|k: Seq<u8>| exists|j: int| 0 <= j < i && (#[trigger] items[j]).0@ == k)
}

} // verus!

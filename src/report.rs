//! The final report: one entry per key, in ascending byte order of the keys,
//! and its text form `{key=min/mean/max, ...}`.
use crate::stats::{map_wf, mean_of, CityStats, Summary};
use crate::tenths::{render_tenths, write_tenths};
use vstd::prelude::*;
use vstd::slice::slice_to_vec;

verus! {

/// `a` sorts strictly before `b` in byte-wise lexicographic order.
pub open spec fn lex_lt(a: Seq<u8>, b: Seq<u8>) -> bool
    decreases a.len(),
{
    if a.len() == 0 {
        b.len() > 0
    } else if b.len() == 0 {
        false
    } else if a[0] != b[0] {
        a[0] < b[0]
    } else {
        lex_lt(a.drop_first(), b.drop_first())
    }
}

pub proof fn lemma_lex_irreflexive(a: Seq<u8>)
    ensures
        !lex_lt(a, a),
    decreases a.len(),
{
    if a.len() > 0 {
        lemma_lex_irreflexive(a.drop_first());
    }
}

pub proof fn lemma_lex_transitive(a: Seq<u8>, b: Seq<u8>, c: Seq<u8>)
    requires
        lex_lt(a, b),
        lex_lt(b, c),
    ensures
        lex_lt(a, c),
    decreases a.len(),
{
    if a.len() > 0 && b.len() > 0 && c.len() > 0 && a[0] == b[0] && b[0] == c[0] {
        lemma_lex_transitive(a.drop_first(), b.drop_first(), c.drop_first());
    }
}

/// Two different byte strings are ordered one way or the other.
pub proof fn lemma_lex_total(a: Seq<u8>, b: Seq<u8>)
    requires
        a != b,
    ensures
        lex_lt(a, b) || lex_lt(b, a),
    decreases a.len(),
{
    if a.len() == 0 && b.len() == 0 {
        assert(a =~= b);
    } else if a.len() > 0 && b.len() > 0 && a[0] == b[0] {
        if a.drop_first() == b.drop_first() {
            assert(a.len() == b.drop_first().len() + 1);
            assert forall|i: int| 0 <= i < a.len() implies a[i] == b[i] by {
                if i > 0 {
                    assert(a[i] == a.drop_first()[i - 1]);
                    assert(b[i] == b.drop_first()[i - 1]);
                }
            }
            assert(a =~= b);
        }
        lemma_lex_total(a.drop_first(), b.drop_first());
    }
}

pub proof fn lemma_lex_asymmetric(a: Seq<u8>, b: Seq<u8>)
    requires
        lex_lt(a, b),
    ensures
        !lex_lt(b, a),
{
    if lex_lt(b, a) {
        lemma_lex_transitive(a, b, a);
        lemma_lex_irreflexive(a);
    }
}

/// Whether key `a` sorts strictly before key `b`, byte by byte.
pub fn key_less(a: &[u8], b: &[u8]) -> (r: bool)
    ensures
        r == lex_lt(a@, b@),
{
    let mut i: usize = 0;
    assert(a@.skip(0) =~= a@);
    assert(b@.skip(0) =~= b@);
    while i < a.len() && i < b.len()
        invariant
            i <= a@.len(),
            i <= b@.len(),
            lex_lt(a@, b@) == lex_lt(a@.skip(i as int), b@.skip(i as int)),
        decreases a@.len() - i,
    {
        assert(a@.skip(i as int)[0] == a@[i as int]);
        assert(b@.skip(i as int)[0] == b@[i as int]);
        if a[i] != b[i] {
            return a[i] < b[i];
        }
        assert(a@.skip(i as int).drop_first() =~= a@.skip(i + 1));
        assert(b@.skip(i as int).drop_first() =~= b@.skip(i + 1));
        i = i + 1;
    }
    i == a.len() && i < b.len()
}

/// One line of the report: a key with its minimum, mean and maximum, in
/// tenths.
#[derive(Clone, Debug, PartialEq, Eq)]
pub struct ReportEntry {
    pub key: Vec<u8>,
    pub min: i32,
    pub mean: i32,
    pub max: i32,
}

/// The content of a report entry.
pub open spec fn entry_view(e: ReportEntry) -> (Seq<u8>, int, int, int) {
    (e.key@, e.min as int, e.mean as int, e.max as int)
}

pub open spec fn report_view(r: Seq<ReportEntry>) -> Seq<(Seq<u8>, int, int, int)> {
    r.map_values(|e: ReportEntry| entry_view(e))
}

/// `r` reports `m`: one entry for each key of `m` and no other, with its
/// minimum, rounded mean and maximum, the keys strictly ascending.
pub open spec fn is_report_of(r: Seq<(Seq<u8>, int, int, int)>, m: Map<Seq<u8>, Summary>) -> bool {
    &&& forall|i: int|
        0 <= i < r.len() ==> {
            let k = (#[trigger] r[i]).0;
            &&& m.contains_key(k)
            &&& r[i].1 == m[k].min
            &&& r[i].2 == mean_of(m[k])
            &&& r[i].3 == m[k].max
        }
    &&& forall|i: int, j: int| 0 <= i < j < r.len() ==> lex_lt(r[i].0, r[j].0)
    &&& forall|k: Seq<u8>| m.contains_key(k) ==> exists|i: int| 0 <= i < r.len() && (#[trigger] r[i]).0 == k
}

/// The text of one entry: `key=min/mean/max`.
pub open spec fn render_entry(e: (Seq<u8>, int, int, int)) -> Seq<u8> {
    e.0 + seq![61u8] + render_tenths(e.1) + seq![47u8] + render_tenths(e.2) + seq![47u8]
        + render_tenths(e.3)
}

/// The entries' texts joined by `, `.
pub open spec fn render_entries(r: Seq<(Seq<u8>, int, int, int)>) -> Seq<u8>
    decreases r.len(),
{
    if r.len() == 0 {
        Seq::empty()
    } else if r.len() == 1 {
        render_entry(r[0])
    } else {
        render_entries(r.drop_last()) + seq![44u8, 32u8] + render_entry(r.last())
    }
}

/// The report's text: the entries between braces.
pub open spec fn render_report(r: Seq<(Seq<u8>, int, int, int)>) -> Seq<u8> {
    seq![123u8] + render_entries(r) + seq![125u8]
}

pub open spec fn strictly_sorted(r: Seq<ReportEntry>) -> bool {
    forall|i: int, j: int| 0 <= i < j < r.len() ==> lex_lt(r[i].key@, r[j].key@)
}

pub open spec fn among_entries(r: Seq<ReportEntry>, k: Seq<u8>) -> bool {
    exists|l: int| 0 <= l < r.len() && (#[trigger] r[l]).key@ == k
}

pub open spec fn among_items(items: Seq<(Vec<u8>, CityStats)>, n: int, k: Seq<u8>) -> bool {
    exists|j: int| 0 <= j < n && (#[trigger] items[j]).0@ == k
}

proof fn lemma_same_prefix(
    m: Map<Seq<u8>, Summary>,
    r1: Seq<(Seq<u8>, int, int, int)>,
    r2: Seq<(Seq<u8>, int, int, int)>,
    n: int,
)
    requires
        is_report_of(r1, m),
        is_report_of(r2, m),
        0 <= n <= r1.len(),
        n <= r2.len(),
    ensures
        forall|i: int| 0 <= i < n ==> (#[trigger] r1[i]).0 == r2[i].0,
    decreases n,
{
    if n > 0 {
        lemma_same_prefix(m, r1, r2, n - 1);
        let i = n - 1;
        let k = r1[i].0;
        assert(m.contains_key(k));
        let j = choose|j: int| 0 <= j < r2.len() && (#[trigger] r2[j]).0 == k;
        if j < i {
            assert(r1[j].0 == r2[j].0);
            lemma_lex_irreflexive(k);
        } else if j > i {
            let k2 = r2[i].0;
            assert(m.contains_key(k2));
            let l = choose|l: int| 0 <= l < r1.len() && (#[trigger] r1[l]).0 == k2;
            if l < i {
                assert(r1[l].0 == r2[l].0);
                lemma_lex_irreflexive(k2);
            } else if l == i {
                lemma_lex_irreflexive(k);
            } else {
                lemma_lex_transitive(k, k2, k);
                lemma_lex_irreflexive(k);
            }
        }
    }
}

/// A mapping has exactly one report: two reports of the same mapping are
/// equal, entry for entry.
pub proof fn lemma_report_unique(
    m: Map<Seq<u8>, Summary>,
    r1: Seq<(Seq<u8>, int, int, int)>,
    r2: Seq<(Seq<u8>, int, int, int)>,
)
    requires
        is_report_of(r1, m),
        is_report_of(r2, m),
    ensures
        r1 == r2,
{
    if r1.len() > r2.len() {
        lemma_same_prefix(m, r1, r2, r2.len() as int);
        let k = r1[r2.len() as int].0;
        assert(m.contains_key(k));
        let j = choose|j: int| 0 <= j < r2.len() && (#[trigger] r2[j]).0 == k;
        assert(r1[j].0 == r2[j].0);
        lemma_lex_irreflexive(k);
    } else if r2.len() > r1.len() {
        lemma_same_prefix(m, r2, r1, r1.len() as int);
        let k = r2[r1.len() as int].0;
        assert(m.contains_key(k));
        let j = choose|j: int| 0 <= j < r1.len() && (#[trigger] r1[j]).0 == k;
        assert(r2[j].0 == r1[j].0);
        lemma_lex_irreflexive(k);
    } else {
        lemma_same_prefix(m, r1, r2, r1.len() as int);
        assert forall|i: int| 0 <= i < r1.len() implies r1[i] == r2[i] by {
            assert(r1[i].0 == r2[i].0);
        }
        assert(r1 =~= r2);
    }
}

fn write_bytes(out: &mut Vec<u8>, b: &[u8])
    ensures
        final(out)@ == old(out)@ + b@,
{
    let mut i: usize = 0;
    while i < b.len()
        invariant
            i <= b@.len(),
            out@ == old(out)@ + b@.take(i as int),
        decreases b@.len() - i,
    {
        out.push(b[i]);
        i = i + 1;
        assert(out@ =~= old(out)@ + b@.take(i as int));
    }
    assert(b@.take(i as int) =~= b@);
}

fn write_entry(out: &mut Vec<u8>, e: &ReportEntry)
    ensures
        final(out)@ == old(out)@ + render_entry(entry_view(*e)),
{
    write_bytes(out, e.key.as_slice());
    out.push(61u8);
    write_tenths(out, e.min);
    out.push(47u8);
    write_tenths(out, e.mean);
    out.push(47u8);
    write_tenths(out, e.max);
    assert(final(out)@ =~= old(out)@ + render_entry(entry_view(*e)));
}

/// The text of a report: `{key=min/mean/max, key=min/mean/max}`, every
/// number with exactly one fractional digit.
pub fn format_report(entries: &Vec<ReportEntry>) -> (r: Vec<u8>)
    ensures
        r@ == render_report(report_view(entries@)),
{
    let ghost v = report_view(entries@);
    let mut out: Vec<u8> = Vec::new();
    out.push(123u8);
    let mut i: usize = 0;
    assert(v.take(0) =~= Seq::<(Seq<u8>, int, int, int)>::empty());
    while i < entries.len()
        invariant
            i <= entries@.len(),
            v == report_view(entries@),
            out@ == seq![123u8] + render_entries(v.take(i as int)),
        decreases entries@.len() - i,
    {
        let ghost before = out@;
        if i > 0 {
            out.push(44u8);
            out.push(32u8);
        }
        write_entry(&mut out, &entries[i]);
        proof {
            let t = v.take(i + 1);
            assert(t.drop_last() =~= v.take(i as int));
            assert(t.last() == entry_view(entries@[i as int]));
            if i == 0 {
                assert(out@ =~= seq![123u8] + render_entries(t));
            } else {
                assert(out@ =~= seq![123u8] + render_entries(t));
            }
        }
        i = i + 1;
    }
    out.push(125u8);
    assert(v.take(i as int) =~= v);
    assert(out@ =~= render_report(v));
    out
}

/// Where `key` goes in the sorted `r`: after every key below it, before every
/// key above it.
fn insert_position(r: &Vec<ReportEntry>, key: &[u8]) -> (pos: usize)
    requires
        strictly_sorted(r@),
        forall|l: int| 0 <= l < r@.len() ==> (#[trigger] r@[l]).key@ != key@,
    ensures
        pos <= r@.len(),
        forall|l: int| 0 <= l < pos ==> lex_lt((#[trigger] r@[l]).key@, key@),
        pos < r@.len() ==> lex_lt(key@, r@[pos as int].key@),
{
    let mut pos: usize = 0;
    while pos < r.len()
        invariant
            pos <= r@.len(),
            forall|l: int| 0 <= l < r@.len() ==> (#[trigger] r@[l]).key@ != key@,
            forall|l: int| 0 <= l < pos ==> lex_lt((#[trigger] r@[l]).key@, key@),
        decreases r@.len() - pos,
    {
        if key_less(key, r[pos].key.as_slice()) {
            return pos;
        }
        proof {
            lemma_lex_total(key@, r@[pos as int].key@);
        }
        pos = pos + 1;
    }
    pos
}

/// The report of the mapping whose entries, each key once, are `items`.
pub(crate) fn build_report(items: &Vec<(Vec<u8>, CityStats)>, m: Ghost<Map<Seq<u8>, Summary>>) -> (r: Vec<
    ReportEntry,
>)
    requires
        map_wf(m@),
        forall|i: int|
            0 <= i < items@.len() ==> m@.contains_key(#[trigger] items@[i].0@) && m@[items@[i].0@]
                == items@[i].1@,
        forall|i: int, j: int| 0 <= i < j < items@.len() ==> items@[i].0@ != items@[j].0@,
        forall|k: Seq<u8>|
            m@.contains_key(k) ==> exists|i: int| 0 <= i < items@.len() && (#[trigger] items@[i].0@) == k,
    ensures
        is_report_of(report_view(r@), m@),
{
    let mut r: Vec<ReportEntry> = Vec::new();
    let mut i: usize = 0;
    while i < items.len()
        invariant
            i <= items@.len(),
            map_wf(m@),
            forall|i: int|
                0 <= i < items@.len() ==> m@.contains_key(#[trigger] items@[i].0@) && m@[items@[i].0@]
                    == items@[i].1@,
            forall|i: int, j: int| 0 <= i < j < items@.len() ==> items@[i].0@ != items@[j].0@,
            strictly_sorted(r@),
            forall|l: int|
                0 <= l < r@.len() ==> {
                    let e = #[trigger] r@[l];
                    &&& m@.contains_key(e.key@)
                    &&& e.min == m@[e.key@].min
                    &&& e.mean == mean_of(m@[e.key@])
                    &&& e.max == m@[e.key@].max
                },
            forall|l: int| 0 <= l < r@.len() ==> among_items(items@, i as int, (#[trigger] r@[l]).key@),
            forall|j: int| 0 <= j < i ==> among_entries(r@, (#[trigger] items@[j]).0@),
        decreases items@.len() - i,
    {
        let key = items[i].0.as_slice();
        let s = items[i].1;
        assert(m@.contains_key(items@[i as int].0@));
        let entry = ReportEntry { key: slice_to_vec(key), min: s.min, mean: s.mean(), max: s.max };
        proof {
            assert forall|l: int| 0 <= l < r@.len() implies (#[trigger] r@[l]).key@ != key@ by {
                assert(among_items(items@, i as int, r@[l].key@));
                let j = choose|j: int| 0 <= j < i && items@[j].0@ == r@[l].key@;
                assert(items@[j].0@ != items@[i as int].0@);
            }
        }
        let pos = insert_position(&r, key);
        let ghost old_r = r@;
        r.insert(pos, entry);
        proof {
            assert(r@ == old_r.insert(pos as int, entry));
            assert forall|a: int, b: int| 0 <= a < b < r@.len() implies lex_lt(r@[a].key@, r@[b].key@) by {
                if b < pos {
                } else if b == pos {
                    assert(r@[b] == entry);
                } else if a < pos {
                    assert(r@[b] == old_r[b - 1]);
                    if b - 1 > pos {
                        lemma_lex_transitive(key@, old_r[pos as int].key@, old_r[b - 1].key@);
                    }
                    lemma_lex_transitive(old_r[a].key@, key@, old_r[b - 1].key@);
                } else if a == pos {
                    assert(r@[b] == old_r[b - 1]);
                    if b - 1 > pos {
                        lemma_lex_transitive(key@, old_r[pos as int].key@, old_r[b - 1].key@);
                    }
                } else {
                    assert(r@[a] == old_r[a - 1]);
                    assert(r@[b] == old_r[b - 1]);
                }
            }
            assert forall|l: int| 0 <= l < r@.len() implies among_items(
                items@,
                i + 1,
                (#[trigger] r@[l]).key@,
            ) by {
                if l < pos {
                    assert(r@[l] == old_r[l]);
                    assert(among_items(items@, i as int, old_r[l].key@));
                    let j = choose|j: int| 0 <= j < i && items@[j].0@ == old_r[l].key@;
                    assert(0 <= j < i + 1 && items@[j].0@ == r@[l].key@);
                } else if l == pos {
                    assert(items@[i as int].0@ == r@[l].key@);
                } else {
                    assert(r@[l] == old_r[l - 1]);
                    assert(among_items(items@, i as int, old_r[l - 1].key@));
                    let j = choose|j: int| 0 <= j < i && items@[j].0@ == old_r[l - 1].key@;
                    assert(0 <= j < i + 1 && items@[j].0@ == r@[l].key@);
                }
            }
            assert forall|j: int| 0 <= j < i + 1 implies among_entries(
                r@,
                (#[trigger] items@[j]).0@,
            ) by {
                if j == i {
                    assert(r@[pos as int].key@ == items@[j].0@);
                } else {
                    assert(among_entries(old_r, items@[j].0@));
                    let l = choose|l: int| 0 <= l < old_r.len() && old_r[l].key@ == items@[j].0@;
                    if l < pos {
                        assert(r@[l] == old_r[l]);
                    } else {
                        assert(r@[l + 1] == old_r[l]);
                    }
                }
            }
        }
        i = i + 1;
    }
    proof {
        let v = report_view(r@);
        assert forall|k: Seq<u8>| m@.contains_key(k) implies exists|x: int|
            0 <= x < v.len() && (#[trigger] v[x]).0 == k by {
            let j = choose|j: int| 0 <= j < items@.len() && (#[trigger] items@[j].0@) == k;
            assert(among_entries(r@, items@[j].0@));
            let l = choose|l: int| 0 <= l < r@.len() && (#[trigger] r@[l]).key@ == items@[j].0@;
            assert(v[l].0 == k);
        }
    }
    r
}

} // verus!

//! The statistics of a span of the input, as produced by one worker or by
//! merging the results of several.
use crate::lines::{aggregate_of, lemma_aggregate_wf, scan_range};
use crate::report::{
    build_report, format_report, is_report_of, lemma_report_unique, render_report, report_view,
    ReportEntry,
};
use crate::partition::{boundary, lemma_boundary, lemma_merged_prefix, merge_into, partition};
use crate::stats::{counts_within, lemma_mean_between, map_wf, merge_maps, Summary};
use crate::table::{entries, new_table, table_contents, StatsTable};
use vstd::prelude::*;

verus! {

/// Key-to-statistics mapping for `span` bytes of input. No key has more
/// readings than the span has bytes, so merging never overflows a count.
pub struct Aggregate {
    table: StatsTable,
    span: usize,
}

impl View for Aggregate {
    type V = Map<Seq<u8>, Summary>;

    closed spec fn view(&self) -> Map<Seq<u8>, Summary> {
        self.table@
    }
}

impl Aggregate {
    #[verifier::type_invariant]
    closed spec fn inv(self) -> bool {
        &&& map_wf(self.table@)
        &&& counts_within(self.table@, self.span as int)
    }

    /// The number of input bytes that this mapping covers.
    pub closed spec fn span_spec(self) -> nat {
        self.span as nat
    }

    /// The number of input bytes that this mapping covers.
    pub fn span(&self) -> (r: usize)
        ensures
            r == self.span_spec(),
    {
        self.span
    }

    /// The statistics of no input at all.
    pub fn new() -> (r: Aggregate)
        ensures
            r@ == Map::<Seq<u8>, Summary>::empty(),
            r.span_spec() == 0,
    {
        let t = new_table();
        assert(t@ =~= Map::empty());
        Aggregate { table: t, span: 0 }
    }

    /// Merges `other` into this mapping by the merge rule, key by key.
    pub fn merge(self, other: &Aggregate) -> (r: Aggregate)
        requires
            self.span_spec() + other.span_spec() <= usize::MAX,
        ensures
            r@ == merge_maps(self@, other@),
            r.span_spec() == self.span_spec() + other.span_spec(),
    {
        proof {
            use_type_invariant(&self);
            use_type_invariant(other);
        }
        let span = self.span + other.span;
        let mut t = self.table;
        merge_into(&mut t, &other.table);
        proof {
            let a = self.table@;
            let b = other.table@;
            assert forall|k: Seq<u8>| t@.contains_key(k) implies (#[trigger] t@[k]).count
                <= span by {
                if a.contains_key(k) && b.contains_key(k) {
                    assert(a[k].count <= self.span && b[k].count <= other.span);
                } else if a.contains_key(k) {
                    assert(a[k].count <= self.span);
                } else {
                    assert(b[k].count <= other.span);
                }
            }
        }
        Aggregate { table: t, span }
    }

    /// One entry per key with its minimum, rounded mean and maximum, keys in
    /// ascending byte order.
    pub fn report(&self) -> (r: Vec<ReportEntry>)
        ensures
            is_report_of(report_view(r@), self@),
    {
        proof {
            use_type_invariant(self);
        }
        let items = entries(&self.table);
        let ghost m = self.table@;
        assert forall|k: Seq<u8>| m.contains_key(k) implies exists|i: int|
            0 <= i < items@.len() && (#[trigger] items@[i].0@) == k by {
            assert(table_contents(self.table).contains_key(k));
        }
        build_report(&items, Ghost(m))
    }

    /// Whether this mapping can merge with `other`: their spans together fit
    /// in a `usize`.
    pub fn can_merge(&self, other: &Aggregate) -> (r: bool)
        ensures
            r == (self.span_spec() + other.span_spec() <= usize::MAX),
    {
        self.span <= usize::MAX - other.span
    }
}

/// The statistics of the records in `buf[start..end]`, which must begin at
/// the start of a line. Lines without a separator, and lines whose value does
/// not parse, are skipped.
pub fn aggregate_range(buf: &[u8], start: usize, end: usize) -> (r: Aggregate)
    requires
        start <= end <= buf@.len(),
    ensures
        r@ == aggregate_of(buf@.subrange(start as int, end as int)),
        r.span_spec() == end - start,
{
    let t = scan_range(buf, start, end);
    Aggregate { table: t, span: end - start }
}

/// The statistics of every record in `buf`, computed as `workers` line-aligned
/// partitions merged in order. The result does not depend on `workers`.
pub fn aggregate(buf: &[u8], workers: usize) -> (r: Aggregate)
    requires
        workers >= 1,
    ensures
        r@ == aggregate_of(buf@),
        r.span_spec() == buf@.len(),
{
    let bounds = partition(buf, workers);
    let mut acc = Aggregate::new();
    proof {
        lemma_merged_prefix(buf@, workers as int, 0);
    }
    let mut i: usize = 0;
    while i < workers
        invariant
            i <= workers,
            bounds@.len() == workers + 1,
            forall|j: int| 0 <= j <= workers ==> bounds@[j] == boundary(buf@, j, workers as int),
            acc@ == aggregate_of(buf@.subrange(0, bounds@[i as int] as int)),
            acc.span_spec() == bounds@[i as int],
        decreases workers - i,
    {
        proof {
            lemma_boundary(buf@, workers as int, i as int, i + 1);
            lemma_boundary(buf@, workers as int, i + 1, workers as int);
            lemma_merged_prefix(buf@, workers as int, i as int);
            lemma_merged_prefix(buf@, workers as int, i + 1);
        }
        let part = aggregate_range(buf, bounds[i], bounds[i + 1]);
        acc = acc.merge(&part);
        i = i + 1;
    }
    assert(buf@.subrange(0, buf@.len() as int) =~= buf@);
    acc
}

/// `out` is the report text of the records in `s`.
pub open spec fn output_of(out: Seq<u8>, s: Seq<u8>) -> bool {
    exists|e: Seq<(Seq<u8>, int, int, int)>| is_report_of(e, aggregate_of(s)) && out == render_report(e)
}

/// The report text of every record in `buf`, aggregated in `workers`
/// partitions: `{key=min/mean/max, ...}` with keys ascending.
pub fn summarize(buf: &[u8], workers: usize) -> (r: Vec<u8>)
    requires
        workers >= 1,
    ensures
        output_of(r@, buf@),
{
    let agg = aggregate(buf, workers);
    let entries = agg.report();
    let out = format_report(&entries);
    assert(is_report_of(report_view(entries@), aggregate_of(buf@)));
    out
}

/// The report text of a buffer is a function of the buffer: two runs give the
/// same bytes, whatever number of partitions each of them used.
pub proof fn lemma_output_deterministic(s: Seq<u8>, x: Seq<u8>, y: Seq<u8>)
    requires
        output_of(x, s),
        output_of(y, s),
    ensures
        x == y,
{
    let ex = choose|e: Seq<(Seq<u8>, int, int, int)>|
        is_report_of(e, aggregate_of(s)) && x == render_report(e);
    let ey = choose|e: Seq<(Seq<u8>, int, int, int)>|
        is_report_of(e, aggregate_of(s)) && y == render_report(e);
    lemma_report_unique(aggregate_of(s), ex, ey);
}

/// In every report of a buffer, each entry has `min <= mean <= max`.
pub proof fn lemma_report_mean_between(s: Seq<u8>, r: Seq<(Seq<u8>, int, int, int)>)
    requires
        is_report_of(r, aggregate_of(s)),
    ensures
        forall|i: int| 0 <= i < r.len() ==> (#[trigger] r[i]).1 <= r[i].2 <= r[i].3,
{
    lemma_aggregate_wf(s);
    assert forall|i: int| 0 <= i < r.len() implies (#[trigger] r[i]).1 <= r[i].2 <= r[i].3 by {
        lemma_mean_between(aggregate_of(s)[r[i].0]);
    }
}

} // verus!

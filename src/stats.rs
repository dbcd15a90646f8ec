//! Per-key statistics: the accumulator of one key, its merge rule, and maps of
//! them.
use crate::tenths::{MAX_TENTHS, MIN_TENTHS};
use vstd::prelude::*;

verus! {

/// The mathematical content of a `CityStats`.
pub struct Summary {
    pub min: int,
    pub max: int,
    pub sum: int,
    pub count: int,
}

/// The statistics of a single reading of `v` tenths.
pub open spec fn single(v: int) -> Summary {
    Summary { min: v, max: v, sum: v, count: 1 }
}

pub open spec fn min_int(a: int, b: int) -> int {
    if a <= b {
        a
    } else {
        b
    }
}

pub open spec fn max_int(a: int, b: int) -> int {
    if a >= b {
        a
    } else {
        b
    }
}

/// The merge rule: least minimum, greatest maximum, added sums and counts.
pub open spec fn combine(a: Summary, b: Summary) -> Summary {
    Summary {
        min: min_int(a.min, b.min),
        max: max_int(a.max, b.max),
        sum: a.sum + b.sum,
        count: a.count + b.count,
    }
}

/// At least one reading, every reading within range, and the sum between
/// `count * min` and `count * max`.
pub open spec fn summary_wf(s: Summary) -> bool {
    &&& s.count >= 1
    &&& MIN_TENTHS <= s.min <= s.max <= MAX_TENTHS
    &&& s.count * s.min <= s.sum <= s.count * s.max
}

/// `sum / count` in tenths, rounded to the nearest integer, ties away from zero.
pub open spec fn rounded_mean(sum: int, count: int) -> int {
    if sum >= 0 {
        (2 * sum + count) / (2 * count)
    } else {
        -((2 * (-sum) + count) / (2 * count))
    }
}

pub open spec fn mean_of(s: Summary) -> int {
    rounded_mean(s.sum, s.count)
}

/// Statistics of one key, with the reading values in tenths.
#[derive(Clone, Copy, Debug, PartialEq, Eq, Structural)]
pub struct CityStats {
    pub min: i32,
    pub max: i32,
    pub sum: i128,
    pub count: u64,
}

impl View for CityStats {
    type V = Summary;

    open spec fn view(&self) -> Summary {
        Summary { min: self.min as int, max: self.max as int, sum: self.sum as int, count: self.count as int }
    }
}

proof fn lemma_sum_bound(s: Summary)
    requires
        summary_wf(s),
        s.count <= 0x1_0000_0000_0000_0000,
    ensures
        -0x1_0000_0000_0000_0000_0000_0000 <= s.sum <= 0x1_0000_0000_0000_0000_0000_0000,
{
    assert(s.count * s.min >= -0x1_0000_0000_0000_0000_0000_0000) by (nonlinear_arith)
        requires
            s.count >= 1,
            s.count <= 0x1_0000_0000_0000_0000,
            s.min >= MIN_TENTHS,
    ;
    assert(s.count * s.max <= 0x1_0000_0000_0000_0000_0000_0000) by (nonlinear_arith)
        requires
            s.count >= 1,
            s.count <= 0x1_0000_0000_0000_0000,
            s.max <= MAX_TENTHS,
    ;
}

/// Merging two well-formed summaries gives a well-formed one.
pub proof fn lemma_combine_wf(a: Summary, b: Summary)
    requires
        summary_wf(a),
        summary_wf(b),
    ensures
        summary_wf(combine(a, b)),
{
    let c = combine(a, b);
    assert(a.count * c.min <= a.count * a.min) by (nonlinear_arith)
        requires
            a.count >= 1,
            c.min <= a.min,
    ;
    assert(b.count * c.min <= b.count * b.min) by (nonlinear_arith)
        requires
            b.count >= 1,
            c.min <= b.min,
    ;
    assert(a.count * a.max <= a.count * c.max) by (nonlinear_arith)
        requires
            a.count >= 1,
            a.max <= c.max,
    ;
    assert(b.count * b.max <= b.count * c.max) by (nonlinear_arith)
        requires
            b.count >= 1,
            b.max <= c.max,
    ;
    assert(c.count * c.min == a.count * c.min + b.count * c.min) by (nonlinear_arith)
        requires
            c.count == a.count + b.count,
    ;
    assert(c.count * c.max == a.count * c.max + b.count * c.max) by (nonlinear_arith)
        requires
            c.count == a.count + b.count,
    ;
}

/// The merge rule is associative.
pub proof fn lemma_combine_assoc(a: Summary, b: Summary, c: Summary)
    ensures
        combine(combine(a, b), c) == combine(a, combine(b, c)),
{
}

/// The merge rule is commutative.
pub proof fn lemma_combine_comm(a: Summary, b: Summary)
    ensures
        combine(a, b) == combine(b, a),
{
}

/// For every key with at least one reading, `min <= mean <= max`.
pub proof fn lemma_mean_between(s: Summary)
    requires
        summary_wf(s),
    ensures
        s.min <= mean_of(s) <= s.max,
{
    let c = s.count;
    let d = 2 * c;
    if s.sum >= 0 {
        let n = 2 * s.sum + c;
        let q = n / d;
        assert(q * d <= n < q * d + d) by (nonlinear_arith)
            requires
                d > 0,
                q == n / d,
        ;
        assert(s.min <= q <= s.max) by (nonlinear_arith)
            requires
                q * d <= n,
                n < q * d + d,
                d == 2 * c,
                n == 2 * s.sum + c,
                c >= 1,
                c * s.min <= s.sum,
                s.sum <= c * s.max,
        ;
    } else {
        let n = 2 * (-s.sum) + c;
        let q = n / d;
        assert(q * d <= n < q * d + d) by (nonlinear_arith)
            requires
                d > 0,
                q == n / d,
        ;
        assert(s.min <= -q <= s.max) by (nonlinear_arith)
            requires
                q * d <= n,
                n < q * d + d,
                d == 2 * c,
                n == 2 * (-s.sum) + c,
                c >= 1,
                c * s.min <= s.sum,
                s.sum <= c * s.max,
        ;
    }
}

/// The merge rule applied key by key: a key of either map is in the result,
/// with the merged statistics where both maps hold it.
pub open spec fn merge_maps(a: Map<Seq<u8>, Summary>, b: Map<Seq<u8>, Summary>) -> Map<
    Seq<u8>,
    Summary,
> {
    Map::new(
        |k: Seq<u8>| a.contains_key(k) || b.contains_key(k),
        |k: Seq<u8>|
            if a.contains_key(k) && b.contains_key(k) {
                combine(a[k], b[k])
            } else if a.contains_key(k) {
                a[k]
            } else {
                b[k]
            },
    )
}

/// `m` after one more reading of `v` tenths under `key`.
pub open spec fn add_reading(m: Map<Seq<u8>, Summary>, key: Seq<u8>, v: int) -> Map<
    Seq<u8>,
    Summary,
> {
    m.insert(
        key,
        if m.contains_key(key) {
            combine(m[key], single(v))
        } else {
            single(v)
        },
    )
}

pub open spec fn map_wf(m: Map<Seq<u8>, Summary>) -> bool {
    forall|k: Seq<u8>| m.contains_key(k) ==> summary_wf(#[trigger] m[k])
}

/// No key of `m` has more than `n` readings.
pub open spec fn counts_within(m: Map<Seq<u8>, Summary>, n: int) -> bool {
    forall|k: Seq<u8>| m.contains_key(k) ==> (#[trigger] m[k]).count <= n
}

pub proof fn lemma_merge_empty(m: Map<Seq<u8>, Summary>)
    ensures
        merge_maps(Map::empty(), m) == m,
        merge_maps(m, Map::empty()) == m,
{
    assert(merge_maps(Map::empty(), m) =~= m);
    assert(merge_maps(m, Map::empty()) =~= m);
}

/// Merging maps is associative.
pub proof fn lemma_merge_assoc(
    a: Map<Seq<u8>, Summary>,
    b: Map<Seq<u8>, Summary>,
    c: Map<Seq<u8>, Summary>,
)
    ensures
        merge_maps(merge_maps(a, b), c) == merge_maps(a, merge_maps(b, c)),
{
    assert(merge_maps(merge_maps(a, b), c) =~= merge_maps(a, merge_maps(b, c)));
}

/// Merging maps is commutative.
pub proof fn lemma_merge_comm(a: Map<Seq<u8>, Summary>, b: Map<Seq<u8>, Summary>)
    ensures
        merge_maps(a, b) == merge_maps(b, a),
{
    assert(merge_maps(a, b) =~= merge_maps(b, a));
}

/// One more reading is a merge with the map of that reading alone.
pub proof fn lemma_add_is_merge(m: Map<Seq<u8>, Summary>, key: Seq<u8>, v: int)
    ensures
        add_reading(m, key, v) == merge_maps(m, Map::empty().insert(key, single(v))),
{
    assert(add_reading(m, key, v) =~= merge_maps(m, Map::empty().insert(key, single(v))));
}

pub proof fn lemma_merge_wf(a: Map<Seq<u8>, Summary>, b: Map<Seq<u8>, Summary>)
    requires
        map_wf(a),
        map_wf(b),
    ensures
        map_wf(merge_maps(a, b)),
{
    assert forall|k: Seq<u8>| merge_maps(a, b).contains_key(k) implies summary_wf(
        #[trigger] merge_maps(a, b)[k],
    ) by {
        if a.contains_key(k) && b.contains_key(k) {
            lemma_combine_wf(a[k], b[k]);
        }
    }
}

/// One more reading in range keeps a map well formed, and raises one count
/// by one.
pub proof fn lemma_combine_wf_single(m: Map<Seq<u8>, Summary>, key: Seq<u8>, v: int)
    requires
        map_wf(m),
        MIN_TENTHS <= v <= MAX_TENTHS,
    ensures
        map_wf(add_reading(m, key, v)),
        forall|n: int| 0 <= n && counts_within(m, n) ==> counts_within(add_reading(m, key, v), n + 1),
{
    if m.contains_key(key) {
        lemma_combine_wf(m[key], single(v));
    }
    assert forall|n: int| 0 <= n && counts_within(m, n) implies counts_within(
        add_reading(m, key, v),
        n + 1,
    ) by {
        let a = add_reading(m, key, v);
        assert forall|k: Seq<u8>| a.contains_key(k) implies (#[trigger] a[k]).count <= n + 1 by {
            if k != key {
                assert(m.contains_key(k));
            }
        }
    }
}

impl CityStats {
    /// The statistics of a single reading of `v` tenths.
    pub fn from_reading(v: i32) -> (r: CityStats)
        ensures
            r@ == single(v as int),
    {
        CityStats { min: v, max: v, sum: v as i128, count: 1 }
    }

    /// The merge rule applied to `self` and `other`.
    pub fn merged(&self, other: &CityStats) -> (r: CityStats)
        requires
            summary_wf(self@),
            summary_wf(other@),
            self.count + other.count <= u64::MAX,
        ensures
            r@ == combine(self@, other@),
    {
        proof {
            lemma_sum_bound(self@);
            lemma_sum_bound(other@);
        }
        CityStats {
            min: if self.min <= other.min {
                self.min
            } else {
                other.min
            },
            max: if self.max >= other.max {
                self.max
            } else {
                other.max
            },
            sum: self.sum + other.sum,
            count: self.count + other.count,
        }
    }

    /// The mean in tenths, rounded to the nearest tenth, ties away from zero.
    pub fn mean(&self) -> (r: i32)
        requires
            summary_wf(self@),
        ensures
            r == mean_of(self@),
            self.min <= r <= self.max,
    {
        proof {
            lemma_sum_bound(self@);
            lemma_mean_between(self@);
        }
        let c: u128 = self.count as u128;
        if self.sum >= 0 {
            let n: u128 = 2 * (self.sum as u128) + c;
            (n / (2 * c)) as i32
        } else {
            let n: u128 = 2 * ((0 - self.sum) as u128) + c;
            let q: u128 = n / (2 * c);
            (0 - (q as i128)) as i32
        }
    }
}

} // verus!

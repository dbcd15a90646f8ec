//! Reading a report entry `key=min/mean/max` back into its parts. The numbers
//! never hold `=` or `/`, so the entry is split at its last `/`, the `/` before
//! that, and the last `=` before that; the key may hold any byte.
use crate::report::{
    entry_view, render_entries, render_entry, render_report, report_view, ReportEntry,
};
use crate::tenths::{
    abs, digits_of, is_digit, lemma_digits_of, lemma_tenths_round_trip, parse_temp, parsed_tenths,
    render_tenths, MAX_TENTHS, MIN_TENTHS,
};
use vstd::prelude::*;
use vstd::slice::{slice_subrange, slice_to_vec};

verus! {

/// The index of the last `b` in `s`, or `-1` when there is none.
pub open spec fn rfind(s: Seq<u8>, b: u8) -> int
    decreases s.len(),
{
    if s.len() == 0 {
        -1
    } else if s.last() == b {
        s.len() - 1
    } else {
        rfind(s.drop_last(), b)
    }
}

/// The parts of an entry's text, when it has the shape `key=min/mean/max`
/// and each number parses.
pub open spec fn decoded_entry(t: Seq<u8>) -> Option<(Seq<u8>, int, int, int)> {
    let p3 = rfind(t, 47u8);
    if p3 < 0 {
        None
    } else {
        let p2 = rfind(t.take(p3), 47u8);
        if p2 < 0 {
            None
        } else {
            let p1 = rfind(t.take(p2), 61u8);
            if p1 < 0 {
                None
            } else {
                match (
                    parsed_tenths(t.subrange(p1 + 1, p2)),
                    parsed_tenths(t.subrange(p2 + 1, p3)),
                    parsed_tenths(t.skip(p3 + 1)),
                ) {
                    (Some(a), Some(b), Some(c)) => Some((t.take(p1), a as int, b as int, c as int)),
                    _ => None,
                }
            }
        }
    }
}

proof fn lemma_rfind_bounds(s: Seq<u8>, b: u8)
    ensures
        -1 <= rfind(s, b) < s.len(),
    decreases s.len(),
{
    if s.len() > 0 {
        lemma_rfind_bounds(s.drop_last(), b);
    }
}

/// The last `b` of `x + [b] + y` is the one between them when `y` holds none.
proof fn lemma_rfind_split(x: Seq<u8>, b: u8, y: Seq<u8>)
    requires
        forall|i: int| 0 <= i < y.len() ==> y[i] != b,
    ensures
        rfind(x + seq![b] + y, b) == x.len(),
        (x + seq![b] + y).take(x.len() as int) == x,
    decreases y.len(),
{
    let s = x + seq![b] + y;
    assert(s.take(x.len() as int) =~= x);
    if y.len() > 0 {
        assert(s.drop_last() =~= x + seq![b] + y.drop_last());
        lemma_rfind_split(x, b, y.drop_last());
    } else {
        assert(s.last() == b);
    }
}

proof fn lemma_render_has_no(v: int, b: u8)
    requires
        b == 44 || b == 47 || b == 61,
    ensures
        forall|i: int| 0 <= i < render_tenths(v).len() ==> render_tenths(v)[i] != b,
{
    let d = digits_of(abs(v) / 10);
    lemma_digits_of(abs(v) / 10);
    let sign: Seq<u8> = if v < 0 {
        seq![45u8]
    } else {
        Seq::empty()
    };
    let r = render_tenths(v);
    assert forall|i: int| 0 <= i < r.len() implies r[i] != b by {
        if i < sign.len() {
        } else if i < sign.len() + d.len() {
            assert(r[i] == d[i - sign.len()]);
            assert(is_digit(d[i - sign.len()]));
        } else {
        }
    }
}

/// Decoding the text of an entry gives the entry back, for every key and
/// every number within the `i32` range.
pub proof fn lemma_entry_round_trip(e: (Seq<u8>, int, int, int))
    requires
        MIN_TENTHS <= e.1 <= MAX_TENTHS,
        MIN_TENTHS <= e.2 <= MAX_TENTHS,
        MIN_TENTHS <= e.3 <= MAX_TENTHS,
    ensures
        decoded_entry(render_entry(e)) == Some(e),
{
    let (a, b, c) = (render_tenths(e.1), render_tenths(e.2), render_tenths(e.3));
    lemma_render_has_no(e.1, 47u8);
    lemma_render_has_no(e.1, 61u8);
    lemma_render_has_no(e.2, 47u8);
    lemma_render_has_no(e.3, 47u8);
    let x1 = e.0 + seq![61u8] + a;
    let x2 = x1 + seq![47u8] + b;
    let t = x2 + seq![47u8] + c;
    assert(render_entry(e) =~= t);
    lemma_rfind_split(x2, 47u8, c);
    let p3 = x2.len() as int;
    lemma_rfind_split(x1, 47u8, b);
    let p2 = x1.len() as int;
    assert(t.take(p3).take(p2) =~= x1);
    assert(t.take(p2) =~= x1);
    lemma_rfind_split(e.0, 61u8, a);
    let p1 = e.0.len() as int;
    assert(t.take(p2) == e.0 + seq![61u8] + a);
    assert(t.subrange(p1 + 1, p2) =~= a);
    assert(t.subrange(p2 + 1, p3) =~= b);
    assert(t.skip(p3 + 1) =~= c);
    assert(t.take(p1) =~= e.0);
    lemma_tenths_round_trip(e.1);
    lemma_tenths_round_trip(e.2);
    lemma_tenths_round_trip(e.3);
}

/// The index of the last `b` in `s[..end]`.
fn last_index(s: &[u8], end: usize, b: u8) -> (r: Option<usize>)
    requires
        end <= s@.len(),
    ensures
        r.is_some() <==> rfind(s@.take(end as int), b) >= 0,
        r.is_some() ==> r.unwrap() == rfind(s@.take(end as int), b),
{
    let mut i: usize = end;
    while i > 0
        invariant
            i <= end <= s@.len(),
            rfind(s@.take(end as int), b) == rfind(s@.take(i as int), b),
        decreases i,
    {
        assert(s@.take(i as int).last() == s@[i - 1]);
        if s[i - 1] == b {
            return Some(i - 1);
        }
        assert(s@.take(i as int).drop_last() =~= s@.take(i - 1));
        i = i - 1;
    }
    None
}

/// Reads `key=min/mean/max` back into a report entry: `None` when the text
/// lacks that shape or a number does not parse.
pub fn decode_entry(t: &[u8]) -> (r: Option<ReportEntry>)
    ensures
        r.is_some() <==> decoded_entry(t@).is_some(),
        r.is_some() ==> decoded_entry(t@) == Some(entry_view(r.unwrap())),
{
    let len = t.len();
    assert(t@.take(len as int) =~= t@);
    proof {
        lemma_rfind_bounds(t@, 47u8);
    }
    let p3 = match last_index(t, len, 47u8) {
        Some(p) => p,
        None => return None,
    };
    proof {
        lemma_rfind_bounds(t@.take(p3 as int), 47u8);
    }
    let p2 = match last_index(t, p3, 47u8) {
        Some(p) => p,
        None => return None,
    };
    proof {
        lemma_rfind_bounds(t@.take(p2 as int), 61u8);
    }
    let p1 = match last_index(t, p2, 61u8) {
        Some(p) => p,
        None => return None,
    };
    assert(t@.take(p3 as int).take(p2 as int) =~= t@.take(p2 as int));
    let min = parse_temp(slice_subrange(t, p1 + 1, p2));
    let mean = parse_temp(slice_subrange(t, p2 + 1, p3));
    let max = parse_temp(slice_subrange(t, p3 + 1, len));
    assert(t@.subrange(p3 + 1, len as int) =~= t@.skip(p3 + 1));
    match (min, mean, max) {
        (Some(a), Some(b), Some(c)) => {
            let key = slice_to_vec(slice_subrange(t, 0, p1));
            assert(key@ =~= t@.take(p1 as int));
            Some(ReportEntry { key, min: a, mean: b, max: c })
        },
        _ => None,
    }
}

/// The index of the last `, ` in `s`, or `-1` when there is none.
pub open spec fn rfind_comma(s: Seq<u8>) -> int
    decreases s.len(),
{
    if s.len() < 2 {
        -1
    } else if s[s.len() - 2] == 44u8 && s[s.len() - 1] == 32u8 {
        s.len() - 2
    } else {
        rfind_comma(s.drop_last())
    }
}

/// The entries of a report's inner text, split at `, ` from the right.
pub open spec fn decoded_entries(t: Seq<u8>) -> Option<Seq<(Seq<u8>, int, int, int)>>
    decreases t.len(),
{
    let p = rfind_comma(t);
    if p < 0 || p + 2 > t.len() {
        match decoded_entry(t) {
            Some(e) => Some(seq![e]),
            None => None,
        }
    } else {
        match (decoded_entries(t.take(p)), decoded_entry(t.skip(p + 2))) {
            (Some(r), Some(e)) => Some(r.push(e)),
            _ => None,
        }
    }
}

/// The entries of a report's text `{...}`.
pub open spec fn decoded_report(t: Seq<u8>) -> Option<Seq<(Seq<u8>, int, int, int)>> {
    if t.len() >= 2 && t[0] == 123u8 && t.last() == 125u8 {
        let body = t.subrange(1, t.len() - 1);
        if body.len() == 0 {
            Some(Seq::empty())
        } else {
            decoded_entries(body)
        }
    } else {
        None
    }
}

proof fn lemma_rfind_comma_bounds(s: Seq<u8>)
    ensures
        -1 <= rfind_comma(s),
        rfind_comma(s) >= 0 ==> rfind_comma(s) + 2 <= s.len(),
    decreases s.len(),
{
    if s.len() >= 2 {
        lemma_rfind_comma_bounds(s.drop_last());
    }
}

/// The last `, ` of `x + ", " + y` is the one between them when `y` holds no
/// comma.
proof fn lemma_rfind_comma_split(x: Seq<u8>, y: Seq<u8>)
    requires
        forall|i: int| 0 <= i < y.len() ==> y[i] != 44u8,
    ensures
        rfind_comma(x + seq![44u8, 32u8] + y) == x.len(),
    decreases y.len(),
{
    let s = x + seq![44u8, 32u8] + y;
    if y.len() > 0 {
        assert(s.drop_last() =~= x + seq![44u8, 32u8] + y.drop_last());
        lemma_rfind_comma_split(x, y.drop_last());
        if y.len() == 1 {
            assert(s[s.len() - 2] == 32u8);
        } else {
            assert(s[s.len() - 2] == y[y.len() - 2]);
        }
    }
}

proof fn lemma_rfind_comma_none(s: Seq<u8>)
    requires
        forall|i: int| 0 <= i < s.len() ==> s[i] != 44u8,
    ensures
        rfind_comma(s) == -1,
    decreases s.len(),
{
    if s.len() >= 2 {
        lemma_rfind_comma_none(s.drop_last());
    }
}

/// An entry whose key holds no comma has no comma in its text.
proof fn lemma_entry_has_no_comma(e: (Seq<u8>, int, int, int))
    requires
        forall|i: int| 0 <= i < e.0.len() ==> e.0[i] != 44u8,
    ensures
        forall|i: int| 0 <= i < render_entry(e).len() ==> render_entry(e)[i] != 44u8,
        render_entry(e).len() > 0,
{
    lemma_render_has_no(e.1, 44u8);
    lemma_render_has_no(e.2, 44u8);
    lemma_render_has_no(e.3, 44u8);
    let t = render_entry(e);
    let (a, b, c) = (render_tenths(e.1), render_tenths(e.2), render_tenths(e.3));
    assert forall|i: int| 0 <= i < t.len() implies t[i] != 44u8 by {
        let k = e.0.len() as int;
        if i < k {
            assert(t[i] == e.0[i]);
        } else if i == k {
        } else if i < k + 1 + a.len() {
            assert(t[i] == a[i - k - 1]);
        } else if i == k + 1 + a.len() {
        } else if i < k + 2 + a.len() + b.len() {
            assert(t[i] == b[i - k - 2 - a.len()]);
        } else if i == k + 2 + a.len() + b.len() {
        } else {
            assert(t[i] == c[i - k - 3 - a.len() - b.len()]);
        }
    }
}

/// Every entry is readable back from its text: numbers within the `i32`
/// range, keys without a comma.
pub open spec fn decodable(r: Seq<(Seq<u8>, int, int, int)>) -> bool {
    forall|i: int|
        0 <= i < r.len() ==> {
            let e = #[trigger] r[i];
            &&& MIN_TENTHS <= e.1 <= MAX_TENTHS
            &&& MIN_TENTHS <= e.2 <= MAX_TENTHS
            &&& MIN_TENTHS <= e.3 <= MAX_TENTHS
            &&& forall|j: int| 0 <= j < e.0.len() ==> e.0[j] != 44u8
        }
}

proof fn lemma_entries_round_trip(r: Seq<(Seq<u8>, int, int, int)>)
    requires
        r.len() >= 1,
        decodable(r),
    ensures
        decoded_entries(render_entries(r)) == Some(r),
        render_entries(r).len() > 0,
    decreases r.len(),
{
    let e = r.last();
    lemma_entry_has_no_comma(e);
    lemma_entry_round_trip(e);
    if r.len() == 1 {
        lemma_rfind_comma_none(render_entry(e));
        assert(seq![e] =~= r);
    } else {
        let x = render_entries(r.drop_last());
        let t = x + seq![44u8, 32u8] + render_entry(e);
        assert(render_entries(r) == t);
        lemma_rfind_comma_split(x, render_entry(e));
        assert(t.take(x.len() as int) =~= x);
        assert(t.skip(x.len() + 2int) =~= render_entry(e));
        lemma_entries_round_trip(r.drop_last());
        assert(r.drop_last().push(e) =~= r);
    }
}

/// Decoding the text of a report gives its entries back, when every number is
/// within the `i32` range and no key holds a comma.
pub proof fn lemma_report_round_trip(r: Seq<(Seq<u8>, int, int, int)>)
    requires
        decodable(r),
    ensures
        decoded_report(render_report(r)) == Some(r),
{
    let t = render_report(r);
    assert(t.subrange(1, t.len() - 1) =~= render_entries(r));
    if r.len() == 0 {
        assert(r =~= Seq::<(Seq<u8>, int, int, int)>::empty());
    } else {
        lemma_entries_round_trip(r);
    }
}

/// The index of the last `, ` in `s[..end]`.
fn last_comma(s: &[u8], end: usize) -> (r: Option<usize>)
    requires
        end <= s@.len(),
    ensures
        r.is_some() <==> rfind_comma(s@.take(end as int)) >= 0,
        r.is_some() ==> r.unwrap() == rfind_comma(s@.take(end as int)),
{
    let mut i: usize = end;
    while i >= 2
        invariant
            i <= end <= s@.len(),
            rfind_comma(s@.take(end as int)) == rfind_comma(s@.take(i as int)),
        decreases i,
    {
        if s[i - 2] == 44u8 && s[i - 1] == 32u8 {
            return Some(i - 2);
        }
        assert(s@.take(i as int).drop_last() =~= s@.take(i - 1));
        i = i - 1;
    }
    None
}

fn decode_entries(t: &[u8], end: usize) -> (r: Option<Vec<ReportEntry>>)
    requires
        end <= t@.len(),
    ensures
        r.is_some() <==> decoded_entries(t@.take(end as int)).is_some(),
        r.is_some() ==> decoded_entries(t@.take(end as int)) == Some(report_view(r.unwrap()@)),
    decreases end,
{
    let ghost s = t@.take(end as int);
    proof {
        lemma_rfind_comma_bounds(s);
    }
    match last_comma(t, end) {
        None => {
            let piece = slice_subrange(t, 0, end);
            match decode_entry(piece) {
                Some(e) => {
                    let mut v: Vec<ReportEntry> = Vec::new();
                    v.push(e);
                    assert(report_view(v@) =~= seq![entry_view(e)]);
                    Some(v)
                },
                None => None,
            }
        },
        Some(p) => {
            assert(s.take(p as int) =~= t@.take(p as int));
            let piece = slice_subrange(t, p + 2, end);
            assert(piece@ =~= s.skip(p + 2));
            match decode_entries(t, p) {
                Some(mut v) => match decode_entry(piece) {
                    Some(e) => {
                        let ghost before = v@;
                        v.push(e);
                        assert(report_view(v@) =~= report_view(before).push(entry_view(e)));
                        Some(v)
                    },
                    None => None,
                },
                None => None,
            }
        },
    }
}

/// Reads a report's text `{key=min/mean/max, ...}` back into its entries:
/// `None` when the text lacks that shape.
pub fn decode_report(t: &[u8]) -> (r: Option<Vec<ReportEntry>>)
    ensures
        r.is_some() <==> decoded_report(t@).is_some(),
        r.is_some() ==> decoded_report(t@) == Some(report_view(r.unwrap()@)),
{
    let len = t.len();
    if len < 2 || t[0] != 123u8 || t[len - 1] != 125u8 {
        return None;
    }
    let body = slice_subrange(t, 1, len - 1);
    assert(body@.take(body@.len() as int) =~= body@);
    if body.len() == 0 {
        let v: Vec<ReportEntry> = Vec::new();
        assert(report_view(v@) =~= Seq::<(Seq<u8>, int, int, int)>::empty());
        return Some(v);
    }
    decode_entries(body, body.len())
}

} // verus!

//! Fixed-point numbers with one fractional digit, held as tenths.
use vstd::prelude::*;

verus! {

/// Largest reading, in tenths: `i32::MAX`.
pub const MAX_TENTHS: i32 = 2147483647;

/// Smallest reading, in tenths: `i32::MIN`.
pub const MIN_TENTHS: i32 = -2147483648;

pub open spec fn is_digit(b: u8) -> bool {
    48 <= b <= 57
}

pub open spec fn digit_value(b: u8) -> int {
    b as int - 48
}

pub open spec fn all_digits(s: Seq<u8>) -> bool {
    forall|i: int| 0 <= i < s.len() ==> is_digit(#[trigger] s[i])
}

/// The number that a run of decimal digits denotes.
pub open spec fn digits_value(s: Seq<u8>) -> int
    decreases s.len(),
{
    if s.len() == 0 {
        0
    } else {
        digits_value(s.drop_last()) * 10 + digit_value(s.last())
    }
}

/// `digits.d` without a sign, in tenths: one or more digits, a dot, one digit.
pub open spec fn unsigned_tenths(s: Seq<u8>) -> Option<int> {
    if s.len() >= 3 && s[s.len() - 2] == 46u8 && all_digits(s.take(s.len() - 2))
        && is_digit(s.last()) {
        Some(digits_value(s.take(s.len() - 2)) * 10 + digit_value(s.last()))
    } else {
        None
    }
}

/// The value in tenths of an optional `-` followed by `digits.d`.
pub open spec fn tenths_value(s: Seq<u8>) -> Option<int> {
    if s.len() > 0 && s[0] == 45u8 {
        match unsigned_tenths(s.drop_first()) {
            Some(v) => Some(-v),
            None => None,
        }
    } else {
        unsigned_tenths(s)
    }
}

/// What the reading parser returns: the value when the text is well formed
/// and its value fits an `i32` (`MIN_TENTHS ..= MAX_TENTHS`).
pub open spec fn parsed_tenths(s: Seq<u8>) -> Option<i32> {
    match tenths_value(s) {
        Some(v) => if MIN_TENTHS <= v <= MAX_TENTHS {
            Some(v as i32)
        } else {
            None
        },
        None => None,
    }
}

/// Decimal digits of `n`, most significant first, without leading zeros.
pub open spec fn digits_of(n: nat) -> Seq<u8>
    decreases n,
{
    if n < 10 {
        seq![(48 + n) as u8]
    } else {
        digits_of(n / 10).push((48 + n % 10) as u8)
    }
}

pub open spec fn abs(v: int) -> nat {
    if v < 0 {
        (-v) as nat
    } else {
        v as nat
    }
}

/// The text of a value in tenths: an optional `-`, the whole part, a dot and
/// the tenths digit (`-34` is `-3.4`, `5` is `0.5`).
pub open spec fn render_tenths(v: int) -> Seq<u8> {
    let sign: Seq<u8> = if v < 0 {
        seq![45u8]
    } else {
        Seq::empty()
    };
    sign + digits_of(abs(v) / 10) + seq![46u8, (48 + abs(v) % 10) as u8]
}

proof fn lemma_digits_value_bounds(s: Seq<u8>, i: int)
    requires
        all_digits(s),
        0 <= i <= s.len(),
    ensures
        0 <= digits_value(s.take(i)) <= digits_value(s),
    decreases s.len(),
{
    if s.len() > 0 {
        if i == s.len() {
            assert(s.take(i) =~= s);
            lemma_digits_value_bounds(s.drop_last(), s.len() - 1);
            assert(s.drop_last().take(s.len() - 1) =~= s.drop_last());
        } else {
            lemma_digits_value_bounds(s.drop_last(), i);
            assert(s.drop_last().take(i) =~= s.take(i));
            lemma_digits_value_bounds(s.drop_last(), s.len() - 1);
            assert(s.drop_last().take(s.len() - 1) =~= s.drop_last());
        }
    } else {
        assert(s.take(i) =~= s);
    }
}

/// Parses a reading such as `-3.4` into tenths (`-34`). The text must be an
/// optional `-`, one or more digits, a dot and exactly one digit; anything
/// else, or a value outside the `i32` range, gives `None`.
pub fn parse_temp(bytes: &[u8]) -> (r: Option<i32>)
    ensures
        r == parsed_tenths(bytes@),
{
    let len = bytes.len();
    let neg = len > 0 && bytes[0] == 45u8;
    let start: usize = if neg {
        1
    } else {
        0
    };
    let ghost body = if neg {
        bytes@.drop_first()
    } else {
        bytes@
    };
    assert(body =~= bytes@.subrange(start as int, len as int));
    if len < start + 3 {
        return None;
    }
    let dot: usize = len - 2;
    let last = bytes[len - 1];
    assert(body[body.len() - 2] == bytes@[dot as int]);
    assert(body.last() == last);
    if bytes[dot] != 46u8 || !(48u8 <= last && last <= 57u8) {
        return None;
    }
    let ghost whole = body.take(body.len() - 2);
    assert(whole =~= bytes@.subrange(start as int, dot as int));
    let mut acc: u64 = 0;
    let mut i: usize = start;
    while i < dot
        invariant
            len == bytes@.len(),
            start <= i <= dot,
            dot == len - 2,
            whole == bytes@.subrange(start as int, dot as int),
            body == bytes@.subrange(start as int, len as int),
            body == (if neg {
                bytes@.drop_first()
            } else {
                bytes@
            }),
            neg == (len > 0 && bytes@[0] == 45u8),
            whole == body.take(body.len() - 2),
            body.len() >= 3,
            body[body.len() - 2] == 46u8,
            is_digit(body.last()),
            all_digits(whole.take(i - start)),
            acc == digits_value(whole.take(i - start)),
            acc <= 2147483648,
        decreases dot - i,
    {
        let b = bytes[i];
        assert(whole[i - start] == b);
        if !(48u8 <= b && b <= 57u8) {
            assert(!all_digits(whole));
            return None;
        }
        proof {
            assert(whole.take(i - start + 1).drop_last() =~= whole.take(i - start));
            assert(whole.take(i - start + 1).last() == b);
        }
        acc = acc * 10 + (b - 48u8) as u64;
        i = i + 1;
        assert(all_digits(whole.take(i - start)));
        if acc > 2147483648u64 {
            proof {
                if all_digits(whole) {
                    lemma_digits_value_bounds(whole, i - start);
                }
            }
            return None;
        }
    }
    assert(whole.take(i - start) =~= whole);
    let v: u64 = acc * 10 + (last - 48u8) as u64;
    if neg {
        if v > 2147483648u64 {
            return None;
        }
        Some((0i64 - v as i64) as i32)
    } else {
        if v > 2147483647u64 {
            return None;
        }
        Some(v as i32)
    }
}

/// The digits of `n` are at least one, all decimal, and denote `n`.
pub proof fn lemma_digits_of(n: nat)
    ensures
        digits_of(n).len() >= 1,
        all_digits(digits_of(n)),
        digits_value(digits_of(n)) == n,
    decreases n,
{
    if n >= 10 {
        lemma_digits_of(n / 10);
        let d = digits_of(n);
        assert(d.drop_last() =~= digits_of(n / 10));
    } else {
        assert(digits_of(n).drop_last() =~= Seq::<u8>::empty());
        assert(digits_value(Seq::<u8>::empty()) == 0);
    }
}

/// Reading back what `write_tenths` writes gives the value that was written.
pub proof fn lemma_tenths_round_trip(v: int)
    requires
        MIN_TENTHS <= v <= MAX_TENTHS,
    ensures
        parsed_tenths(render_tenths(v)) == Some(v as i32),
{
    let a = abs(v);
    let w = digits_of(a / 10);
    lemma_digits_of(a / 10);
    let u = w + seq![46u8, (48 + a % 10) as u8];
    assert(u.take(u.len() - 2) =~= w);
    assert(unsigned_tenths(u) == Some(a as int));
    let s = render_tenths(v);
    if v < 0 {
        assert(s.drop_first() =~= u);
    } else {
        assert(s =~= u);
        assert(is_digit(w[0]));
    }
}

fn push_digits(out: &mut Vec<u8>, n: u32)
    ensures
        final(out)@ == old(out)@ + digits_of(n as nat),
    decreases n,
{
    if n < 10 {
        out.push((48 + n) as u8);
        assert(final(out)@ =~= old(out)@ + digits_of(n as nat));
    } else {
        push_digits(out, n / 10);
        out.push((48 + n % 10) as u8);
        assert(final(out)@ =~= old(out)@ + digits_of(n as nat));
    }
}

/// Appends the text of `v` tenths to `out`, e.g. `-3.4` for `-34`.
pub fn write_tenths(out: &mut Vec<u8>, v: i32)
    ensures
        final(out)@ == old(out)@ + render_tenths(v as int),
{
    let mag: u32 = if v < 0 {
        (0i64 - v as i64) as u32
    } else {
        v as u32
    };
    assert(mag == abs(v as int));
    if v < 0 {
        out.push(45u8);
    }
    push_digits(out, mag / 10);
    out.push(46u8);
    out.push((48 + mag % 10) as u8);
    assert(final(out)@ =~= old(out)@ + render_tenths(v as int));
}

} // verus!

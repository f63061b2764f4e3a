//! Decimal text to tenths and back. A value is written as an optional sign,
//! digits, and optionally a point and more digits; at least one digit must
//! stand on one side of the point. It is held as a whole number of tenths:
//! a second fractional digit of 5 or more rounds the magnitude up, later
//! digits are only checked to be digits.

use vstd::prelude::*;
use vstd::slice::slice_subrange;
use crate::text::first_index;
use crate::text::lemma_first_index_unique;

verus! {

pub const POINT: u8 = 46;

pub const MINUS: u8 = 45;

pub const PLUS: u8 = 43;

pub const ZERO: u8 = 48;

pub const NINE: u8 = 57;

pub const FIVE: u8 = 53;

/// Whether `b` is one of `0` to `9`.
pub open spec fn is_digit(b: u8) -> bool {
    ZERO <= b <= NINE
}

/// Whether `s` holds digits only.
pub open spec fn all_digits(s: Seq<u8>) -> bool {
    forall|i: int| 0 <= i < s.len() ==> is_digit(#[trigger] s[i])
}

/// The number that a run of digits writes; 0 for the empty run.
pub open spec fn digits_value(s: Seq<u8>) -> nat
    decreases s.len(),
{
    if s.len() == 0 {
        0
    } else {
        digits_value(s.drop_last()) * 10 + (s.last() - ZERO) as nat
    }
}

/// The digits after the first point of `body`; none if it has no point.
pub open spec fn fraction_of(body: Seq<u8>) -> Seq<u8> {
    let point = first_index(body, POINT);
    if point < body.len() {
        body.skip(point + 1)
    } else {
        Seq::empty()
    }
}

/// What the fractional digits add to the tenths: the first digit, and one
/// more if the second digit is 5 or above.
pub open spec fn fraction_tenths(fraction: Seq<u8>) -> nat {
    (if fraction.len() > 0 {
        (fraction[0] - ZERO) as nat
    } else {
        0nat
    }) + (if fraction.len() > 1 && fraction[1] >= FIVE {
        1nat
    } else {
        0nat
    })
}

/// The tenths that an unsigned decimal writes, or `None` if it is not one.
pub open spec fn magnitude(body: Seq<u8>) -> Option<nat> {
    let whole = body.take(first_index(body, POINT));
    let fraction = fraction_of(body);
    if all_digits(whole) && all_digits(fraction) && whole.len() + fraction.len() > 0 {
        Some(digits_value(whole) * 10 + fraction_tenths(fraction))
    } else {
        None
    }
}

/// The tenths that a decimal writes, or `None` if the text is not a decimal.
pub open spec fn decimal_tenths(text: Seq<u8>) -> Option<int> {
    if text.len() > 0 && text[0] == MINUS {
        match magnitude(text.skip(1)) {
            Some(m) => Some(-(m as int)),
            None => None,
        }
    } else if text.len() > 0 && text[0] == PLUS {
        match magnitude(text.skip(1)) {
            Some(m) => Some(m as int),
            None => None,
        }
    } else {
        match magnitude(text) {
            Some(m) => Some(m as int),
            None => None,
        }
    }
}

/// The value that parsing gives: the tenths of a decimal that fit an `i64`.
pub open spec fn parsed_value(text: Seq<u8>) -> Option<i64> {
    match decimal_tenths(text) {
        Some(v) => if i64::MIN <= v <= i64::MAX {
            Some(v as i64)
        } else {
            None
        },
        None => None,
    }
}

/// The largest whole part whose tenths can still fit an `i64`.
const WHOLE_CAP: u64 = 922_337_203_685_477_580;

/// Reads the digits of `s[from..]` up to the first byte that is no digit.
/// Returns where it stopped, and the number read unless that number
/// exceeds `WHOLE_CAP`.
fn scan_digits(s: &[u8], from: usize) -> (r: (usize, Option<u64>))
    requires
        from <= s.len(),
    ensures
        from <= r.0 <= s.len(),
        all_digits(s@.subrange(from as int, r.0 as int)),
        r.0 < s.len() ==> !is_digit(s@[r.0 as int]),
        r.1 matches Some(v) ==> v == digits_value(s@.subrange(from as int, r.0 as int)) && v
            <= WHOLE_CAP,
        r.1 is None ==> digits_value(s@.subrange(from as int, r.0 as int)) > WHOLE_CAP,
{
    let mut i: usize = from;
    let mut acc: u64 = 0;
    let mut over: bool = false;
    while i < s.len() && ZERO <= s[i] && s[i] <= NINE
        invariant
            from <= i <= s.len(),
            all_digits(s@.subrange(from as int, i as int)),
            !over ==> acc == digits_value(s@.subrange(from as int, i as int)) && acc
                <= WHOLE_CAP * 10 + 9,
            over ==> digits_value(s@.subrange(from as int, i as int)) > WHOLE_CAP,
        decreases s.len() - i,
    {
        let ghost before = s@.subrange(from as int, i as int);
        let ghost after = s@.subrange(from as int, i + 1);
        proof {
            assert(after.drop_last() =~= before);
            assert(after.last() == s@[i as int]);
            assert forall|j: int| 0 <= j < after.len() implies is_digit(#[trigger] after[j]) by {
                if j < before.len() {
                    assert(after[j] == before[j]);
                }
            }
        }
        if over || acc > WHOLE_CAP {
            over = true;
        } else {
            acc = acc * 10 + (s[i] - ZERO) as u64;
        }
        i += 1;
    }
    if over || acc > WHOLE_CAP {
        (i, None)
    } else {
        (i, Some(acc))
    }
}

/// Parses the tenths of an unsigned decimal, as long as they do not exceed
/// `2^63`.
fn parse_magnitude(body: &[u8]) -> (r: Option<u64>)
    ensures
        r matches Some(m) ==> magnitude(body@) == Some(m as nat) && m <= 0x8000_0000_0000_0000,
        r is None ==> (magnitude(body@) matches Some(m) ==> m > 0x8000_0000_0000_0000),
{
    let (point, whole) = scan_digits(body, 0);
    let ghost whole_digits = body@.subrange(0, point as int);
    proof {
        assert forall|i: int| 0 <= i < point implies body@[i] != POINT by {
            assert(is_digit(whole_digits[i]));
        }
    }
    if point < body.len() && body[point] != POINT {
        proof {
            let p = first_index(body@, POINT);
            crate::text::lemma_first_index(body@, POINT);
            assert(p > point);
            assert(body@.take(p)[point as int] == body@[point as int]);
        }
        return None;
    }
    proof {
        lemma_first_index_unique(body@, POINT, point as int);
        assert(body@.take(point as int) =~= whole_digits);
    }
    let mut tenths: u64 = 0;
    let mut fraction_len: usize = 0;
    if point < body.len() {
        let (end, _rest) = scan_digits(body, point + 1);
        proof {
            assert(fraction_of(body@).take(end - point - 1) =~= body@.subrange(
                point + 1,
                end as int,
            ));
        }
        if end < body.len() {
            proof {
                assert(fraction_of(body@)[end - point - 1] == body@[end as int]);
            }
            return None;
        }
        proof {
            assert(fraction_of(body@) =~= body@.subrange(point + 1, end as int));
        }
        fraction_len = end - point - 1;
        if fraction_len > 0 {
            tenths = (body[point + 1] - ZERO) as u64;
        }
        if fraction_len > 1 && body[point + 2] >= FIVE {
            tenths = tenths + 1;
        }
    }
    assert(tenths == fraction_tenths(fraction_of(body@)));
    if point == 0 && fraction_len == 0 {
        return None;
    }
    match whole {
        Some(w) => {
            let m = w * 10 + tenths;
            if m <= 0x8000_0000_0000_0000 {
                Some(m)
            } else {
                None
            }
        },
        None => None,
    }
}

/// Parses a decimal into tenths. `None` for text that is not a decimal, and
/// for one whose tenths do not fit an `i64`.
pub fn parse_decimal(text: &[u8]) -> (value: Option<i64>)
    ensures
        value == parsed_value(text@),
{
    let signed = text.len() > 0 && (text[0] == MINUS || text[0] == PLUS);
    let negative = signed && text[0] == MINUS;
    let body = if signed {
        slice_subrange(text, 1, text.len())
    } else {
        text
    };
    proof {
        if signed {
            assert(body@ =~= text@.skip(1));
        }
    }
    match parse_magnitude(body) {
        Some(m) => {
            if negative {
                if m == 0x8000_0000_0000_0000 {
                    Some(i64::MIN)
                } else {
                    Some(-(m as i64))
                }
            } else if m <= 0x7fff_ffff_ffff_ffff {
                Some(m as i64)
            } else {
                None
            }
        },
        None => None,
    }
}

/// The byte that writes the digit `d`.
pub open spec fn digit_byte(d: nat) -> u8 {
    (ZERO + d) as u8
}

/// The digits that write `n`, without leading zeros; `0` for 0.
pub open spec fn nat_text(n: nat) -> Seq<u8>
    decreases n,
{
    if n < 10 {
        seq![digit_byte(n)]
    } else {
        nat_text(n / 10).push(digit_byte(n % 10))
    }
}

/// The text of a number of tenths: a `-` below zero, the whole part, a
/// point, and one digit.
pub open spec fn tenths_text(v: int) -> Seq<u8> {
    let m = (if v < 0 {
        -v
    } else {
        v
    }) as nat;
    (if v < 0 {
        seq![MINUS]
    } else {
        Seq::empty()
    }) + nat_text(m / 10) + seq![POINT, digit_byte(m % 10)]
}

/// Appends the digits of `n` to `out`.
pub fn push_nat(out: &mut Vec<u8>, n: u64)
    ensures
        final(out)@ == old(out)@ + nat_text(n as nat),
    decreases n,
{
    if n >= 10 {
        push_nat(out, n / 10);
    }
    out.push(ZERO + (n % 10) as u8);
    proof {
        if n >= 10 {
            assert(final(out)@ =~= old(out)@ + nat_text(n as nat));
        } else {
            assert(final(out)@ =~= old(out)@ + nat_text(n as nat));
        }
    }
}

/// Appends the text of `v` tenths to `out`.
pub fn push_tenths(out: &mut Vec<u8>, v: i64)
    ensures
        final(out)@ == old(out)@ + tenths_text(v as int),
{
    let m: u64 = if v < 0 {
        out.push(MINUS);
        (-(v + 1)) as u64 + 1
    } else {
        v as u64
    };
    push_nat(out, m / 10);
    out.push(POINT);
    out.push(ZERO + (m % 10) as u8);
    proof {
        assert(final(out)@ =~= old(out)@ + tenths_text(v as int));
    }
}

/// The text of `v` tenths.
pub fn format_tenths(v: i64) -> (text: Vec<u8>)
    ensures
        text@ == tenths_text(v as int),
{
    let mut text: Vec<u8> = Vec::new();
    push_tenths(&mut text, v);
    proof {
        assert(Seq::<u8>::empty() + tenths_text(v as int) =~= tenths_text(v as int));
    }
    text
}

/// The digits of a number are digits, and write that number.
pub proof fn lemma_nat_text(n: nat)
    ensures
        nat_text(n).len() > 0,
        all_digits(nat_text(n)),
        digits_value(nat_text(n)) == n,
    decreases n,
{
    if n < 10 {
        let s = nat_text(n);
        assert(s.drop_last() =~= Seq::<u8>::empty());
        assert(digits_value(s.drop_last()) == 0);
    } else {
        lemma_nat_text(n / 10);
        let s = nat_text(n);
        let t = nat_text(n / 10);
        assert(s.drop_last() =~= t);
        assert(s.last() == digit_byte(n % 10));
        assert forall|i: int| 0 <= i < s.len() implies is_digit(#[trigger] s[i]) by {
            if i < t.len() {
                assert(s[i] == t[i]);
            }
        }
    }
}

/// Writing a number of tenths and reading the text again gives the number.
pub proof fn lemma_text_round_trip(v: int)
    ensures
        decimal_tenths(tenths_text(v)) == Some(v),
{
    let m = (if v < 0 {
        -v
    } else {
        v
    }) as nat;
    let whole = nat_text(m / 10);
    let body = whole + seq![POINT, digit_byte(m % 10)];
    lemma_nat_text(m / 10);
    assert forall|i: int| 0 <= i < whole.len() implies body[i] != POINT by {
        assert(is_digit(whole[i]));
        assert(body[i] == whole[i]);
    }
    assert(body[whole.len() as int] == POINT);
    lemma_first_index_unique(body, POINT, whole.len() as int);
    assert(body.take(whole.len() as int) =~= whole);
    assert(fraction_of(body) =~= seq![digit_byte(m % 10)]);
    assert(magnitude(body) == Some(m));
    let text = tenths_text(v);
    if v < 0 {
        assert(text =~= seq![MINUS] + body);
        assert(text.skip(1) =~= body);
    } else {
        assert(text =~= body);
        assert(is_digit(whole[0]));
        assert(text[0] == whole[0]);
    }
}

} // verus!

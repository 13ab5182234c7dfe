//! Scientific notation: a mantissa, the letter `e`, and an exponent to base
//! ten, as in `1.5e-7`.

use crate::decimal::decimal_value;
use crate::decimal::digit_value;
use crate::text::all_digits;
use crate::text::digit;
use crate::text::find;
use crate::text::first_index;
use crate::text::from_chars;
use crate::text::is_digit;
use crate::text::to_chars;
use crate::tokenizer::is_exponent;
use vstd::prelude::*;

verus! {

/// The integer that the text of an exponent denotes: its digits, taken as
/// negative behind a `-`.
pub open spec fn exponent_value(s: Seq<char>) -> int {
    if s.len() > 0 && s[0] == '-' {
        -(decimal_value(s.skip(1)) as int)
    } else if s.len() > 0 && s[0] == '+' {
        decimal_value(s.skip(1)) as int
    } else {
        decimal_value(s) as int
    }
}

/// The two parts of a number in scientific notation: the text before the
/// first `e` and the integer that stands behind it, up to a second `e` if
/// there is one. There are none where the text holds no `e`, or where what
/// stands behind it is no integer (an optional sign and one or more digits)
/// or none that an `i32` holds.
pub open spec fn scientific_parts(s: Seq<char>) -> Option<(Seq<char>, int)> {
    let first = first_index(s, 'e');
    let rest = s.skip(first + 1);
    let exponent = rest.take(first_index(rest, 'e'));
    if first < s.len() && is_exponent(exponent) && i32::MIN <= exponent_value(exponent)
        <= i32::MAX {
        Some((s.take(first), exponent_value(exponent)))
    } else {
        None
    }
}

/// A number does not get smaller when digits are written behind it.
proof fn lemma_decimal_value_grows(s: Seq<char>, k: int)
    requires
        0 <= k <= s.len(),
    ensures
        decimal_value(s.take(k)) <= decimal_value(s),
    decreases s.len() - k,
{
    if k < s.len() {
        lemma_decimal_value_grows(s.drop_last(), k);
        assert(s.drop_last().take(k) =~= s.take(k));
    } else {
        assert(s.take(k) =~= s);
    }
}

/// The number that a digit stands for.
fn value_of_digit(c: char) -> (d: i64)
    requires
        is_digit(c),
    ensures
        d == digit_value(c),
        0 <= d <= 9,
{
    (c as u32 - '0' as u32) as i64
}

/// Reads `chars[from..to]` as an integer: an optional sign, then digits.
fn parse_exponent(chars: &Vec<char>, from: usize, to: usize) -> (r: Option<i32>)
    requires
        from <= to <= chars.len(),
    ensures
        ({
            let s = chars@.subrange(from as int, to as int);
            match r {
                Some(v) => is_exponent(s) && v == exponent_value(s),
                None => !(is_exponent(s) && i32::MIN <= exponent_value(s) <= i32::MAX),
            }
        }),
{
    let ghost s = chars@.subrange(from as int, to as int);
    let mut i: usize = from;
    let mut negative = false;
    if i < to && (chars[i] == '+' || chars[i] == '-') {
        negative = chars[i] == '-';
        i += 1;
    }
    let start = i;
    let ghost digits = chars@.subrange(start as int, to as int);
    proof {
        if start > from {
            assert(s[0] == chars@[from as int]);
            assert(digits =~= s.skip(1));
        } else {
            assert(digits =~= s);
            if s.len() > 0 {
                assert(s[0] == chars@[from as int]);
            }
        }
    }
    assert(is_exponent(s) == (digits.len() > 0 && all_digits(digits)));
    assert(exponent_value(s) == if negative {
        -(decimal_value(digits) as int)
    } else {
        decimal_value(digits) as int
    });
    if i == to {
        return None;
    }
    let mut acc: i64 = 0;
    assert(digits.take(0) =~= Seq::empty());
    while i < to
        invariant
            from <= start <= i <= to <= chars.len(),
            digits == chars@.subrange(start as int, to as int),
            s == chars@.subrange(from as int, to as int),
            is_exponent(s) == (digits.len() > 0 && all_digits(digits)),
            exponent_value(s) == if negative {
                -(decimal_value(digits) as int)
            } else {
                decimal_value(digits) as int
            },
            forall|j: int| 0 <= j < i - start ==> is_digit(#[trigger] digits[j]),
            acc == decimal_value(digits.take(i - start)),
            0 <= acc <= 0x8000_0000,
        decreases to - i,
    {
        let c = chars[i];
        assert(digits[i - start] == c);
        if !digit(c) {
            assert(!is_digit(digits[i - start]));
            return None;
        }
        let d = value_of_digit(c);
        acc = acc * 10 + d;
        proof {
            let next = digits.take(i - start + 1);
            assert(next.drop_last() =~= digits.take(i - start));
            assert(next.last() == c);
        }
        if acc > 0x8000_0000 {
            proof {
                lemma_decimal_value_grows(digits, i - start + 1);
            }
            return None;
        }
        i += 1;
    }
    assert(digits.take(i - start) =~= digits);
    if negative {
        Some((-acc) as i32)
    } else if acc > 0x7fff_ffff {
        None
    } else {
        Some(acc as i32)
    }
}

/// Takes a number in scientific notation apart: gives the text of its
/// mantissa and its exponent, or `None` for a text that is not in that
/// notation.
pub fn split_scientific(text: &str) -> (r: Option<(String, i32)>)
    ensures
        match r {
            Some((mantissa, exponent)) => scientific_parts(text@) == Some(
                (mantissa@, exponent as int),
            ),
            None => scientific_parts(text@) is None,
        },
{
    let chars = to_chars(text);
    let len = chars.len();
    let first = find(&chars, 'e');
    if first >= len {
        return None;
    }
    let mut second: usize = first + 1;
    while second < len && chars[second] != 'e'
        invariant
            first < second <= len,
            len == chars.len(),
            forall|j: int| first < j < second ==> #[trigger] chars@[j] != 'e',
        decreases len - second,
    {
        second += 1;
    }
    proof {
        let rest = chars@.skip(first + 1);
        assert forall|j: int| 0 <= j < second - first - 1 implies #[trigger] rest[j] != 'e' by {
            assert(chars@[j + first + 1] != 'e');
        }
        crate::text::lemma_first_index(rest, 'e', second - first - 1);
        assert(rest.take(second - first - 1) =~= chars@.subrange(first + 1, second as int));
        assert(chars@.take(first as int) =~= chars@.subrange(0, first as int));
    }
    match parse_exponent(&chars, first + 1, second) {
        Some(exponent) => Some((from_chars(&chars, 0, first), exponent)),
        None => None,
    }
}

} // verus!

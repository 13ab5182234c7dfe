//! The exact decimal formatter: plain decimal text for a number, however
//! large or small, with nothing rounded away and no exponent in it.

use crate::bigint::from_i32;
use crate::bigint::parse_decimal;
use crate::bigint::power;
use crate::bigint::product;
use crate::bigint::to_decimal;
use crate::decimal::decimal_text;
use crate::decimal::decimal_value;
use crate::decimal::lemma_pow10_is_pow;
use crate::decimal::lemma_pow10_positive;
use crate::decimal::pow10;
use crate::decimal::scale;
use crate::decimal::unscaled_digits;
use crate::decimal::zeros;
use crate::double::Double;
use crate::exactness::lemma_full_decimal_has_no_exponent;
use crate::text::all_digits;
use crate::text::digit;
use crate::text::find;
use crate::text::first_index;
use crate::text::from_chars;
use crate::text::is_digit;
use crate::text::is_first_index;
use crate::text::lemma_first_index;
use crate::text::lemma_first_index_exists;
use crate::text::to_chars;
use vstd::pervasive::unreached;
use vstd::prelude::*;

verus! {

/// A text without the zeros at its end.
pub open spec fn without_trailing_zeros(s: Seq<char>) -> Seq<char>
    decreases s.len(),
{
    if s.len() > 0 && s.last() == '0' {
        without_trailing_zeros(s.drop_last())
    } else {
        s
    }
}

/// A text without the decimal point at its end, if it ends with one.
pub open spec fn without_trailing_point(s: Seq<char>) -> Seq<char> {
    if s.len() > 0 && s.last() == '.' {
        s.drop_last()
    } else {
        s
    }
}

/// What trimming leaves of a text. One that holds a decimal point loses the
/// zeros at its end, and then the point if it is left at the end; a text
/// without a point stays as it is.
pub open spec fn trimmed(s: Seq<char>) -> Seq<char> {
    if s.contains('.') {
        without_trailing_point(without_trailing_zeros(s))
    } else {
        s
    }
}

/// Trims the characters in place.
fn trim(chars: &mut Vec<char>)
    ensures
        final(chars)@ == trimmed(old(chars)@),
{
    let point = find(chars, '.');
    if point < chars.len() {
        while chars.len() > 0 && chars[chars.len() - 1] == '0'
            invariant
                without_trailing_zeros(chars@) == without_trailing_zeros(old(chars)@),
            decreases chars.len(),
        {
            chars.pop();
        }
        if chars.len() > 0 && chars[chars.len() - 1] == '.' {
            chars.pop();
        }
    }
}

/// Removes what a decimal text carries at its end without need: the zeros
/// behind the last digit of its fraction that counts, and the decimal point
/// if no fraction is left. A text without a decimal point is not touched.
pub fn trim_trailing_zeros(s: &mut String)
    ensures
        final(s)@ == trimmed(old(s)@),
{
    let mut chars = to_chars(s.as_str());
    trim(&mut chars);
    *s = from_chars(&chars, 0, chars.len());
    assert(chars@.subrange(0, chars.len() as int) =~= chars@);
}

/// Formats a number from its plain decimal conversion, which holds no
/// exponent: the conversion, trimmed.
pub fn format_regular_number(plain: &str) -> (out: String)
    ensures
        out@ == trimmed(plain@),
{
    let mut chars = to_chars(plain);
    trim(&mut chars);
    assert(chars@.subrange(0, chars.len() as int) =~= chars@);
    from_chars(&chars, 0, chars.len())
}

/// Formats the digits of a mantissa raised by a power of ten: the decimal
/// digits of `mantissa × 10^exp`, computed on integers of any size.
pub fn format_large_number(mantissa_str: &str, exp: i32) -> (out: String)
    requires
        mantissa_str@.len() > 0,
        all_digits(mantissa_str@),
        exp >= 0,
    ensures
        out@ == decimal_text(decimal_value(mantissa_str@) * pow10(exp as nat)),
{
    match parse_decimal(mantissa_str) {
        Some(base) => {
            let multiplier = power(from_i32(10), exp as u32);
            let result = product(base, multiplier);
            proof {
                lemma_pow10_is_pow(exp as nat);
                lemma_pow10_positive(exp as nat);
                assert(decimal_value(mantissa_str@) * pow10(exp as nat) >= 0) by (nonlinear_arith)
                    requires
                        pow10(exp as nat) > 0,
                ;
            }
            to_decimal(&result)
        },
        None => unreached(),
    }
}

/// The digits `digits` with a decimal point placed `shift` digits from
/// their right end. Where there are not that many digits, the text begins
/// with `0.` and zeros fill the places between the point and the digits.
pub open spec fn with_point(digits: Seq<char>, shift: nat) -> Seq<char> {
    if shift >= digits.len() {
        seq!['0', '.'] + zeros((shift - digits.len()) as nat) + digits
    } else {
        digits.take(digits.len() - shift).push('.') + digits.skip(digits.len() - shift)
    }
}

/// Formats the digits of a mantissa lowered by a power of ten: the decimal
/// digits of the mantissa, without leading zeros, with the decimal point
/// placed `-exp` digits from their right end.
pub fn format_small_number(mantissa_str: &str, exp: i32) -> (out: String)
    requires
        mantissa_str@.len() > 0,
        all_digits(mantissa_str@),
        exp < 0,
    ensures
        out@ == with_point(decimal_text(decimal_value(mantissa_str@)), (-exp) as nat),
{
    match parse_decimal(mantissa_str) {
        Some(base) => {
            let result = to_decimal(&base);
            let digits = to_chars(result.as_str());
            let shift: u64 = (-(exp as i64)) as u64;
            let len = digits.len();
            let mut out: Vec<char> = Vec::new();
            if shift >= len as u64 {
                let zeros_needed: u64 = shift - len as u64;
                out.push('0');
                out.push('.');
                let mut k: u64 = 0;
                while k < zeros_needed
                    invariant
                        k <= zeros_needed,
                        out@ == seq!['0', '.'] + zeros(k as nat),
                    decreases zeros_needed - k,
                {
                    out.push('0');
                    k += 1;
                    assert(out@ =~= seq!['0', '.'] + zeros(k as nat));
                }
                let mut i: usize = 0;
                while i < len
                    invariant
                        i <= len,
                        len == digits.len(),
                        out@ == seq!['0', '.'] + zeros(zeros_needed as nat) + digits@.take(
                            i as int,
                        ),
                    decreases len - i,
                {
                    out.push(digits[i]);
                    i += 1;
                    assert(out@ =~= seq!['0', '.'] + zeros(zeros_needed as nat) + digits@.take(
                        i as int,
                    ));
                }
                assert(digits@.take(len as int) =~= digits@);
            } else {
                let decimal_pos: usize = len - shift as usize;
                let mut i: usize = 0;
                while i < decimal_pos
                    invariant
                        i <= decimal_pos <= len,
                        len == digits.len(),
                        out@ == digits@.take(i as int),
                    decreases decimal_pos - i,
                {
                    out.push(digits[i]);
                    i += 1;
                    assert(out@ =~= digits@.take(i as int));
                }
                out.push('.');
                while i < len
                    invariant
                        decimal_pos <= i <= len,
                        len == digits.len(),
                        out@ == digits@.take(decimal_pos as int).push('.') + digits@.subrange(
                            decimal_pos as int,
                            i as int,
                        ),
                    decreases len - i,
                {
                    out.push(digits[i]);
                    i += 1;
                    assert(out@ =~= digits@.take(decimal_pos as int).push('.') + digits@.subrange(
                        decimal_pos as int,
                        i as int,
                    ));
                }
                assert(digits@.subrange(decimal_pos as int, len as int) =~= digits@.skip(
                    decimal_pos as int,
                ));
            }
            assert(out@.subrange(0, out.len() as int) =~= out@);
            from_chars(&out, 0, out.len())
        },
        None => unreached(),
    }
}

/// A number in fixed notation: one or more digits, a decimal point, and the
/// digits of the fraction, of which there may be none.
pub open spec fn is_fixed_point(s: Seq<char>) -> bool {
    let point = first_index(s, '.');
    &&& 0 < point < s.len()
    &&& all_digits(s.take(point))
    &&& all_digits(s.skip(point + 1))
}

/// The digits of a mantissa in fixed notation that count: those of the
/// trimmed mantissa, without the decimal point.
pub open spec fn mantissa_digits(mantissa: Seq<char>) -> Seq<char> {
    unscaled_digits(trimmed(mantissa))
}

/// How many digits the trimmed mantissa has behind its decimal point.
pub open spec fn digits_moved(mantissa: Seq<char>) -> nat {
    scale(trimmed(mantissa))
}

/// The plain decimal text of `mantissa × 10^exp`, for a mantissa in fixed
/// notation. The digits of the mantissa are taken as one integer and the
/// exponent is lowered by the number of fraction digits among them. An
/// exponent that is still not negative multiplies the integer by that power
/// of ten; a negative one places the decimal point among its digits.
pub open spec fn scientific_text(mantissa: Seq<char>, exp: int) -> Seq<char> {
    let digits = mantissa_digits(mantissa);
    let adjusted = exp - digits_moved(mantissa);
    if adjusted >= 0 {
        decimal_text(decimal_value(digits) * pow10(adjusted as nat))
    } else {
        with_point(decimal_text(decimal_value(digits)), (-adjusted) as nat)
    }
}

/// Trailing zeros are taken from the end only: what is left is the text up
/// to some place, it does not end with a zero, and all behind it are zeros.
pub proof fn lemma_without_trailing_zeros(s: Seq<char>) -> (n: int)
    ensures
        0 <= n <= s.len(),
        without_trailing_zeros(s) == s.take(n),
        n > 0 ==> s[n - 1] != '0',
        forall|i: int| n <= i < s.len() ==> #[trigger] s[i] == '0',
    decreases s.len(),
{
    if s.len() > 0 && s.last() == '0' {
        let n = lemma_without_trailing_zeros(s.drop_last());
        assert(s.drop_last().take(n) =~= s.take(n));
        assert forall|i: int| n <= i < s.len() implies #[trigger] s[i] == '0' by {
            if i < s.len() - 1 {
                assert(s.drop_last()[i] == '0');
            }
        }
        n
    } else {
        assert(s.take(s.len() as int) =~= s);
        s.len() as int
    }
}

/// Trimming takes characters from the end only.
pub proof fn lemma_trimmed_is_prefix(s: Seq<char>)
    ensures
        trimmed(s).len() <= s.len(),
        trimmed(s) == s.take(trimmed(s).len() as int),
{
    if s.contains('.') {
        let n = lemma_without_trailing_zeros(s);
        let z = s.take(n);
        if z.len() > 0 && z.last() == '.' {
            assert(z.drop_last() =~= s.take(n - 1));
        }
    } else {
        assert(s.take(s.len() as int) =~= s);
    }
}

/// A decimal text with a point: digits, of which there may be none, on
/// both sides of one decimal point.
pub open spec fn is_pointed(s: Seq<char>) -> bool {
    let point = first_index(s, '.');
    &&& point < s.len()
    &&& all_digits(s.take(point))
    &&& all_digits(s.skip(point + 1))
}

/// Trimming a decimal text with a point leaves what stands before the point
/// and either no fraction and no point, or the point and a fraction that
/// ends with a digit other than zero. All that is taken away behind the
/// point is zeros.
pub proof fn lemma_trimmed_pointed(s: Seq<char>) -> (n: int)
    requires
        is_pointed(s),
    ensures
        trimmed(s) == s.take(n),
        first_index(s, '.') <= n <= s.len(),
        n != first_index(s, '.') + 1,
        n > first_index(s, '.') ==> s[n - 1] != '0',
        forall|i: int| n <= i < s.len() && i != first_index(s, '.') ==> #[trigger] s[i] == '0',
        is_first_index(trimmed(s), '.', first_index(s, '.')),
{
    let point = first_index(s, '.');
    lemma_first_index_exists(s, '.');
    assert(is_first_index(s, '.', point));
    assert(s[point] == '.');
    assert(s.contains('.'));
    let k = lemma_without_trailing_zeros(s);
    if k <= point {
        assert(s[point] == '0');
    }
    let z = s.take(k);
    let n = if z.last() == '.' {
        k - 1
    } else {
        k
    };
    assert(z.last() == s[k - 1]);
    if z.last() == '.' {
        assert(z.drop_last() =~= s.take(k - 1));
        if k - 1 > point {
            assert(s.skip(point + 1)[k - 1 - point - 1] == s[k - 1]);
            assert(is_digit(s[k - 1]));
        }
    } else {
        if k == point + 1 {
            assert(s[point] == '.');
        }
    }
    assert(trimmed(s) == s.take(n));
    assert forall|j: int| 0 <= j < point implies #[trigger] s.take(n)[j] != '.' by {
        assert(s[j] != '.');
    }
    n
}

/// The digits of a mantissa in fixed notation are digits, and there is one
/// at least.
pub proof fn lemma_mantissa_digits(s: Seq<char>)
    requires
        is_fixed_point(s),
    ensures
        mantissa_digits(s).len() > 0,
        all_digits(mantissa_digits(s)),
        digits_moved(s) <= s.len(),
{
    let point = first_index(s, '.');
    let n = lemma_trimmed_pointed(s);
    let t = trimmed(s);
    lemma_first_index(t, '.', point);
    let digits = mantissa_digits(s);
    assert forall|i: int| 0 <= i < digits.len() implies is_digit(#[trigger] digits[i]) by {
        if i < point {
            assert(digits[i] == s.take(point)[i]);
        } else {
            assert(digits[i] == s.skip(point + 1)[i - point]);
        }
    }
}

/// Formats `mantissa × 10^exp` as plain decimal text. The mantissa comes in
/// fixed notation and is not negative; the result holds every digit of it
/// that counts, moved to its place, and no exponent.
pub fn format_with_bigint(mantissa: &str, exp: i32) -> (out: String)
    requires
        is_fixed_point(mantissa@),
        exp - digits_moved(mantissa@) >= i32::MIN,
    ensures
        out@ == scientific_text(mantissa@, exp as int),
{
    let mut chars = to_chars(mantissa);
    trim(&mut chars);
    let point = find(&chars, '.');
    let len = chars.len();
    proof {
        lemma_mantissa_digits(mantissa@);
    }
    let mut mantissa_as_int = from_chars(&chars, 0, point);
    let mut digits_moved: usize = 0;
    if point < len {
        let frac_part = from_chars(&chars, point + 1, len);
        mantissa_as_int.append(frac_part.as_str());
        digits_moved = len - point - 1;
    }
    assert(mantissa_as_int@ =~= mantissa_digits(mantissa@));
    let adjusted_exp: i32 = (exp as i64 - digits_moved as i64) as i32;
    if adjusted_exp >= 0 {
        format_large_number(mantissa_as_int.as_str(), adjusted_exp)
    } else {
        format_small_number(mantissa_as_int.as_str(), adjusted_exp)
    }
}

/// One double-precision number with the conversions of it that the
/// formatter reads. The conversions are made where the number is at hand, by
/// the standard formatting of floating-point numbers.
#[derive(Clone, Debug, PartialEq, Eq)]
pub struct FloatText {
    /// The number itself.
    pub value: Double,
    /// Its default decimal conversion.
    pub plain: String,
    /// The magnitude of the mantissa of its scientific conversion, in fixed
    /// notation with fifteen digits behind the decimal point.
    pub mantissa: String,
    /// The exponent of its scientific conversion, to base ten.
    pub exponent: i32,
}

impl FloatText {
    /// The number is formatted from its mantissa and exponent: it is finite,
    /// and it is outside the plain band or its default conversion holds an
    /// exponent marker.
    pub open spec fn is_scientific(&self) -> bool {
        &&& !self.value.is_nan()
        &&& !self.value.is_infinite()
        &&& !(self.value.in_plain_band() && !self.plain@.contains('e'))
    }

    /// Where the mantissa is read, it is in fixed notation, and the exponent
    /// lowered by the digits of its fraction is still an `i32`.
    pub open spec fn wf(&self) -> bool {
        self.is_scientific() ==> {
            &&& is_fixed_point(self.mantissa@)
            &&& self.exponent - digits_moved(self.mantissa@) >= i32::MIN
        }
    }

    /// Tells whether the conversions can be formatted.
    pub fn is_well_formed(&self) -> (b: bool)
        ensures
            b == self.wf(),
    {
        if self.value.is_nan() || self.value.is_infinite() {
            return true;
        }
        if self.value.in_plain_band() {
            let plain = to_chars(self.plain.as_str());
            if find(&plain, 'e') == plain.len() {
                return true;
            }
        }
        let mut chars = to_chars(self.mantissa.as_str());
        if !fixed_point(&chars) {
            return false;
        }
        proof {
            lemma_mantissa_digits(self.mantissa@);
        }
        trim(&mut chars);
        let point = find(&chars, '.');
        let moved: usize = if point < chars.len() {
            chars.len() - point - 1
        } else {
            0
        };
        self.exponent as i128 - moved as i128 >= i32::MIN as i128
    }
}

/// Tells whether the characters are a number in fixed notation.
pub fn fixed_point(chars: &Vec<char>) -> (b: bool)
    ensures
        b == is_fixed_point(chars@),
{
    let point = find(chars, '.');
    let len = chars.len();
    if point == 0 || point >= len {
        return false;
    }
    let mut i: usize = 0;
    while i < len
        invariant
            0 < point < len,
            point == first_index(chars@, '.'),
            len == chars.len(),
            i <= len,
            forall|j: int| 0 <= j < i && j != point ==> is_digit(#[trigger] chars@[j]),
        decreases len - i,
    {
        if i != point && !digit(chars[i]) {
            proof {
                if i < point {
                    assert(chars@.take(point as int)[i as int] == chars@[i as int]);
                    assert(!is_digit(chars@.take(point as int)[i as int]));
                } else {
                    assert(chars@.skip(point + 1)[i - point - 1] == chars@[i as int]);
                    assert(!is_digit(chars@.skip(point + 1)[i - point - 1]));
                }
            }
            return false;
        }
        i += 1;
    }
    true
}

/// The full decimal text of a number.
///
/// What is not a number is `NaN`, and the infinities are `Infinity` and
/// `-Infinity`. A number in the plain band whose default conversion holds no
/// exponent marker is that conversion, trimmed. Any other number is the
/// plain decimal text of its mantissa times ten to its exponent, behind a
/// `-` if the number is below zero, and trimmed.
pub open spec fn full_decimal(t: FloatText) -> Seq<char> {
    if t.value.is_nan() {
        "NaN"@
    } else if t.value.is_infinite() {
        if t.value.sign() {
            "-Infinity"@
        } else {
            "Infinity"@
        }
    } else if t.value.in_plain_band() && !t.plain@.contains('e') {
        trimmed(t.plain@)
    } else {
        let body = scientific_text(t.mantissa@, t.exponent as int);
        trimmed(
            if t.value.is_negative() {
                seq!['-'] + body
            } else {
                body
            },
        )
    }
}

/// Formats a number as plain decimal text, without an exponent and without
/// losing a digit. The result is a function of the number and its
/// conversions alone.
pub fn format_full_decimal(num: &FloatText) -> (out: String)
    requires
        num.wf(),
    ensures
        out@ == full_decimal(*num),
        !out@.contains('e'),
{
    proof {
        lemma_full_decimal_has_no_exponent(*num);
    }
    if num.value.is_nan() {
        return "NaN".to_owned();
    }
    if num.value.is_infinite() {
        return if num.value.sign() {
            "-Infinity".to_owned()
        } else {
            "Infinity".to_owned()
        };
    }
    if num.value.in_plain_band() {
        let plain = to_chars(num.plain.as_str());
        if find(&plain, 'e') == plain.len() {
            return format_regular_number(num.plain.as_str());
        }
    }
    let body = format_with_bigint(num.mantissa.as_str(), num.exponent);
    let mut result = if num.value.is_negative() {
        let mut signed = "-".to_owned();
        proof {
            reveal_strlit("-");
        }
        signed.append(body.as_str());
        assert(signed@ =~= seq!['-'] + body@);
        signed
    } else {
        body
    };
    trim_trailing_zeros(&mut result);
    result
}

} // verus!

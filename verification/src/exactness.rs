//! Formatting is exact: the text that comes out denotes the number that
//! went in, digit for digit.

use crate::decimal::decimal_text;
use crate::decimal::decimal_value;
use crate::decimal::lemma_decimal_text_digits;
use crate::decimal::lemma_decimal_text_value;
use crate::decimal::lemma_decimal_value_concat;
use crate::decimal::lemma_pow10_adds;
use crate::decimal::lemma_pow10_positive;
use crate::decimal::lemma_zeros_value;
use crate::decimal::pow10;
use crate::decimal::scale;
use crate::decimal::unscaled_digits;
use crate::decimal::zeros;
use crate::formatter::digits_moved;
use crate::formatter::full_decimal;
use crate::formatter::FloatText;
use crate::formatter::lemma_trimmed_is_prefix;
use crate::formatter::is_fixed_point;
use crate::formatter::is_pointed;
use crate::formatter::lemma_trimmed_pointed;
use crate::formatter::mantissa_digits;
use crate::formatter::scientific_text;
use crate::formatter::trimmed;
use crate::formatter::with_point;
use crate::formatter::without_trailing_zeros;
use crate::text::all_digits;
use crate::text::first_index;
use crate::text::is_digit;
use crate::text::is_first_index;
use crate::text::lemma_first_index;
use crate::text::lemma_first_index_exists;
use vstd::prelude::*;

verus! {

/// A decimal text: digits, with at most one decimal point among them.
pub open spec fn is_decimal(s: Seq<char>) -> bool {
    all_digits(unscaled_digits(s))
}

/// The decimal text `s` denotes the number `n / 10^k`.
pub open spec fn denotes(s: Seq<char>, n: int, k: nat) -> bool {
    &&& is_decimal(s)
    &&& decimal_value(unscaled_digits(s)) * pow10(k) == n * pow10(scale(s))
}

/// A text of digits alone has no decimal point: it is its own digits.
pub proof fn lemma_digits_unscaled(s: Seq<char>)
    requires
        all_digits(s),
    ensures
        unscaled_digits(s) == s,
        scale(s) == 0,
{
    assert forall|j: int| 0 <= j < s.len() implies #[trigger] s[j] != '.' by {
        assert(is_digit(s[j]));
    }
    lemma_first_index(s, '.', s.len() as int);
}

/// A decimal text either is all digits or has digits on both sides of its
/// one point.
pub proof fn lemma_decimal_shape(s: Seq<char>)
    requires
        is_decimal(s),
    ensures
        first_index(s, '.') == s.len() ==> all_digits(s),
        first_index(s, '.') < s.len() ==> is_pointed(s),
        0 <= first_index(s, '.') <= s.len(),
{
    lemma_first_index_exists(s, '.');
    let point = first_index(s, '.');
    if point < s.len() {
        let digits = unscaled_digits(s);
        assert forall|i: int| 0 <= i < point implies is_digit(#[trigger] s.take(point)[i]) by {
            assert(digits[i] == s[i]);
        }
        assert forall|i: int| 0 <= i < s.len() - point - 1 implies is_digit(
            #[trigger] s.skip(point + 1)[i],
        ) by {
            assert(digits[point + i] == s[point + 1 + i]);
        }
    }
}

/// Multiplying by two powers of ten is multiplying by the power of the sum.
proof fn lemma_scaled_twice(v: int, a: nat, b: nat)
    ensures
        v * pow10(a) * pow10(b) == v * pow10(a + b),
{
    lemma_pow10_adds(a, b);
    assert(v * pow10(a) * pow10(b) == v * (pow10(a) * pow10(b))) by (nonlinear_arith);
}

/// Zeros written behind digits multiply the number by a power of ten.
proof fn lemma_value_with_zeros(digits: Seq<char>, tail: Seq<char>)
    requires
        forall|i: int| 0 <= i < tail.len() ==> #[trigger] tail[i] == '0',
    ensures
        decimal_value(digits + tail) == decimal_value(digits) * pow10(tail.len()),
{
    assert(tail =~= zeros(tail.len()));
    lemma_zeros_value(tail.len());
    lemma_decimal_value_concat(digits, tail);
}

/// What trimming takes from a decimal text is a power of ten in the scale:
/// the digits that are left denote the same number with `z` fewer places.
pub proof fn lemma_trimmed_value(s: Seq<char>) -> (z: nat)
    requires
        is_decimal(s),
    ensures
        is_decimal(trimmed(s)),
        decimal_value(unscaled_digits(s)) == decimal_value(unscaled_digits(trimmed(s))) * pow10(z),
        scale(s) == scale(trimmed(s)) + z,
{
    lemma_decimal_shape(s);
    let point = first_index(s, '.');
    if point == s.len() {
        lemma_first_index_exists(s, '.');
        lemma_first_index(s, '.', point);
        assert(!s.contains('.'));
        assert(pow10(0) == 1);
        0
    } else {
        let n = lemma_trimmed_pointed(s);
        let t = trimmed(s);
        lemma_first_index(t, '.', point);
        let whole = s.take(point);
        if n == point {
            assert(t =~= whole);
            let tail = s.skip(point + 1);
            assert forall|i: int| 0 <= i < tail.len() implies #[trigger] tail[i] == '0' by {
                assert(s[point + 1 + i] == '0');
            }
            assert(unscaled_digits(s) =~= whole + tail);
            lemma_value_with_zeros(whole, tail);
            tail.len()
        } else {
            let kept = t.take(point) + t.skip(point + 1);
            let tail = s.skip(n);
            assert forall|i: int| 0 <= i < tail.len() implies #[trigger] tail[i] == '0' by {
                assert(s[n + i] == '0');
            }
            assert(unscaled_digits(s) =~= kept + tail);
            assert forall|i: int| 0 <= i < kept.len() implies is_digit(#[trigger] kept[i]) by {
                assert(kept[i] == unscaled_digits(s)[i]);
            }
            lemma_value_with_zeros(kept, tail);
            tail.len()
        }
    }
}

/// Trimming does not change the number that a decimal text denotes.
pub proof fn lemma_trimmed_same_number(s: Seq<char>, n: int, k: nat)
    requires
        denotes(s, n, k),
    ensures
        denotes(trimmed(s), n, k),
{
    let z = lemma_trimmed_value(s);
    let t = trimmed(s);
    let v = decimal_value(unscaled_digits(t)) as int;
    lemma_pow10_positive(z);
    lemma_pow10_adds(scale(t), z);
    let p = pow10(z) as int;
    let a = pow10(k) as int;
    let b = pow10(scale(t)) as int;
    assert((v * p) * a == n * (b * p));
    assert(v * a == n * b) by (nonlinear_arith)
        requires
            (v * p) * a == n * (b * p),
            p > 0,
    ;
}

/// A trimmed decimal text carries nothing at its end without need: it has
/// no decimal point, or it ends with a digit of its fraction that is not
/// zero.
pub proof fn lemma_trimmed_ends_with_digit(s: Seq<char>)
    requires
        is_decimal(s),
    ensures
        !trimmed(s).contains('.') || (trimmed(s).last() != '0' && trimmed(s).last() != '.'),
{
    lemma_decimal_shape(s);
    lemma_first_index_exists(s, '.');
    let point = first_index(s, '.');
    lemma_first_index(s, '.', point);
    if point < s.len() {
        let n = lemma_trimmed_pointed(s);
        let t = trimmed(s);
        lemma_first_index(t, '.', point);
        if n > point {
            assert(t.last() == s[n - 1]);
            assert(s.skip(point + 1)[n - 1 - point - 1] == s[n - 1]);
        }
    }
}

/// Trimming a decimal text a second time changes nothing.
pub proof fn lemma_trimmed_twice(s: Seq<char>)
    requires
        is_decimal(s),
    ensures
        trimmed(trimmed(s)) == trimmed(s),
{
    lemma_trimmed_ends_with_digit(s);
}

/// A sign before a text stays where it is when the text is trimmed.
pub proof fn lemma_trimmed_behind_sign(s: Seq<char>)
    ensures
        trimmed(seq!['-'] + s) == seq!['-'] + trimmed(s),
{
    let signed = seq!['-'] + s;
    if s.contains('.') {
        let i = choose|i: int| 0 <= i < s.len() && s[i] == '.';
        assert(signed[i + 1] == '.');
        lemma_zeros_behind_sign(s);
        let z = without_trailing_zeros(s);
        let signed_z = seq!['-'] + z;
        if z.len() > 0 {
            assert(signed_z.last() == z.last());
            assert(signed_z.drop_last() =~= seq!['-'] + z.drop_last());
        } else {
            assert(signed_z.last() == '-');
        }
    } else {
        assert forall|j: int| 0 <= j < signed.len() implies signed[j] != '.' by {
            if j > 0 {
                assert(s.contains(s[j - 1]));
            }
        }
    }
}

/// A sign before a text stays where it is when the zeros at the end of the
/// text are taken away.
proof fn lemma_zeros_behind_sign(s: Seq<char>)
    ensures
        without_trailing_zeros(seq!['-'] + s) == seq!['-'] + without_trailing_zeros(s),
    decreases s.len(),
{
    let signed = seq!['-'] + s;
    if s.len() > 0 {
        assert(signed.last() == s.last());
        assert(signed.drop_last() =~= seq!['-'] + s.drop_last());
        if s.last() == '0' {
            lemma_zeros_behind_sign(s.drop_last());
        }
    } else {
        assert(signed.last() == '-');
    }
}

/// Digits with a point placed `shift` places from their right end denote
/// the number of the digits, divided by ten `shift` times.
pub proof fn lemma_with_point(digits: Seq<char>, shift: nat)
    requires
        all_digits(digits),
        shift > 0,
    ensures
        is_decimal(with_point(digits, shift)),
        decimal_value(unscaled_digits(with_point(digits, shift))) == decimal_value(digits),
        scale(with_point(digits, shift)) == shift,
{
    let out = with_point(digits, shift);
    if shift >= digits.len() {
        let fill = zeros((shift - digits.len()) as nat);
        assert(out[1] == '.');
        assert(is_digit(out[0]));
        assert(is_first_index(out, '.', 1));
        lemma_first_index(out, '.', 1);
        let lead = seq!['0'] + fill;
        assert(unscaled_digits(out) =~= lead + digits);
        assert(lead =~= zeros(lead.len()));
        lemma_zeros_value(lead.len());
        lemma_decimal_value_concat(lead, digits);
        assert(decimal_value(lead) * pow10(digits.len()) == 0) by (nonlinear_arith)
            requires
                decimal_value(lead) == 0,
        ;
        assert forall|i: int| 0 <= i < (lead + digits).len() implies is_digit(
            #[trigger] (lead + digits)[i],
        ) by {
            if i >= lead.len() {
                assert((lead + digits)[i] == digits[i - lead.len()]);
            }
        }
    } else {
        let at = digits.len() - shift;
        assert(out[at] == '.');
        assert forall|j: int| 0 <= j < at implies #[trigger] out[j] != '.' by {
            assert(out[j] == digits[j]);
            assert(is_digit(digits[j]));
        }
        lemma_first_index(out, '.', at);
        assert(unscaled_digits(out) =~= digits);
    }
}

/// The plain decimal text of a mantissa and an exponent denotes the
/// mantissa times ten to the exponent, exactly: where the mantissa denotes
/// `n / 10^k`, the text denotes `n × 10^exp / 10^k`.
pub proof fn lemma_scientific_text_exact(mantissa: Seq<char>, exp: int, n: int, k: nat)
    requires
        is_fixed_point(mantissa),
        denotes(mantissa, n, k),
    ensures
        exp >= 0 ==> denotes(scientific_text(mantissa, exp), n * pow10(exp as nat), k),
        exp < 0 ==> denotes(scientific_text(mantissa, exp), n, k + ((-exp) as nat)),
{
    let z = lemma_trimmed_value(mantissa);
    lemma_trimmed_same_number(mantissa, n, k);
    let t = trimmed(mantissa);
    let digits = mantissa_digits(mantissa);
    let moved = digits_moved(mantissa);
    let v = decimal_value(digits) as int;
    let adjusted = exp - moved;
    let out = scientific_text(mantissa, exp);
    // the trimmed mantissa denotes the same number: v × 10^k == n × 10^moved
    assert(v * pow10(k) == n * pow10(moved));
    if adjusted >= 0 {
        let a = adjusted as nat;
        let e = exp as nat;
        lemma_pow10_positive(a);
        assert(v * pow10(a) >= 0) by (nonlinear_arith)
            requires
                v >= 0,
                pow10(a) > 0,
        ;
        let product = (v * pow10(a)) as nat;
        lemma_decimal_text_digits(product);
        lemma_decimal_text_value(product);
        lemma_digits_unscaled(out);
        assert(pow10(0) == 1);
        // v × 10^a × 10^k == n × 10^moved × 10^a == n × 10^exp
        lemma_pow10_adds(moved, a);
        assert(v * pow10(a) * pow10(k) == n * pow10(e) * 1) by (nonlinear_arith)
            requires
                v * pow10(k) == n * pow10(moved),
                pow10(e) == pow10(moved) * pow10(a),
        ;
    } else {
        let shift = (-adjusted) as nat;
        let text = decimal_text(v as nat);
        lemma_decimal_text_digits(v as nat);
        lemma_decimal_text_value(v as nat);
        lemma_with_point(text, shift);
        if exp >= 0 {
            let e = exp as nat;
            // v × 10^k == n × 10^moved == n × 10^exp × 10^shift
            lemma_pow10_adds(e, shift);
            assert(v * pow10(k) == n * pow10(e) * pow10(shift)) by (nonlinear_arith)
                requires
                    v * pow10(k) == n * pow10(moved),
                    pow10(moved) == pow10(e) * pow10(shift),
            ;
        } else {
            let down = (-exp) as nat;
            // v × 10^(k + down) == n × 10^moved × 10^down == n × 10^shift
            lemma_pow10_adds(k, down);
            lemma_pow10_adds(moved, down);
            assert(v * pow10(k + down) == n * pow10(shift)) by (nonlinear_arith)
                requires
                    v * pow10(k) == n * pow10(moved),
                    pow10(k + down) == pow10(k) * pow10(down),
                    pow10(shift) == pow10(moved) * pow10(down),
            ;
        }
    }
}

/// A decimal text holds digits and points and nothing else.
pub proof fn lemma_decimal_chars(s: Seq<char>)
    requires
        is_decimal(s),
    ensures
        forall|i: int| 0 <= i < s.len() ==> is_digit(#[trigger] s[i]) || s[i] == '.',
{
    lemma_decimal_shape(s);
    let point = first_index(s, '.');
    assert forall|i: int| 0 <= i < s.len() implies is_digit(#[trigger] s[i]) || s[i] == '.' by {
        if point < s.len() {
            if i < point {
                assert(s.take(point)[i] == s[i]);
            } else if i > point {
                assert(s.skip(point + 1)[i - point - 1] == s[i]);
            } else {
                lemma_first_index_exists(s, '.');
            }
        }
    }
}

/// The full decimal text of a number that is formatted from its mantissa
/// and exponent is exact. It is a `-`, if the number is below zero, and a
/// decimal text; where the mantissa denotes `n / 10^k`, that text denotes
/// `n × 10^exponent / 10^k`.
pub proof fn lemma_full_decimal_exact(t: FloatText, n: int, k: nat)
    requires
        t.wf(),
        t.is_scientific(),
        denotes(t.mantissa@, n, k),
    ensures
        ({
            let text = full_decimal(t);
            let magnitude = if t.value.is_negative() {
                text.skip(1)
            } else {
                text
            };
            &&& t.value.is_negative() ==> text.len() > 0 && text[0] == '-'
            &&& t.exponent >= 0 ==> denotes(magnitude, n * pow10(t.exponent as nat), k)
            &&& t.exponent < 0 ==> denotes(magnitude, n, k + ((-t.exponent) as nat))
        }),
{
    let body = scientific_text(t.mantissa@, t.exponent as int);
    lemma_scientific_text_exact(t.mantissa@, t.exponent as int, n, k);
    if t.exponent >= 0 {
        lemma_trimmed_same_number(body, n * pow10(t.exponent as nat), k);
    } else {
        lemma_trimmed_same_number(body, n, k + ((-t.exponent) as nat));
    }
    if t.value.is_negative() {
        lemma_trimmed_behind_sign(body);
        assert((seq!['-'] + trimmed(body)).skip(1) =~= trimmed(body));
    }
}

/// The full decimal text of a number in the plain band denotes what its
/// default conversion denotes: where the conversion is a decimal text,
/// behind a `-` or not, so is the full text, with the same sign and for the
/// same number.
pub proof fn lemma_full_decimal_plain(t: FloatText, negative: bool, body: Seq<char>, n: int, k: nat)
    requires
        !t.value.is_nan(),
        !t.value.is_infinite(),
        t.value.in_plain_band(),
        t.plain@ == if negative {
            seq!['-'] + body
        } else {
            body
        },
        denotes(body, n, k),
    ensures
        full_decimal(t) == if negative {
            seq!['-'] + trimmed(body)
        } else {
            trimmed(body)
        },
        denotes(trimmed(body), n, k),
{
    lemma_decimal_chars(body);
    let plain = t.plain@;
    assert forall|i: int| 0 <= i < plain.len() implies plain[i] != 'e' by {
        if negative {
            if i > 0 {
                assert(plain[i] == body[i - 1]);
            }
        }
    }
    lemma_trimmed_same_number(body, n, k);
    if negative {
        lemma_trimmed_behind_sign(body);
    }
}

/// No full decimal text holds an exponent marker.
pub proof fn lemma_full_decimal_has_no_exponent(t: FloatText)
    requires
        t.wf(),
    ensures
        !full_decimal(t).contains('e'),
{
    let text = full_decimal(t);
    reveal_strlit("NaN");
    reveal_strlit("Infinity");
    reveal_strlit("-Infinity");
    if t.value.is_nan() || t.value.is_infinite() {
        assert forall|i: int| 0 <= i < text.len() implies text[i] != 'e' by {}
    } else if !t.is_scientific() {
        lemma_trimmed_is_prefix(t.plain@);
        assert forall|i: int| 0 <= i < text.len() implies text[i] != 'e' by {
            assert(text[i] == t.plain@[i]);
            assert(t.plain@.contains(t.plain@[i]));
        }
    } else {
        let body = scientific_text(t.mantissa@, t.exponent as int);
        let z = lemma_trimmed_value(t.mantissa@);
        assert(is_decimal(t.mantissa@)) by {
            lemma_fixed_point_is_decimal(t.mantissa@);
        }
        lemma_scientific_text_exact(
            t.mantissa@,
            t.exponent as int,
            decimal_value(unscaled_digits(t.mantissa@)) as int,
            scale(t.mantissa@),
        );
        lemma_decimal_chars(body);
        let signed = if t.value.is_negative() {
            seq!['-'] + body
        } else {
            body
        };
        lemma_trimmed_is_prefix(signed);
        assert forall|i: int| 0 <= i < text.len() implies text[i] != 'e' by {
            assert(text[i] == signed[i]);
            if t.value.is_negative() && i > 0 {
                assert(signed[i] == body[i - 1]);
            }
        }
    }
}

/// A number in fixed notation is a decimal text.
pub proof fn lemma_fixed_point_is_decimal(s: Seq<char>)
    requires
        is_fixed_point(s),
    ensures
        is_decimal(s),
{
    let point = first_index(s, '.');
    let digits = unscaled_digits(s);
    assert forall|i: int| 0 <= i < digits.len() implies is_digit(#[trigger] digits[i]) by {
        if i < point {
            assert(digits[i] == s.take(point)[i]);
        } else {
            assert(digits[i] == s.skip(point + 1)[i - point]);
        }
    }
}

} // verus!

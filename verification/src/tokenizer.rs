//! The tokenizer: from an expression without whitespace to its numbers and
//! operators, in order.

use crate::error::CalcError;
use crate::error::ErrorView;
use crate::text::all_digits;
use crate::text::digit;
use crate::text::from_chars;
use crate::text::is_digit;
use crate::text::to_chars;
use vstd::prelude::*;

verus! {

/// One lexical unit of an expression.
#[derive(Clone, Debug, PartialEq, Eq)]
pub enum Lexeme {
    /// A number, held by its text, which is a valid literal.
    Number(String),
    /// One of the four operator symbols.
    Operator(char),
}

/// A `Lexeme` with its text as a sequence of characters.
pub enum LexemeView {
    Number(Seq<char>),
    Operator(char),
}

impl View for Lexeme {
    type V = LexemeView;

    open spec fn view(&self) -> LexemeView {
        match self {
            Lexeme::Number(text) => LexemeView::Number(text@),
            Lexeme::Operator(c) => LexemeView::Operator(*c),
        }
    }
}

/// The views of a sequence of lexemes.
pub open spec fn views(v: Seq<Lexeme>) -> Seq<LexemeView> {
    Seq::new(v.len(), |i: int| v[i]@)
}

/// `e` or `E`, which opens the exponent of a number.
pub open spec fn is_exponent_marker(c: char) -> bool {
    c == 'e' || c == 'E'
}

/// `+` or `-`.
pub open spec fn is_sign(c: char) -> bool {
    c == '+' || c == '-'
}

/// A character that a number is gathered from, signs apart.
pub open spec fn is_literal_char(c: char) -> bool {
    is_digit(c) || c == '.' || is_exponent_marker(c)
}

/// One of the four operator symbols.
pub open spec fn is_operator(c: char) -> bool {
    c == '+' || c == '-' || c == '*' || c == '/'
}

/// The part of a number before its exponent: digits with at most one decimal
/// point among them, and at least one digit.
pub open spec fn is_mantissa(s: Seq<char>) -> bool {
    &&& exists|i: int| 0 <= i < s.len() && is_digit(#[trigger] s[i])
    &&& forall|i: int| 0 <= i < s.len() ==> is_digit(#[trigger] s[i]) || s[i] == '.'
    &&& forall|i: int, j: int|
        0 <= i < j < s.len() ==> !(#[trigger] s[i] == '.' && #[trigger] s[j] == '.')
}

/// What follows the exponent marker of a number: an optional sign, then at
/// least one digit and nothing else.
pub open spec fn is_exponent(s: Seq<char>) -> bool {
    let digits = if s.len() > 0 && is_sign(s[0]) {
        s.skip(1)
    } else {
        s
    };
    digits.len() > 0 && all_digits(digits)
}

/// A valid number: a mantissa, alone or followed by an exponent marker and an
/// exponent.
pub open spec fn is_literal(s: Seq<char>) -> bool {
    ||| is_mantissa(s)
    ||| exists|k: int|
        0 <= k < s.len() && is_exponent_marker(#[trigger] s[k]) && is_mantissa(s.take(k))
            && is_exponent(s.skip(k + 1))
}

/// Where the run of number characters that holds position `i` ends: the run
/// takes digits, points and exponent markers, and with an exponent marker the
/// sign that stands directly behind it.
pub open spec fn literal_end(s: Seq<char>, i: int) -> int
    decreases s.len() - i,
{
    if i < 0 || i >= s.len() {
        i
    } else if is_exponent_marker(s[i]) && i + 1 < s.len() && is_sign(s[i + 1]) {
        literal_end(s, i + 2)
    } else if is_literal_char(s[i]) {
        literal_end(s, i + 1)
    } else {
        i
    }
}

/// `first` put before what the rest of the expression gives, if that is no
/// error.
pub open spec fn followed_by(
    first: Seq<LexemeView>,
    rest: Result<Seq<LexemeView>, ErrorView>,
) -> Result<Seq<LexemeView>, ErrorView> {
    match rest {
        Ok(more) => Ok(first + more),
        Err(e) => Err(e),
    }
}

/// The lexemes of `s` from position `i` on, or the first error met on the way
/// from left to right. An operator symbol is a lexeme of its own. A run of
/// number characters is one number; it is judged where it ends, so a
/// character that fits nowhere, met at the end of the run, is reported before
/// the run itself.
pub open spec fn lex_from(s: Seq<char>, i: int) -> Result<Seq<LexemeView>, ErrorView>
    decreases s.len() - i,
    via lex_from_decreases
{
    if i < 0 || i >= s.len() {
        Ok(Seq::empty())
    } else if is_literal_char(s[i]) {
        let end = literal_end(s, i);
        let text = s.subrange(i, end);
        if end < s.len() && !is_operator(s[end]) {
            Err(ErrorView::InvalidCharacter(s[end]))
        } else if !is_literal(text) {
            Err(ErrorView::InvalidNumber(text))
        } else {
            followed_by(seq![LexemeView::Number(text)], lex_from(s, end))
        }
    } else if is_operator(s[i]) {
        followed_by(seq![LexemeView::Operator(s[i])], lex_from(s, i + 1))
    } else {
        Err(ErrorView::InvalidCharacter(s[i]))
    }
}

#[via_fn]
proof fn lex_from_decreases(s: Seq<char>, i: int) {
    if 0 <= i < s.len() && is_literal_char(s[i]) {
        lemma_literal_end_bounds(s, i);
    }
}

/// The lexemes of a whole expression, or its first error.
pub open spec fn lex(s: Seq<char>) -> Result<Seq<LexemeView>, ErrorView> {
    lex_from(s, 0)
}

/// A run ends behind its first character, if that is a number character, and
/// within the text.
pub proof fn lemma_literal_end_bounds(s: Seq<char>, i: int)
    requires
        0 <= i <= s.len(),
    ensures
        i <= literal_end(s, i) <= s.len(),
        i < s.len() && is_literal_char(s[i]) ==> i < literal_end(s, i),
    decreases s.len() - i,
{
    if i < s.len() {
        if is_exponent_marker(s[i]) && i + 1 < s.len() && is_sign(s[i + 1]) {
            lemma_literal_end_bounds(s, i + 2);
        } else if is_literal_char(s[i]) {
            lemma_literal_end_bounds(s, i + 1);
        }
    }
}

/// Tells whether `c` is gathered into a number.
fn literal_char(c: char) -> (b: bool)
    ensures
        b == is_literal_char(c),
{
    digit(c) || c == '.' || c == 'e' || c == 'E'
}

/// Tells whether `c` is an operator symbol.
fn operator(c: char) -> (b: bool)
    ensures
        b == is_operator(c),
{
    c == '+' || c == '-' || c == '*' || c == '/'
}

/// Tells whether `text[from..to]` is a mantissa.
fn mantissa_in(text: &Vec<char>, from: usize, to: usize) -> (b: bool)
    requires
        from <= to <= text.len(),
    ensures
        b == is_mantissa(text@.subrange(from as int, to as int)),
{
    let ghost s = text@.subrange(from as int, to as int);
    let mut seen_digit = false;
    let mut seen_point = false;
    let ghost mut digit_at: int = 0;
    let ghost mut point_at: int = 0;
    let mut i: usize = from;
    while i < to
        invariant
            from <= i <= to <= text.len(),
            s == text@.subrange(from as int, to as int),
            forall|j: int| 0 <= j < i - from ==> is_digit(#[trigger] s[j]) || s[j] == '.',
            seen_digit ==> 0 <= digit_at < i - from && is_digit(s[digit_at]),
            !seen_digit ==> forall|j: int| 0 <= j < i - from ==> !is_digit(#[trigger] s[j]),
            seen_point ==> 0 <= point_at < i - from && s[point_at] == '.',
            !seen_point ==> forall|j: int| 0 <= j < i - from ==> #[trigger] s[j] != '.',
            forall|j: int, k: int|
                0 <= j < k < i - from ==> !(#[trigger] s[j] == '.' && #[trigger] s[k] == '.'),
        decreases to - i,
    {
        let c = text[i];
        assert(s[i - from] == c);
        if digit(c) {
            seen_digit = true;
            proof {
                digit_at = i - from;
            }
        } else if c == '.' {
            if seen_point {
                assert(s[point_at] == '.' && s[i - from] == '.');
                return false;
            }
            seen_point = true;
            proof {
                point_at = i - from;
            }
        } else {
            return false;
        }
        i += 1;
    }
    seen_digit
}

/// Tells whether `text[from..]` is an exponent.
fn exponent_in(text: &Vec<char>, from: usize) -> (b: bool)
    requires
        from <= text.len(),
    ensures
        b == is_exponent(text@.skip(from as int)),
{
    let ghost s = text@.skip(from as int);
    let n = text.len();
    let mut i: usize = from;
    if i < n && (text[i] == '+' || text[i] == '-') {
        i += 1;
    }
    let start = i;
    let ghost digits = if s.len() > 0 && is_sign(s[0]) {
        s.skip(1)
    } else {
        s
    };
    assert(digits =~= text@.skip(start as int));
    if i == n {
        return false;
    }
    while i < n
        invariant
            start <= i <= n,
            n == text.len(),
            digits == text@.skip(start as int),
            is_exponent(text@.skip(from as int)) == (digits.len() > 0 && all_digits(digits)),
            forall|j: int| 0 <= j < i - start ==> is_digit(#[trigger] digits[j]),
        decreases n - i,
    {
        if !digit(text[i]) {
            assert(digits[i - start] == text@[i as int]);
            assert(!is_digit(digits[i - start]));
            return false;
        }
        i += 1;
    }
    true
}

/// Tells whether `text` is a valid number.
pub fn valid_literal(text: &Vec<char>) -> (b: bool)
    ensures
        b == is_literal(text@),
{
    let n = text.len();
    let mut k: usize = 0;
    while k < n && !(text[k] == 'e' || text[k] == 'E')
        invariant
            k <= n,
            n == text.len(),
            forall|j: int| 0 <= j < k ==> !is_exponent_marker(#[trigger] text@[j]),
        decreases n - k,
    {
        k += 1;
    }
    let ghost s = text@;
    assert(s.take(k as int) =~= s.subrange(0, k as int));
    proof {
        // A mantissa holds no exponent marker, so the first marker is the
        // only place where a valid number can be split.
        assert forall|m: int|
            0 <= m < s.len() && is_exponent_marker(#[trigger] s[m]) && is_mantissa(s.take(m))
                && is_exponent(s.skip(m + 1)) implies m == k by {
            if m < k {
                assert(!is_exponent_marker(s[m]));
            }
            if m > k {
                assert(s.take(m)[k as int] == s[k as int]);
            }
        }
        if is_mantissa(s) && k < n {
            assert(is_digit(s[k as int]) || s[k as int] == '.');
        }
    }
    if k == n {
        assert(s.take(k as int) =~= s);
        return mantissa_in(text, 0, k);
    }
    mantissa_in(text, 0, k) && exponent_in(text, k + 1)
}

/// Splits an expression, which holds no whitespace, into its lexemes.
///
/// Digits, decimal points and exponent markers are gathered into a number; a
/// sign directly behind an exponent marker belongs to that number. Any other
/// `+`, `-`, `*` or `/` closes the number before it and is an operator of its
/// own, a leading `-` too. The first character that is none of these ends the
/// scan with `InvalidCharacter`; a gathered run that is no valid number ends
/// it with `InvalidNumber`, which holds the run.
pub fn tokenize(expr: &str) -> (r: Result<Vec<Lexeme>, CalcError>)
    ensures
        match r {
            Ok(lexemes) => lex(expr@) == Ok::<Seq<LexemeView>, ErrorView>(views(lexemes@)),
            Err(e) => lex(expr@) == Err::<Seq<LexemeView>, ErrorView>(e@),
        },
{
    let chars = to_chars(expr);
    let n = chars.len();
    let ghost s = chars@;
    let mut lexemes: Vec<Lexeme> = Vec::new();
    let mut current: Vec<char> = Vec::new();
    let ghost mut start: int = 0;
    let mut i: usize = 0;
    assert(views(lexemes@) =~= Seq::empty());
    assert(followed_by(Seq::empty(), lex_from(s, 0)) == lex_from(s, 0)) by {
        match lex_from(s, 0) {
            Ok(more) => {
                assert(Seq::<LexemeView>::empty() + more =~= more);
            },
            Err(_) => {},
        }
    }
    while i < n
        invariant
            0 <= start <= i <= n,
            n == chars.len(),
            s == chars@,
            s == expr@,
            current@ == s.subrange(start, i as int),
            start < i ==> is_literal_char(s[start]) && literal_end(s, start) == literal_end(
                s,
                i as int,
            ),
            lex(s) == followed_by(views(lexemes@), lex_from(s, start)),
        decreases n - i,
    {
        let c = chars[i];
        if literal_char(c) {
            current.push(c);
            let ghost old_i = i as int;
            if (c == 'e' || c == 'E') && i + 1 < n && (chars[i + 1] == '+' || chars[i + 1] == '-') {
                current.push(chars[i + 1]);
                i += 1;
            }
            i += 1;
            assert(current@ =~= s.subrange(start, i as int));
            assert(literal_end(s, old_i) == literal_end(s, i as int));
        } else if operator(c) {
            if current.len() > 0 {
                proof {
                    assert(literal_end(s, i as int) == i);
                    assert(current@ =~= s.subrange(start, literal_end(s, start)));
                }
                let text = from_chars(&current, 0, current.len());
                assert(text@ =~= current@);
                if !valid_literal(&current) {
                    return Err(CalcError::InvalidNumber(text));
                }
                let ghost before = views(lexemes@);
                lexemes.push(Lexeme::Number(text));
                proof {
                    let number = seq![LexemeView::Number(current@)];
                    assert(views(lexemes@) =~= before + number);
                    lemma_followed_by_twice(before, number, lex_from(s, i as int));
                }
                current = Vec::new();
            }
            let ghost before = views(lexemes@);
            lexemes.push(Lexeme::Operator(c));
            proof {
                let symbol = seq![LexemeView::Operator(c)];
                assert(views(lexemes@) =~= before + symbol);
                lemma_followed_by_twice(before, symbol, lex_from(s, i + 1));
            }
            i += 1;
            proof {
                start = i as int;
            }
            assert(current@ =~= s.subrange(start, i as int));
        } else {
            proof {
                if start < i {
                    assert(literal_end(s, i as int) == i);
                }
            }
            return Err(CalcError::InvalidCharacter(c));
        }
    }
    if current.len() > 0 {
        proof {
            assert(literal_end(s, i as int) == i);
            assert(current@ =~= s.subrange(start, literal_end(s, start)));
        }
        let text = from_chars(&current, 0, current.len());
        assert(text@ =~= current@);
        if !valid_literal(&current) {
            return Err(CalcError::InvalidNumber(text));
        }
        let ghost before = views(lexemes@);
        lexemes.push(Lexeme::Number(text));
        proof {
            let number = seq![LexemeView::Number(current@)];
            assert(views(lexemes@) =~= before + number);
            lemma_followed_by_twice(before, number, lex_from(s, i as int));
        }
    }
    proof {
        assert(lex_from(s, n as int) == Ok::<Seq<LexemeView>, ErrorView>(Seq::empty()));
        assert(views(lexemes@) + Seq::<LexemeView>::empty() =~= views(lexemes@));
    }
    Ok(lexemes)
}

/// Putting `a` before `b` before the rest is putting `a + b` before the rest.
proof fn lemma_followed_by_twice(
    a: Seq<LexemeView>,
    b: Seq<LexemeView>,
    rest: Result<Seq<LexemeView>, ErrorView>,
)
    ensures
        followed_by(a, followed_by(b, rest)) == followed_by(a + b, rest),
{
    match rest {
        Ok(more) => {
            assert(a + (b + more) =~= (a + b) + more);
        },
        Err(_) => {},
    }
}

/// The text that a lexeme was read from.
pub open spec fn text_of(lexeme: LexemeView) -> Seq<char> {
    match lexeme {
        LexemeView::Number(text) => text,
        LexemeView::Operator(c) => seq![c],
    }
}

/// The texts of the lexemes, one behind the other.
pub open spec fn joined(lexemes: Seq<LexemeView>) -> Seq<char>
    decreases lexemes.len(),
{
    if lexemes.len() == 0 {
        Seq::empty()
    } else {
        text_of(lexemes[0]) + joined(lexemes.skip(1))
    }
}

/// A lexeme as the tokenizer gives it: a valid number or one of the four
/// operators.
pub open spec fn is_lexeme(lexeme: LexemeView) -> bool {
    match lexeme {
        LexemeView::Number(text) => is_literal(text),
        LexemeView::Operator(c) => is_operator(c),
    }
}

/// The lexemes of an expression from position `i` on hold all of its
/// characters from there, in order, and each is a valid number or an
/// operator.
pub proof fn lemma_lex_from_covers(s: Seq<char>, i: int)
    requires
        0 <= i <= s.len(),
        lex_from(s, i) is Ok,
    ensures
        joined(lex_from(s, i)->Ok_0) == s.skip(i),
        forall|j: int| 0 <= j < lex_from(s, i)->Ok_0.len() ==> is_lexeme(lex_from(s, i)->Ok_0[j]),
    decreases s.len() - i,
{
    let lexemes = lex_from(s, i)->Ok_0;
    if i >= s.len() {
        assert(s.skip(i) =~= Seq::empty());
    } else {
        let next = if is_literal_char(s[i]) {
            literal_end(s, i)
        } else {
            i + 1
        };
        lemma_literal_end_bounds(s, i);
        lemma_lex_from_covers(s, next);
        let more = lex_from(s, next)->Ok_0;
        let first = lexemes[0];
        assert(lexemes.skip(1) =~= more);
        assert(text_of(first) =~= s.subrange(i, next));
        assert(s.subrange(i, next) + s.skip(next) =~= s.skip(i));
        assert forall|j: int| 0 <= j < lexemes.len() implies is_lexeme(lexemes[j]) by {
            if j > 0 {
                assert(lexemes[j] == more[j - 1]);
            }
        }
    }
}

/// Nothing is lost and nothing is made up: the texts of the lexemes of an
/// expression, one behind the other, are the expression, and each lexeme is
/// a valid number or one of the four operators.
pub proof fn lemma_lex_covers(s: Seq<char>)
    requires
        lex(s) is Ok,
    ensures
        joined(lex(s)->Ok_0) == s,
        forall|j: int| 0 <= j < lex(s)->Ok_0.len() ==> is_lexeme(lex(s)->Ok_0[j]),
{
    lemma_lex_from_covers(s, 0);
    assert(s.skip(0) =~= s);
}

} // verus!

//! The ways in which an expression can fail.

use vstd::prelude::*;

verus! {

/// Why an expression was given up. Each error ends the expression at hand and
/// nothing else.
#[derive(Clone, Debug, PartialEq, Eq)]
pub enum CalcError {
    /// A character that belongs neither to a number nor to the operators.
    InvalidCharacter(char),
    /// A run of number characters that is no number; it holds the run.
    InvalidNumber(String),
    /// An operator symbol that the evaluator does not know.
    InvalidOperator(char),
    /// A division whose right operand is zero.
    DivisionByZero,
}

/// A `CalcError` with its text as a sequence of characters.
pub enum ErrorView {
    InvalidCharacter(char),
    InvalidNumber(Seq<char>),
    InvalidOperator(char),
    DivisionByZero,
}

impl View for CalcError {
    type V = ErrorView;

    open spec fn view(&self) -> ErrorView {
        match self {
            CalcError::InvalidCharacter(c) => ErrorView::InvalidCharacter(*c),
            CalcError::InvalidNumber(text) => ErrorView::InvalidNumber(text@),
            CalcError::InvalidOperator(c) => ErrorView::InvalidOperator(*c),
            CalcError::DivisionByZero => ErrorView::DivisionByZero,
        }
    }
}

/// The line that reports an error.
pub open spec fn message_of(e: ErrorView) -> Seq<char> {
    match e {
        ErrorView::InvalidCharacter(c) => "Invalid character: "@.push(c),
        ErrorView::InvalidNumber(text) => "Invalid number: "@ + text,
        ErrorView::InvalidOperator(c) => "Invalid operator: "@.push(c),
        ErrorView::DivisionByZero => "Division by zero!"@,
    }
}

impl CalcError {
    /// The message of this error, as it is shown after `Error: `.
    pub fn message(&self) -> (text: String)
        ensures
            text@ == message_of(self@),
    {
        match self {
            CalcError::InvalidCharacter(c) => {
                let mut text = "Invalid character: ".to_owned();
                text.push(*c);
                text
            },
            CalcError::InvalidNumber(number) => {
                let mut text = "Invalid number: ".to_owned();
                text.append(number.as_str());
                text
            },
            CalcError::InvalidOperator(c) => {
                let mut text = "Invalid operator: ".to_owned();
                text.push(*c);
                text
            },
            CalcError::DivisionByZero => "Division by zero!".to_owned(),
        }
    }
}

} // verus!

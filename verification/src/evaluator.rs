//! The evaluator: tokens are taken from left to right, each number at once
//! with the operator that stands before it. No operator binds more tightly
//! than another.
//!
//! The evaluator decides what is computed and what fails. The arithmetic
//! itself is done on floating-point numbers by whoever runs the steps.

use crate::double::Double;
use crate::error::CalcError;
use crate::error::ErrorView;
use vstd::prelude::*;

verus! {

/// One token of an expression.
#[derive(Clone, Copy, Debug, PartialEq, Eq, Structural)]
pub enum Token {
    /// A number.
    Number(Double),
    /// An operator symbol.
    Operator(char),
}

/// One of the four operations of arithmetic.
#[derive(Clone, Copy, Debug, PartialEq, Eq, Structural)]
pub enum Operation {
    Add,
    Subtract,
    Multiply,
    Divide,
}

/// One step of an evaluation: the accumulator becomes the accumulator,
/// `operation`, `operand`.
#[derive(Clone, Copy, Debug, PartialEq, Eq, Structural)]
pub struct Step {
    pub operation: Operation,
    pub operand: Double,
}

/// What applying the operator `op` with the right operand `right` comes to:
/// the operation that the symbol stands for, but no division by zero, and no
/// operation for a symbol that is none of the four.
pub open spec fn operation_of(right: Double, op: char) -> Result<Operation, ErrorView> {
    if op == '+' {
        Ok(Operation::Add)
    } else if op == '-' {
        Ok(Operation::Subtract)
    } else if op == '*' {
        Ok(Operation::Multiply)
    } else if op == '/' {
        if right.is_zero() {
            Err(ErrorView::DivisionByZero)
        } else {
            Ok(Operation::Divide)
        }
    } else {
        Err(ErrorView::InvalidOperator(op))
    }
}

/// Decides how the operator `op` is applied to the accumulator and the right
/// operand `right`: gives the operation to carry out, `DivisionByZero` for a
/// division by positive or negative zero, `InvalidOperator` for a symbol
/// other than `+`, `-`, `*` and `/`.
pub fn apply_operation(right: Double, op: char) -> (r: Result<Operation, CalcError>)
    ensures
        match r {
            Ok(operation) => operation_of(right, op) == Ok::<Operation, ErrorView>(operation),
            Err(e) => operation_of(right, op) == Err::<Operation, ErrorView>(e@),
        },
{
    if op == '+' {
        Ok(Operation::Add)
    } else if op == '-' {
        Ok(Operation::Subtract)
    } else if op == '*' {
        Ok(Operation::Multiply)
    } else if op == '/' {
        if right.is_zero() {
            Err(CalcError::DivisionByZero)
        } else {
            Ok(Operation::Divide)
        }
    } else {
        Err(CalcError::InvalidOperator(op))
    }
}

/// The state of an evaluation: the operator that the next number is applied
/// with, and the steps so far or the error that ended them.
pub struct Evaluation {
    pub pending: char,
    pub outcome: Result<Seq<Step>, ErrorView>,
}

/// The state before the first token: no step yet, and `+` pending, so that a
/// first number is added to the accumulator, which starts at zero.
pub open spec fn initial() -> Evaluation {
    Evaluation { pending: '+', outcome: Ok(Seq::empty()) }
}

/// The state after one more token. An operator replaces the pending one and
/// nothing is computed. A number is applied with the pending operator, which
/// stays. After an error nothing changes any more.
pub open spec fn advance(state: Evaluation, token: Token) -> Evaluation {
    match state.outcome {
        Err(_) => state,
        Ok(steps) => match token {
            Token::Operator(op) => Evaluation { pending: op, outcome: state.outcome },
            Token::Number(right) => match operation_of(right, state.pending) {
                Ok(operation) => Evaluation {
                    pending: state.pending,
                    outcome: Ok(steps.push(Step { operation, operand: right })),
                },
                Err(e) => Evaluation { pending: state.pending, outcome: Err(e) },
            },
        },
    }
}

/// The evaluation of a sequence of tokens: the left fold of `advance` over
/// them, from the initial state.
pub open spec fn evaluation(tokens: Seq<Token>) -> Evaluation {
    tokens.fold_left(initial(), |state: Evaluation, token: Token| advance(state, token))
}

/// Evaluates the tokens from left to right. Gives the steps that turn an
/// accumulator of zero into the result, in the order in which they are
/// carried out, or the first error.
pub fn calculate(tokens: &Vec<Token>) -> (r: Result<Vec<Step>, CalcError>)
    ensures
        match r {
            Ok(steps) => evaluation(tokens@).outcome == Ok::<Seq<Step>, ErrorView>(steps@),
            Err(e) => evaluation(tokens@).outcome == Err::<Seq<Step>, ErrorView>(e@),
        },
{
    let mut steps: Vec<Step> = Vec::new();
    let mut current_op = '+';
    let mut i: usize = 0;
    assert(tokens@.take(0) =~= Seq::empty());
    while i < tokens.len()
        invariant
            i <= tokens.len(),
            evaluation(tokens@.take(i as int)) == (Evaluation {
                pending: current_op,
                outcome: Ok(steps@),
            }),
        decreases tokens.len() - i,
    {
        proof {
            lemma_evaluation_step(tokens@, i as int);
        }
        match tokens[i] {
            Token::Number(num) => {
                match apply_operation(num, current_op) {
                    Ok(operation) => {
                        steps.push(Step { operation, operand: num });
                    },
                    Err(e) => {
                        proof {
                            lemma_evaluation_error_stays(tokens@, i + 1);
                        }
                        return Err(e);
                    },
                }
            },
            Token::Operator(op) => {
                current_op = op;
            },
        }
        i += 1;
    }
    assert(tokens@.take(i as int) =~= tokens@);
    Ok(steps)
}

/// The evaluation of the first `i + 1` tokens is that of the first `i`,
/// advanced by the token at `i`.
pub proof fn lemma_evaluation_step(tokens: Seq<Token>, i: int)
    requires
        0 <= i < tokens.len(),
    ensures
        evaluation(tokens.take(i + 1)) == advance(evaluation(tokens.take(i)), tokens[i]),
{
    assert(tokens.take(i + 1).drop_last() =~= tokens.take(i));
}

/// An error, once met, is the outcome of the whole evaluation.
pub proof fn lemma_evaluation_error_stays(tokens: Seq<Token>, i: int)
    requires
        0 <= i <= tokens.len(),
        evaluation(tokens.take(i)).outcome is Err,
    ensures
        evaluation(tokens).outcome == evaluation(tokens.take(i)).outcome,
    decreases tokens.len() - i,
{
    if i < tokens.len() {
        lemma_evaluation_step(tokens, i);
        lemma_evaluation_error_stays(tokens, i + 1);
    } else {
        assert(tokens.take(i) =~= tokens);
    }
}

/// Evaluation is a left fold over the tokens: it starts from the initial
/// state, and one more token at the end advances the state that the tokens
/// before it have led to.
pub proof fn lemma_evaluation_left_fold(tokens: Seq<Token>, token: Token)
    ensures
        evaluation(Seq::empty()) == initial(),
        evaluation(tokens.push(token)) == advance(evaluation(tokens), token),
{
    assert(tokens.push(token).drop_last() =~= tokens);
}

/// No operator takes precedence. An operator and a number written behind an
/// expression add one step at the end, which applies that operator to what
/// the whole expression before has come to; the steps before stay as they
/// are. The step fails where the operator is unknown or divides by zero, and
/// an expression that has failed stays failed.
pub proof fn lemma_no_precedence(tokens: Seq<Token>, op: char, right: Double)
    ensures
        evaluation(tokens.push(Token::Operator(op)).push(Token::Number(right))).outcome == (
        match evaluation(tokens).outcome {
            Ok(steps) => match operation_of(right, op) {
                Ok(operation) => Ok(steps.push(Step { operation, operand: right })),
                Err(e) => Err(e),
            },
            Err(e) => Err(e),
        }),
{
    lemma_evaluation_left_fold(tokens, Token::Operator(op));
    lemma_evaluation_left_fold(tokens.push(Token::Operator(op)), Token::Number(right));
}

} // verus!

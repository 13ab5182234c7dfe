use rcalc::double::Double;
use rcalc::error::CalcError;
use rcalc::evaluator::apply_operation;
use rcalc::evaluator::calculate;
use rcalc::evaluator::Operation;
use rcalc::evaluator::Step;
use rcalc::evaluator::Token;
use rcalc::tokenizer::tokenize;
use rcalc::tokenizer::Lexeme;

fn double(value: f64) -> Double {
    Double::from_bits(value.to_bits())
}

fn run(steps: &[Step]) -> f64 {
    let mut accumulator = 0.0;
    for step in steps {
        let right = f64::from_bits(step.operand.bits);
        accumulator = match step.operation {
            Operation::Add => accumulator + right,
            Operation::Subtract => accumulator - right,
            Operation::Multiply => accumulator * right,
            Operation::Divide => accumulator / right,
        };
    }
    accumulator
}

fn evaluate(expr: &str) -> Result<f64, String> {
    let lexemes = tokenize(expr).map_err(|e| e.message())?;
    let mut tokens = Vec::new();
    for lexeme in lexemes {
        tokens.push(match lexeme {
            Lexeme::Number(text) => Token::Number(double(text.parse::<f64>().unwrap())),
            Lexeme::Operator(symbol) => Token::Operator(symbol),
        });
    }
    let steps = calculate(&tokens).map_err(|e| e.message())?;
    Ok(run(&steps))
}

#[test]
fn no_operator_precedence() {
    assert_eq!(evaluate("2+3*4"), Ok(20.0));
}

#[test]
fn leading_operator_works_on_zero() {
    assert_eq!(evaluate("-5+3"), Ok(-2.0));
}

#[test]
fn division_by_zero_is_an_error() {
    assert_eq!(evaluate("5/0"), Err("Division by zero!".to_string()));
    assert_eq!(evaluate("5/0.0"), Err("Division by zero!".to_string()));
    assert_eq!(evaluate("1+2/0e5*3"), Err("Division by zero!".to_string()));
}

#[test]
fn division_by_a_number_that_rounds_to_zero() {
    assert_eq!(evaluate("1/1e-400"), Err("Division by zero!".to_string()));
}

#[test]
fn last_operator_before_a_number_counts() {
    // the division is replaced by the subtraction before a number arrives
    assert_eq!(evaluate("5/-0"), Ok(5.0));
    assert_eq!(evaluate("2*+3"), Ok(5.0));
}

#[test]
fn numbers_without_operator_between_them_are_separate_lexemes_only_through_operators() {
    assert_eq!(evaluate("10/4"), Ok(2.5));
    assert_eq!(evaluate("3"), Ok(3.0));
    assert_eq!(evaluate(""), Ok(0.0));
    assert_eq!(evaluate("1e3-1"), Ok(999.0));
    assert_eq!(evaluate("2e-1*10"), Ok(2.0));
    assert_eq!(evaluate("7+"), Ok(7.0));
}

#[test]
fn invalid_input_is_reported() {
    assert_eq!(evaluate("12..3+4"), Err("Invalid number: 12..3".to_string()));
    assert_eq!(evaluate("2^3"), Err("Invalid character: ^".to_string()));
    // the next expression is not touched by the failure
    assert_eq!(evaluate("12.3+4"), Ok(16.3));
}

#[test]
fn operation_for_each_symbol() {
    let three = double(3.0);
    assert_eq!(apply_operation(three, '+'), Ok(Operation::Add));
    assert_eq!(apply_operation(three, '-'), Ok(Operation::Subtract));
    assert_eq!(apply_operation(three, '*'), Ok(Operation::Multiply));
    assert_eq!(apply_operation(three, '/'), Ok(Operation::Divide));
}

#[test]
fn division_by_either_zero() {
    assert_eq!(apply_operation(double(0.0), '/'), Err(CalcError::DivisionByZero));
    assert_eq!(apply_operation(double(-0.0), '/'), Err(CalcError::DivisionByZero));
    assert_eq!(
        apply_operation(double(0.0), '/').unwrap_err().message(),
        "Division by zero!"
    );
    assert_eq!(apply_operation(double(0.0), '*'), Ok(Operation::Multiply));
    assert_eq!(apply_operation(double(5e-324), '/'), Ok(Operation::Divide));
    assert_eq!(apply_operation(double(f64::NAN), '/'), Ok(Operation::Divide));
}

#[test]
fn unknown_operator_is_an_error() {
    assert_eq!(apply_operation(double(1.0), '%'), Err(CalcError::InvalidOperator('%')));
    assert_eq!(
        apply_operation(double(1.0), '%').unwrap_err().message(),
        "Invalid operator: %"
    );
    assert_eq!(apply_operation(double(0.0), '^'), Err(CalcError::InvalidOperator('^')));
}

#[test]
fn steps_pair_each_number_with_the_operator_before_it() {
    let tokens = vec![
        Token::Number(double(2.0)),
        Token::Operator('+'),
        Token::Number(double(3.0)),
        Token::Operator('*'),
        Token::Number(double(4.0)),
    ];
    assert_eq!(
        calculate(&tokens),
        Ok(vec![
            Step { operation: Operation::Add, operand: double(2.0) },
            Step { operation: Operation::Add, operand: double(3.0) },
            Step { operation: Operation::Multiply, operand: double(4.0) },
        ])
    );
}

#[test]
fn pending_operator_stays_for_the_next_number() {
    let tokens = vec![
        Token::Operator('-'),
        Token::Number(double(1.0)),
        Token::Number(double(2.0)),
    ];
    assert_eq!(
        calculate(&tokens),
        Ok(vec![
            Step { operation: Operation::Subtract, operand: double(1.0) },
            Step { operation: Operation::Subtract, operand: double(2.0) },
        ])
    );
}

#[test]
fn unknown_operator_fails_when_a_number_meets_it() {
    let tokens = vec![Token::Operator('%'), Token::Number(double(1.0))];
    assert_eq!(calculate(&tokens), Err(CalcError::InvalidOperator('%')));
    let replaced = vec![
        Token::Operator('%'),
        Token::Operator('+'),
        Token::Number(double(1.0)),
    ];
    assert_eq!(
        calculate(&replaced),
        Ok(vec![Step { operation: Operation::Add, operand: double(1.0) }])
    );
    let unused = vec![Token::Number(double(1.0)), Token::Operator('%')];
    assert_eq!(
        calculate(&unused),
        Ok(vec![Step { operation: Operation::Add, operand: double(1.0) }])
    );
}

#[test]
fn first_error_wins() {
    let tokens = vec![
        Token::Number(double(1.0)),
        Token::Operator('/'),
        Token::Number(double(0.0)),
        Token::Operator('%'),
        Token::Number(double(2.0)),
    ];
    assert_eq!(calculate(&tokens), Err(CalcError::DivisionByZero));
    let other = vec![
        Token::Operator('%'),
        Token::Number(double(2.0)),
        Token::Operator('/'),
        Token::Number(double(0.0)),
    ];
    assert_eq!(calculate(&other), Err(CalcError::InvalidOperator('%')));
}

#[test]
fn no_tokens_no_steps() {
    assert_eq!(calculate(&vec![]), Ok(vec![]));
}

pub mod bigint;
pub mod decimal;
pub mod double;
pub mod error;
pub mod evaluator;
pub mod exactness;
pub mod formatter;
pub mod scientific;
pub mod text;
pub mod tokenizer;

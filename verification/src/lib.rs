//! The core of an interactive calculator of any precision: text in, a
//! number or a set of errors out.
//!
//! A line goes through `token::tokenize`, `parser::parse` and
//! `eval::EvalContext::eval`; `session::eval_line` does all three.
//! Integers are exact and of any size, and their arithmetic is done here.
//! Floats carry their precision; what is computed on them, and at which
//! precision, is decided here, and the computing is left to an arithmetic
//! service that the caller brings (see `number`).
pub mod ast;
pub mod bindings;
pub mod error;
pub mod eval;
pub mod float;
pub mod integer;
pub mod limbs;
pub mod magnitude;
pub mod number;
pub mod parser;
pub mod prompt_helper;
pub mod scan;
pub mod session;
pub mod text;
pub mod token;

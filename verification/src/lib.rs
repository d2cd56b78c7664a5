//! A minimal expression-language front end: a tokenizer with one-token
//! pushback, and a recursive-descent evaluator over four precedence tiers
//! (additive, multiplicative, power, primary) that computes a dynamically
//! typed value (number or text) while it parses.

pub mod token;
pub mod lexer;
pub mod value;
pub mod parser;

//! A reverse Polish notation evaluator.
//!
//! An expression is a line of text made of whitespace-separated tokens: decimal
//! literals and the four binary operators `+ - * /`. Evaluation runs a stack
//! machine over the tokens from left to right. The arithmetic itself is supplied
//! by the caller, so the same verified machine serves any numeric domain.

pub mod error;
pub mod eval;
pub mod laws;
pub mod lexer;
pub mod literal;
pub mod term;
pub mod token;

pub use error::EvalError;
pub use eval::{apply_binary, evaluate};
pub use lexer::{is_separator, tokenize};
pub use literal::is_numeric;
pub use token::{classify, Operator, TokenKind};

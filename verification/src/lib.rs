//! A small expression lexer: it splits a flat arithmetic-expression string
//! into classified tokens (numeric operands, single-character operators, and
//! runs of other text), then resolves which minus signs act as unary negation
//! and folds them into the operand that follows.

pub mod folding;
pub mod grouping;
pub mod lexer;
pub mod models;

pub use lexer::Lexer;
pub use models::Token;
pub use models::TokenType;

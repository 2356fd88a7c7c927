//! Front end of a small expression language.
//!
//! The [`lexer`] turns source text into [`token`]s, one on each call. The
//! [`parser`] pulls these tokens and builds the syntax tree of [`ast`] by
//! precedence climbing over the levels of [`precedence`]; it gathers the
//! failures of [`error`] rather than stopping at the first. The module
//! [`grammar`] says what the parser makes of a stream of tokens, and
//! [`shape`] and [`laws`] hold what follows from that.

pub mod ast;
pub mod decimal;
pub mod error;
pub mod grammar;
pub mod laws;
pub mod lexer;
pub mod parser;
pub mod precedence;
pub mod shape;
pub mod token;

pub use crate::lexer::Lexer;
pub use crate::parser::Parser;
pub use crate::token::Token;

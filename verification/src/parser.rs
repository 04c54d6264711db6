//! XPath 1.0 expression parser.
//!
//! The grammar is that of XPath 1.0, with the precedence climbing written
//! out rather than generated, so an error says what it met, or where.

pub mod ast;
pub mod grammar;
pub mod lexer;
pub mod parts;
pub mod spelling;
pub mod wording;
pub mod written;

pub use crate::parser::ast::{Axis, BinaryOp, Expr, NameTest, Step};
pub use crate::parser::lexer::{tokenize, Token};
pub use crate::parser::grammar::parse;

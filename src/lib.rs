//! Lexing and parsing of arithmetic expressions over integers with
//! `+ - * / ^`, parentheses and unary signs, with line and column diagnostics.
//!
//! The lexer and the shunting-yard parser are specified by the spec functions
//! in their modules; every executable function is proved against them.
use vstd::prelude::*;

pub mod error;
pub mod lexer;
pub mod parser;
pub mod usage;

pub use error::{Error, ErrorKind};
pub use lexer::{Lexer, Ops, Token};
pub use parser::{parse, AstNode, Parser, PendingOp};

verus! {

} // verus!

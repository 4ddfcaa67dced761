//! The tokens of the language.

use crate::symbol::{Keyword, Symbol};
use vstd::prelude::*;

verus! {

/// The three kinds of brackets.
#[derive(Clone, Copy, Debug, PartialEq, Eq, Hash, Structural)]
pub enum Delim {
    Paren,
    Bracket,
    Brace,
}

/// The operators that also have a compound assignment form.
#[derive(Clone, Copy, Debug, PartialEq, Eq, Hash, Structural)]
pub enum BinOp {
    Plus,
    Minus,
    Star,
    Slash,
    Ampersand,
    Pipe,
    Caret,
}

/// A token of the language.
///
/// `Ident` holds the symbol of the identifier; `Real` and `String` hold the symbol of the
/// literal as it is written in the source, the `$` or the quotes included.
#[derive(Clone, Copy, Debug, PartialEq, Eq, Hash, Structural)]
pub enum Token {
    Eof,
    Ident(Symbol),
    Keyword(Keyword),
    Real(Symbol),
    String(Symbol),
    OpenDelim(Delim),
    CloseDelim(Delim),
    Eq,
    ColonEq,
    EqEq,
    Ne,
    Lt,
    Le,
    Ge,
    Gt,
    BinOp(BinOp),
    BinOpEq(BinOp),
    And,
    Or,
    Xor,
    Bang,
    Tilde,
    Shl,
    Shr,
    Dot,
    Comma,
    Semicolon,
    Colon,
}

} // verus!

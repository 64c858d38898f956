//! Tokens: what the lexer emits and the later stages consume.

use crate::tokenizer::{Associativity, Operator};
use vstd::prelude::*;

verus! {

/// The kinds of token.
#[derive(Clone, Copy, Debug, PartialEq, Eq, Structural)]
pub enum TokenKind {
    /// A run of digits, decimal points and separators, with an optional leading minus.
    Number,
    Operator(Operator),
    OpenParen,
    CloseParen,
}

impl TokenKind {
    pub open spec fn spec_get_prec(&self) -> Option<u8> {
        match self {
            TokenKind::Operator(op) => Some(op.spec_precedence()),
            _ => None,
        }
    }

    pub open spec fn spec_get_assoc(&self) -> Option<Associativity> {
        match self {
            TokenKind::Operator(op) => Some(op.spec_associativity()),
            _ => None,
        }
    }

    pub open spec fn spec_is_operator(&self) -> bool {
        self is Operator
    }

    /// The precedence of an operator token; other tokens have none.
    #[verifier::when_used_as_spec(spec_get_prec)]
    pub fn get_prec(&self) -> (r: Option<u8>)
        ensures
            r == self.spec_get_prec(),
    {
        match self {
            TokenKind::Operator(op) => Some(op.precedence()),
            _ => None,
        }
    }

    /// The associativity of an operator token; other tokens have none.
    #[verifier::when_used_as_spec(spec_get_assoc)]
    pub fn get_assoc(&self) -> (r: Option<Associativity>)
        ensures
            r == self.spec_get_assoc(),
    {
        match self {
            TokenKind::Operator(op) => Some(op.associativity()),
            _ => None,
        }
    }

    #[verifier::when_used_as_spec(spec_is_operator)]
    pub fn is_operator(&self) -> (r: bool)
        ensures
            r == self.spec_is_operator(),
    {
        match self {
            TokenKind::Operator(_) => true,
            _ => false,
        }
    }
}

/// A token and the place in the source text that it was read from: the characters from
/// `start` up to, but not including, `end`.
#[derive(Clone, Copy, Debug, PartialEq, Eq, Structural)]
pub struct Token {
    pub kind: TokenKind,
    pub start: usize,
    pub end: usize,
}

impl Token {
    pub fn new(start: usize, end: usize, kind: TokenKind) -> (r: Token)
        ensures
            r == (Token { kind, start, end }),
    {
        Token { kind, start, end }
    }
}

} // verus!

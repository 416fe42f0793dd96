//! Tokens and the character classes of the language.

use vstd::prelude::*;
use crate::position::Position;

verus! {

/// What a token is. Punctuation has one kind per mark; comments are tokens
/// of their own, and whitespace is the trivia in front of a token.
#[derive(Clone, Copy, Debug, PartialEq, Eq, Structural)]
pub enum TokenKind {
    Identifier,
    Str,
    Number,
    LeftBrace,
    RightBrace,
    LeftBracket,
    RightBracket,
    Equals,
    Comma,
    LineComment,
    BlockComment,
    Error,
}

/// A token of a text: its kind, the offset at which the whitespace in front
/// of it begins, and the offsets and positions of its first code point and
/// of the code point after its last. The token's text is the source
/// between `start` and `end`.
#[derive(Clone, Copy, Debug, PartialEq, Eq, Structural)]
pub struct Token {
    pub kind: TokenKind,
    pub trivia_start: usize,
    pub start: usize,
    pub end: usize,
    pub start_pos: Position,
    pub end_pos: Position,
}

pub open spec fn is_space(c: char) -> bool {
    c == ' ' || c == '\t' || c == '\r' || c == '\n'
}

pub open spec fn is_digit(c: char) -> bool {
    '0' <= c && c <= '9'
}

pub open spec fn is_ident_start(c: char) -> bool {
    ('a' <= c && c <= 'z') || ('A' <= c && c <= 'Z') || c == '_'
}

pub open spec fn is_ident_part(c: char) -> bool {
    is_ident_start(c) || is_digit(c)
}

/// The characters that may follow a backslash inside a string literal.
pub open spec fn is_escape(c: char) -> bool {
    c == '"' || c == '\\' || c == 'n' || c == 't' || c == 'r'
}

pub fn space(c: char) -> (b: bool)
    ensures
        b == is_space(c),
{
    c == ' ' || c == '\t' || c == '\r' || c == '\n'
}

pub fn digit(c: char) -> (b: bool)
    ensures
        b == is_digit(c),
{
    '0' <= c && c <= '9'
}

pub fn ident_start(c: char) -> (b: bool)
    ensures
        b == is_ident_start(c),
{
    ('a' <= c && c <= 'z') || ('A' <= c && c <= 'Z') || c == '_'
}

pub fn ident_part(c: char) -> (b: bool)
    ensures
        b == is_ident_part(c),
{
    ident_start(c) || digit(c)
}

pub fn escape(c: char) -> (b: bool)
    ensures
        b == is_escape(c),
{
    c == '"' || c == '\\' || c == 'n' || c == 't' || c == 'r'
}

impl TokenKind {
    /// Comments carry no meaning: the parser passes over them.
    pub open spec fn is_comment(self) -> bool {
        self == TokenKind::LineComment || self == TokenKind::BlockComment
    }

    pub fn comment(self) -> (b: bool)
        ensures
            b == self.is_comment(),
    {
        self == TokenKind::LineComment || self == TokenKind::BlockComment
    }
}

} // verus!

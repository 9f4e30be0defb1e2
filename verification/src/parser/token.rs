//! Typed tokens produced by the tokenizer: a kind, a half-open byte range
//! and the nesting depth at which the token was emitted.

use vstd::prelude::*;

verus! {

#[derive(Debug, Clone, Copy, PartialEq, Eq, Structural)]
pub enum TokenKind {
    BraceOpen,
    BraceClose,
    BracketOpen,
    BracketClose,
    Colon,
    Comma,
    String,
    Number,
    True,
    False,
    Null,
    Whitespace,
    Invalid,
}

impl TokenKind {
    /// Short text used by status displays; structural punctuation shows the
    /// punctuation itself, everything else its kind name.
    pub fn display(&self) -> (r: String)
        ensures
            r@ == self.display_spec(),
    {
        match self {
            TokenKind::BraceOpen => String::from_str("{"),
            TokenKind::BraceClose => String::from_str("}"),
            TokenKind::BracketOpen => String::from_str("["),
            TokenKind::BracketClose => String::from_str("]"),
            TokenKind::Colon => String::from_str(":"),
            TokenKind::Comma => String::from_str(","),
            TokenKind::String => String::from_str("String"),
            TokenKind::Number => String::from_str("Number"),
            TokenKind::True => String::from_str("true"),
            TokenKind::False => String::from_str("false"),
            TokenKind::Null => String::from_str("null"),
            TokenKind::Whitespace => String::from_str("Whitespace"),
            TokenKind::Invalid => String::from_str("Invalid"),
        }
    }

    pub open spec fn display_spec(&self) -> Seq<char> {
        match self {
            TokenKind::BraceOpen => "{"@,
            TokenKind::BraceClose => "}"@,
            TokenKind::BracketOpen => "["@,
            TokenKind::BracketClose => "]"@,
            TokenKind::Colon => ":"@,
            TokenKind::Comma => ","@,
            TokenKind::String => "String"@,
            TokenKind::Number => "Number"@,
            TokenKind::True => "true"@,
            TokenKind::False => "false"@,
            TokenKind::Null => "null"@,
            TokenKind::Whitespace => "Whitespace"@,
            TokenKind::Invalid => "Invalid"@,
        }
    }
}

#[derive(Debug, Clone, Copy, PartialEq, Eq, Structural)]
pub struct Token {
    pub kind: TokenKind,
    /// First byte of the token (inclusive).
    pub start: usize,
    /// One past the last byte of the token (exclusive).
    pub end: usize,
    /// Nesting depth at emission time; an opening bracket records the depth
    /// before its own nesting change.
    pub depth: u32,
}

impl Token {
    pub fn new(kind: TokenKind, start: usize, end: usize, depth: u32) -> (t: Token)
        ensures
            t == (Token { kind, start, end, depth }),
    {
        Token { kind, start, end, depth }
    }

    /// Number of bytes the token spans.
    pub fn len(&self) -> (r: usize)
        requires
            self.start <= self.end,
        ensures
            r == self.end - self.start,
    {
        self.end - self.start
    }

    pub fn is_empty(&self) -> (r: bool)
        ensures
            r == (self.start >= self.end),
    {
        self.start >= self.end
    }
}

} // verus!

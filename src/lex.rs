//! Source positions and tokens of the front end.
use vstd::prelude::*;

verus! {

/// A range of byte offsets in a source file.
#[derive(Clone, Copy, PartialEq, Eq, Hash, Debug, Structural)]
pub struct Span {
    lo: usize,
    hi: usize,
}

impl Span {
    pub closed spec fn spec_lo(&self) -> usize {
        self.lo
    }

    pub closed spec fn spec_hi(&self) -> usize {
        self.hi
    }

    pub fn new(lo: usize, hi: usize) -> (r: Span)
        ensures
            r.spec_lo() == lo,
            r.spec_hi() == hi,
    {
        Span { lo, hi }
    }

    pub fn lo(&self) -> (r: usize)
        ensures
            r == self.spec_lo(),
    {
        self.lo
    }

    pub fn hi(&self) -> (r: usize)
        ensures
            r == self.spec_hi(),
    {
        self.hi
    }

    /// The smallest span that covers both.
    pub fn to(self, other: Span) -> (r: Span)
        ensures
            r.spec_lo() == if self.spec_lo() <= other.spec_lo() {
                self.spec_lo()
            } else {
                other.spec_lo()
            },
            r.spec_hi() == if self.spec_hi() >= other.spec_hi() {
                self.spec_hi()
            } else {
                other.spec_hi()
            },
    {
        let lo = if self.lo <= other.lo {
            self.lo
        } else {
            other.lo
        };
        let hi = if self.hi >= other.hi {
            self.hi
        } else {
            other.hi
        };
        Span::new(lo, hi)
    }
}

/// A name in the source, with where it stands.
#[derive(Clone, Debug)]
pub struct Ident {
    pub span: Span,
    /// The name's bytes.
    pub symbol: Vec<u8>,
}

/// What went wrong while scanning.
#[derive(Debug, Clone, Copy, PartialEq, Eq)]
pub enum ErrorKind {
    UnexpectedCharacter(char),
    UnterminatedString,
    UnclosedComment,
    InvalidFloat,
    InvalidInt,
}

/// A scanning error and the line it was found on.
#[derive(Debug, Clone, Copy)]
pub struct Error {
    pub line: u32,
    pub kind: ErrorKind,
}

/// The kind of a token.
#[derive(Debug, Clone)]
pub enum TokenKind {
    LeftParen,
    RightParen,
    LeftBrace,
    RightBrace,
    RArrow,
    Comma,
    Colon,
    Dot,
    Minus,
    Plus,
    Semicolon,
    Star,
    Not,
    NotEq,
    Eq,
    EqEq,
    Greater,
    GreaterEq,
    Less,
    LessEq,
    Slash,
    /// The bytes between the quotes of a string literal.
    String(Vec<u8>),
    Integer(u128),
    Keyword(Ident),
    Ident(Ident),
    Eof,
}

/// A token and where it stands.
#[derive(Clone, Debug)]
pub struct Token {
    pub kind: TokenKind,
    pub span: Span,
}

impl Token {
    /// A placeholder token: a dot over the empty span at offset zero.
    pub fn dummy() -> (r: Token)
        ensures
            r.kind is Dot,
            r.span.spec_lo() == 0,
            r.span.spec_hi() == 0,
    {
        Token { kind: TokenKind::Dot, span: Span { lo: 0, hi: 0 } }
    }
}

/// Marks that errors were found and reported.
#[derive(Clone, Copy, PartialEq, Eq, Hash, Debug)]
pub struct ErrorReported;

} // verus!

//! Tokens of Wafer source text.
use vstd::prelude::*;

verus! {

/// The kinds of token. Keywords are never identifiers.
#[derive(Debug, PartialEq, Eq, Clone, Copy, Structural)]
pub enum TokenKind {
    Identifier,
    Number,
    Str,
    Func,
    Extern,
    Public,
    Let,
    If,
    Else,
    While,
    And,
    Or,
    LeftParen,
    RightParen,
    LeftBrace,
    RightBrace,
    LeftBracket,
    RightBracket,
    Comma,
    Semicolon,
    Equals,
    ColonEquals,
    Plus,
    Minus,
    Star,
    Slash,
    EqualEqual,
    NotEqual,
    Less,
    LessEqual,
    Greater,
    GreaterEqual,
}

/// A token: its kind, the name or string contents that it carries (empty for
/// other kinds), the value of a number (zero for other kinds), and the
/// characters of the source that it spans, `start..end`.
#[derive(Debug)]
pub struct Token {
    pub kind: TokenKind,
    pub text: String,
    pub value: u32,
    pub start: usize,
    pub end: usize,
}

/// A token as a mathematical value: its kind, the text it carries and its value.
pub type TokenView = (TokenKind, Seq<char>, nat);

impl View for Token {
    type V = TokenView;

    /// Only names and string literals carry text, and only numbers a value.
    open spec fn view(&self) -> TokenView {
        match self.kind {
            TokenKind::Identifier => identifier(self.text@),
            TokenKind::Str => string(self.text@),
            TokenKind::Number => number(self.value as nat),
            _ => mark(self.kind),
        }
    }
}

/// The view of each token in turn.
pub open spec fn token_views(tokens: Seq<Token>) -> Seq<TokenView> {
    tokens.map_values(|t: Token| t@)
}

/// A token that carries nothing: a keyword or a punctuation mark.
pub open spec fn mark(kind: TokenKind) -> TokenView {
    (kind, Seq::empty(), 0)
}

pub open spec fn identifier(name: Seq<char>) -> TokenView {
    (TokenKind::Identifier, name, 0)
}

pub open spec fn number(value: nat) -> TokenView {
    (TokenKind::Number, Seq::empty(), value)
}

pub open spec fn string(contents: Seq<char>) -> TokenView {
    (TokenKind::Str, contents, 0)
}

} // verus!

//! Lexical tokens of the markup language.
use vstd::prelude::*;

verus! {

/// One lexical symbol. Identifier payloads borrow from the source text.
#[derive(Debug, Clone, Copy, PartialEq, Eq)]
pub enum Token<'a> {
    /// `<`
    OpenTagStart,
    /// `</`
    CloseTagStart,
    /// `>`
    TagEnd,
    /// `"`
    Quote,
    /// `=`
    Equals,
    /// A maximal run of alphanumeric characters, e.g. `cat12`.
    Identifier(&'a str),
    /// End of input.
    EOF,
}

/// The kind of the next token in a piece of source text: a token variant
/// with the identifier payload left out, or `Unknown` when no token can
/// start there.
pub enum TokenKind {
    OpenTagStart,
    CloseTagStart,
    TagEnd,
    Quote,
    Equals,
    Identifier,
    EOF,
    Unknown,
}

/// The mathematical value of a token: its variant, with an identifier's
/// payload as a sequence of characters.
pub enum TokenV {
    OpenTagStart,
    CloseTagStart,
    TagEnd,
    Quote,
    Equals,
    Identifier(Seq<char>),
    EOF,
}

impl<'a> Token<'a> {
    /// The variant of this token, payload ignored.
    pub open spec fn kind(self) -> TokenKind {
        match self {
            Token::OpenTagStart => TokenKind::OpenTagStart,
            Token::CloseTagStart => TokenKind::CloseTagStart,
            Token::TagEnd => TokenKind::TagEnd,
            Token::Quote => TokenKind::Quote,
            Token::Equals => TokenKind::Equals,
            Token::Identifier(_) => TokenKind::Identifier,
            Token::EOF => TokenKind::EOF,
        }
    }

    /// True exactly when the two tokens are the same variant; identifier
    /// payloads are ignored.
    pub fn same_type(&self, other: &Token<'_>) -> (r: bool)
        ensures
            r == (self.kind() == other.kind()),
    {
        match (self, other) {
            (Token::OpenTagStart, Token::OpenTagStart) => true,
            (Token::CloseTagStart, Token::CloseTagStart) => true,
            (Token::TagEnd, Token::TagEnd) => true,
            (Token::Quote, Token::Quote) => true,
            (Token::Equals, Token::Equals) => true,
            (Token::Identifier(_), Token::Identifier(_)) => true,
            (Token::EOF, Token::EOF) => true,
            _ => false,
        }
    }
}

impl<'a> View for Token<'a> {
    type V = TokenV;

    open spec fn view(&self) -> TokenV {
        match *self {
            Token::OpenTagStart => TokenV::OpenTagStart,
            Token::CloseTagStart => TokenV::CloseTagStart,
            Token::TagEnd => TokenV::TagEnd,
            Token::Quote => TokenV::Quote,
            Token::Equals => TokenV::Equals,
            Token::Identifier(s) => TokenV::Identifier(s@),
            Token::EOF => TokenV::EOF,
        }
    }
}

impl TokenV {
    /// The variant of this token value, payload ignored.
    pub open spec fn kind(self) -> TokenKind {
        match self {
            TokenV::OpenTagStart => TokenKind::OpenTagStart,
            TokenV::CloseTagStart => TokenKind::CloseTagStart,
            TokenV::TagEnd => TokenKind::TagEnd,
            TokenV::Quote => TokenKind::Quote,
            TokenV::Equals => TokenKind::Equals,
            TokenV::Identifier(_) => TokenKind::Identifier,
            TokenV::EOF => TokenKind::EOF,
        }
    }
}

} // verus!

//! The tokens of a declaration and the errors reported on them.

use vstd::prelude::*;

verus! {

/// A punctuation mark of the grammar of declarations.
#[derive(Debug, Clone, Copy, PartialEq, Eq, Structural)]
pub enum Punct {
    Colon,
    Semi,
    Comma,
    OpenBracket,
    CloseBracket,
}

/// A literal.
#[derive(Debug, Clone, Copy, PartialEq, Eq, Structural)]
pub enum Literal {
    /// An unsigned integer literal, with its value.
    Int(u64),
    /// `true` or `false`.
    Bool(bool),
    /// A literal of another kind.
    Other,
}

/// A token of a declaration.
#[derive(Debug, PartialEq, Eq)]
pub enum Token {
    /// The first token of an outer attribute, or a doc comment. The number tells the attribute
    /// from others, and `rest` counts the tokens after the first that belong to it.
    Attribute { number: usize, rest: usize },
    /// The keyword `pub`.
    Pub,
    /// An identifier.
    Ident(String),
    /// A keyword that, in the place of an identifier, is an error and yet read as one.
    Keyword(String),
    Literal(Literal),
    Punct(Punct),
    /// A token that the grammar has no use for.
    Other,
}

/// What an error is about.
#[derive(Debug, Clone, Copy, PartialEq, Eq, Structural)]
pub enum ErrorKind {
    /// A literal that is no unsigned integer.
    UnsignedLiteral,
    /// The length of array elements is out of range.
    ElementLength,
    /// The number of array elements is zero.
    ElementCount,
    /// The length of a field is out of range.
    FieldLength,
    /// A punctuation mark is missing.
    ExpectedPunct(Punct),
    /// An identifier is missing, or a keyword stands in its place.
    ExpectedIdent,
    /// A literal is missing.
    ExpectedLiteral,
}

/// An error, and the number of the token that it is reported on. An error at the end of the
/// declaration has the number of tokens in its place.
#[derive(Debug, Clone, Copy, PartialEq, Eq, Structural)]
pub struct Diagnostic {
    pub kind: ErrorKind,
    pub at: usize,
}

impl ErrorKind {
    /// The text of the error. A missing token has none: it is for the reader of the tokens to say
    /// what stands there instead.
    pub open spec fn text(self) -> Option<Seq<char>> {
        match self {
            ErrorKind::UnsignedLiteral => Some("unsigned integer literal expected"@),
            ErrorKind::ElementLength => Some("Elements length must be > 0 and <= 64"@),
            ErrorKind::ElementCount => Some("Elements count must be > 0"@),
            ErrorKind::FieldLength => Some("Field length must be > 0 and <= 64"@),
            _ => None,
        }
    }
}

impl Diagnostic {
    /// Returns the text of the error; `None` for a missing token.
    pub fn message(&self) -> (message: Option<String>)
        ensures
            match self.kind.text() {
                Some(text) => message matches Some(m) && m@ == text,
                None => message is None,
            },
    {
        match self.kind {
            ErrorKind::UnsignedLiteral => Some("unsigned integer literal expected".to_owned()),
            ErrorKind::ElementLength => Some("Elements length must be > 0 and <= 64".to_owned()),
            ErrorKind::ElementCount => Some("Elements count must be > 0".to_owned()),
            ErrorKind::FieldLength => Some("Field length must be > 0 and <= 64".to_owned()),
            _ => None,
        }
    }
}

} // verus!

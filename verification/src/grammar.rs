//! How a declaration is read from its tokens, and how reading goes on after an error.

use vstd::prelude::*;

use crate::ast::Attribute;
use crate::layout::FieldView;
use crate::token::{Diagnostic, ErrorKind, Literal, Punct, Token};

verus! {

/// A reader of tokens: how many of them are behind it, and the errors reported so far.
#[verifier::ext_equal]
pub struct Reader {
    pub tokens: Seq<Token>,
    pub pos: nat,
    pub diagnostics: Seq<Diagnostic>,
}

impl Reader {
    /// The reader in front of the first token.
    pub open spec fn start(tokens: Seq<Token>) -> Reader {
        Reader { tokens, pos: 0, diagnostics: Seq::empty() }
    }

    pub open spec fn wf(self) -> bool {
        self.pos <= self.tokens.len() <= usize::MAX
    }

    /// Whether no token is left.
    pub open spec fn at_end(self) -> bool {
        self.pos >= self.tokens.len()
    }

    /// The next token, if there is one.
    pub open spec fn peek(self) -> Option<Token> {
        if self.at_end() {
            None
        } else {
            Some(self.tokens[self.pos as int])
        }
    }

    /// Goes past the next token; stays at the end.
    pub open spec fn bump(self) -> Reader {
        if self.at_end() {
            self
        } else {
            Reader { pos: self.pos + 1, ..self }
        }
    }

    /// Reports an error on token `at`.
    pub open spec fn report(self, kind: ErrorKind, at: int) -> Reader {
        Reader {
            diagnostics: self.diagnostics.push(Diagnostic { kind, at: at as usize }),
            ..self
        }
    }

    /// Whether the next token is `punct`.
    pub open spec fn sees(self, punct: Punct) -> bool {
        self.peek() == Some(Token::Punct(punct))
    }

    /// Goes past `punct`, if it is the next token.
    pub open spec fn eat(self, punct: Punct) -> Reader {
        if self.sees(punct) {
            self.bump()
        } else {
            self
        }
    }

    /// Goes past `punct`. Any other token is an error; the reader goes past it too.
    pub open spec fn expect(self, punct: Punct) -> Reader {
        if self.sees(punct) {
            self.bump()
        } else {
            self.report(ErrorKind::ExpectedPunct(punct), self.pos as int).bump()
        }
    }

    /// Goes past `n` tokens; stops at the end.
    pub open spec fn skip(self, n: nat) -> Reader {
        if self.pos + n <= self.tokens.len() {
            Reader { pos: self.pos + n, ..self }
        } else {
            Reader { pos: self.tokens.len(), ..self }
        }
    }

    /// The attributes that come next, after those in `read`, and the reader past them.
    pub open spec fn more_attributes(self, read: Seq<Attribute>) -> (Seq<Attribute>, Reader)
        decreases self.tokens.len() - self.pos,
    {
        match self.peek() {
            Some(Token::Attribute { number, rest }) => self.skip(
                1 + rest as nat,
            ).more_attributes(read.push(Attribute::Outer(number))),
            _ => (read, self),
        }
    }

    /// The attributes that come next.
    pub open spec fn attributes(self) -> Seq<Attribute> {
        self.more_attributes(Seq::empty()).0
    }

    /// Goes past the attributes that come next.
    pub open spec fn skip_attributes(self) -> Reader {
        self.more_attributes(Seq::empty()).1
    }

    /// Whether the next token is `pub`.
    pub open spec fn sees_pub(self) -> bool {
        self.peek() == Some(Token::Pub)
    }

    /// Goes past `pub`, if it is the next token.
    pub open spec fn eat_pub(self) -> Reader {
        if self.sees_pub() {
            self.bump()
        } else {
            self
        }
    }

    /// The name that the next token stands for, and the reader past that token. A keyword is an
    /// error and is read as a name. Any other token is an error, and then there is no name.
    pub open spec fn name(self) -> (Option<Seq<char>>, Reader) {
        let reported = self.report(ErrorKind::ExpectedIdent, self.pos as int);
        match self.peek() {
            Some(Token::Ident(name)) => (Some(name@), self.bump()),
            Some(Token::Keyword(name)) => (Some(name@), reported.bump()),
            Some(Token::Pub) => (Some("pub"@), reported.bump()),
            Some(Token::Literal(Literal::Bool(true))) => (Some("true"@), reported.bump()),
            Some(Token::Literal(Literal::Bool(false))) => (Some("false"@), reported.bump()),
            _ => (None, reported),
        }
    }

    /// The number that the next token stands for, and the reader past that token. A token that
    /// is no unsigned integer is an error and stands for 1.
    pub open spec fn number(self) -> (u64, Reader) {
        match self.peek() {
            Some(Token::Literal(Literal::Int(n))) => (n, self.bump()),
            Some(Token::Literal(_)) => (
                1,
                self.report(ErrorKind::UnsignedLiteral, self.pos as int).bump(),
            ),
            _ => (1, self.report(ErrorKind::ExpectedLiteral, self.pos as int).bump()),
        }
    }

    /// A number, where one that is not in range is an error on the token just read and is
    /// replaced by 1.
    pub open spec fn checked_number(self, max: u64, kind: ErrorKind) -> (u64, Reader) {
        let (n, next) = self.number();
        if 0 < n <= max {
            (n, next)
        } else {
            (1, next.report(kind, next.pos - 1))
        }
    }

    /// What follows the name of a field: the number of elements, for an array, and the length,
    /// and the reader past them.
    pub open spec fn shape(self) -> (Option<usize>, u8, Reader) {
        if self.sees(Punct::OpenBracket) {
            let (length, past_length) = self.bump().checked_number(
                64,
                ErrorKind::ElementLength,
            );
            let (count, past_count) = past_length.expect(Punct::Semi).checked_number(
                u64::MAX,
                ErrorKind::ElementCount,
            );
            (Some(count as usize), length as u8, past_count.expect(Punct::CloseBracket))
        } else {
            let (length, past_length) = self.checked_number(64, ErrorKind::FieldLength);
            (None, length as u8, past_length)
        }
    }

    /// A field, and the reader past it. Reading stops where the name is missing.
    pub open spec fn field(self) -> (Option<FieldView>, Reader) {
        let past_attrs = self.skip_attributes();
        let past_pub = past_attrs.eat_pub();
        match past_pub.name() {
            (Some(name), past_name) => {
                let (count, length, past_shape) = past_name.expect(Punct::Colon).shape();
                let field = FieldView {
                    name,
                    count,
                    length,
                    is_pub: past_attrs.sees_pub(),
                    attrs: self.attributes(),
                };
                (Some(field), past_shape)
            },
            (None, past_name) => (None, past_name),
        }
    }

    /// The fields up to the end, with commas between them and perhaps one at the end, where
    /// `read` holds those already read. A missing comma is an error, and then there are no
    /// fields.
    pub open spec fn fields(self, read: Seq<FieldView>) -> (Option<Seq<FieldView>>, Reader)
        decreases self.tokens.len() - self.pos,
    {
        if self.at_end() {
            (Some(read), self)
        } else if read.len() > 0 && !self.sees(Punct::Comma) {
            (
                Some(Seq::empty()),
                self.report(ErrorKind::ExpectedPunct(Punct::Comma), self.pos as int),
            )
        } else {
            let here = if read.len() > 0 {
                self.bump()
            } else {
                self
            };
            if here.at_end() {
                (Some(read), here)
            } else {
                proof {
                    lemma_field_advances(here);
                }
                match here.field() {
                    (Some(field), next) => next.fields(read.push(field)),
                    (None, next) => (None, next),
                }
            }
        }
    }

    /// The declaration, and the reader where reading ended. Reading stops where the name of the
    /// struct or of a field is missing.
    pub open spec fn declaration(self) -> (Option<DeclarationView>, Reader) {
        let past_attrs = self.skip_attributes();
        let past_pub = past_attrs.eat_pub();
        match past_pub.name() {
            (Some(name), past_name) => {
                let past_comma = if past_name.sees(Punct::Comma) {
                    past_name.bump()
                } else {
                    past_name.report(
                        ErrorKind::ExpectedPunct(Punct::Comma),
                        past_name.pos as int,
                    )
                };
                match past_comma.fields(Seq::empty()) {
                    (Some(fields), end) => (
                        Some(
                            DeclarationView {
                                name,
                                is_pub: past_attrs.sees_pub(),
                                attrs: self.attributes(),
                                fields,
                            },
                        ),
                        end,
                    ),
                    (None, end) => (None, end),
                }
            },
            (None, past_name) => (None, past_name),
        }
    }
}

/// What a declaration says.
#[verifier::ext_equal]
pub struct DeclarationView {
    pub name: Seq<char>,
    pub is_pub: bool,
    pub attrs: Seq<Attribute>,
    pub fields: Seq<FieldView>,
}

impl DeclarationView {
    /// Whether there is a type for the values of every field.
    pub open spec fn wf(self) -> bool {
        forall|i: int| 0 <= i < self.fields.len() ==> #[trigger] self.fields[i].wf()
    }
}

/// Reading attributes goes forward, reports nothing and ends in front of no attribute.
pub proof fn lemma_attributes_advance(reader: Reader, read: Seq<Attribute>)
    requires
        reader.pos <= reader.tokens.len(),
    ensures
        ({
            let next = reader.more_attributes(read).1;
            &&& reader.pos <= next.pos <= reader.tokens.len()
            &&& next == (Reader { pos: next.pos, ..reader })
            &&& !(next.peek() matches Some(Token::Attribute { .. }))
        }),
    decreases reader.tokens.len() - reader.pos,
{
    if let Some(Token::Attribute { number, rest }) = reader.peek() {
        lemma_attributes_advance(
            reader.skip(1 + rest as nat),
            read.push(Attribute::Outer(number)),
        );
    }
}

/// Reading a field that has a name goes forward.
pub proof fn lemma_field_advances(reader: Reader)
    requires
        reader.pos <= reader.tokens.len(),
    ensures
        reader.field().1.tokens == reader.tokens,
        reader.field().1.pos <= reader.tokens.len(),
        reader.field().0 is Some ==> reader.pos < reader.field().1.pos,
{
    lemma_attributes_advance(reader, Seq::empty());
}

} // verus!

//! Reading declarations.

use vstd::prelude::*;

use crate::ast::Attribute;
use crate::field::Field;
use crate::grammar::{lemma_field_advances, DeclarationView, Reader};
use crate::layout::FieldView;
use crate::token::{Diagnostic, ErrorKind, Literal, Punct, Token};

verus! {

/// A reader of tokens that collects the errors it reports.
#[derive(Debug)]
pub struct Parser {
    tokens: Vec<Token>,
    pos: usize,
    diagnostics: Vec<Diagnostic>,
}

impl View for Parser {
    type V = Reader;

    closed spec fn view(&self) -> Reader {
        Reader { tokens: self.tokens@, pos: self.pos as nat, diagnostics: self.diagnostics@ }
    }
}

impl Parser {
    /// Returns a parser in front of the first of `tokens`.
    pub fn new(tokens: Vec<Token>) -> (parser: Parser)
        ensures
            parser@ == Reader::start(tokens@),
            parser@.wf(),
    {
        assert(tokens.len() == tokens@.len());
        Parser { tokens, pos: 0, diagnostics: Vec::new() }
    }

    /// Returns the errors reported.
    pub fn into_diagnostics(self) -> (diagnostics: Vec<Diagnostic>)
        ensures
            diagnostics@ == self@.diagnostics,
    {
        self.diagnostics
    }

    /// Returns whether no token is left.
    pub fn at_end(&self) -> (end: bool)
        requires
            self@.wf(),
        ensures
            end == self@.at_end(),
    {
        self.pos >= self.tokens.len()
    }

    /// Goes past the next token; stays at the end.
    pub fn bump(&mut self)
        requires
            old(self)@.wf(),
        ensures
            final(self)@ == old(self)@.bump(),
            final(self)@.wf(),
    {
        if self.pos < self.tokens.len() {
            self.pos = self.pos + 1;
        }
    }

    /// Reports an error on token `at`.
    fn report(&mut self, kind: ErrorKind, at: usize)
        requires
            old(self)@.wf(),
        ensures
            final(self)@ == old(self)@.report(kind, at as int),
            final(self)@.wf(),
    {
        self.diagnostics.push(Diagnostic { kind, at });
    }

    /// Goes past `punct` if it is the next token, and returns whether it was.
    pub fn eat(&mut self, punct: Punct) -> (eaten: bool)
        requires
            old(self)@.wf(),
        ensures
            eaten == old(self)@.sees(punct),
            final(self)@ == old(self)@.eat(punct),
            final(self)@.wf(),
    {
        if self.pos < self.tokens.len() {
            if let Token::Punct(next) = &self.tokens[self.pos] {
                if *next == punct {
                    self.pos = self.pos + 1;
                    return true;
                }
            }
        }
        false
    }

    /// Goes past `pub` if it is the next token, and returns whether it was.
    pub fn eat_pub(&mut self) -> (eaten: bool)
        requires
            old(self)@.wf(),
        ensures
            eaten == old(self)@.sees_pub(),
            final(self)@ == old(self)@.eat_pub(),
            final(self)@.wf(),
    {
        if self.pos < self.tokens.len() {
            if let Token::Pub = &self.tokens[self.pos] {
                self.pos = self.pos + 1;
                return true;
            }
        }
        false
    }

    /// Goes past `punct`. Another token is an error, and the parser goes past it too.
    pub fn expect_token(&mut self, punct: Punct)
        requires
            old(self)@.wf(),
        ensures
            final(self)@ == old(self)@.expect(punct),
            final(self)@.wf(),
    {
        if !self.eat(punct) {
            let at: usize = self.pos;
            self.report(ErrorKind::ExpectedPunct(punct), at);
            self.bump();
        }
    }

    /// Reads the attributes that come next.
    pub fn parse_outer_attributes(&mut self) -> (attrs: Vec<Attribute>)
        requires
            old(self)@.wf(),
        ensures
            attrs@ == old(self)@.attributes(),
            final(self)@ == old(self)@.skip_attributes(),
            final(self)@.wf(),
    {
        let mut attrs: Vec<Attribute> = Vec::new();
        let ghost goal = self@.more_attributes(Seq::empty());
        while self.pos < self.tokens.len()
            invariant_except_break
                self@.wf(),
                goal == self@.more_attributes(attrs@),
            ensures
                self@.wf(),
                goal == (attrs@, self@),
            decreases self.tokens.len() - self.pos,
        {
            if let Token::Attribute { number, rest } = &self.tokens[self.pos] {
                attrs.push(Attribute::Outer(*number));
                if *rest < self.tokens.len() - self.pos {
                    self.pos = self.pos + 1 + *rest;
                } else {
                    self.pos = self.tokens.len();
                }
            } else {
                break;
            }
        }
        attrs
    }

    /// Reads a name. A keyword is an error and is read as a name. Another token is an error, and
    /// then `None` is returned.
    pub fn parse_ident(&mut self) -> (ident: Option<String>)
        requires
            old(self)@.wf(),
        ensures
            final(self)@ == old(self)@.name().1,
            final(self)@.wf(),
            match old(self)@.name().0 {
                Some(name) => ident matches Some(read) && read@ == name,
                None => ident is None,
            },
    {
        let at: usize = self.pos;
        let mut is_keyword = true;
        let name = if self.pos < self.tokens.len() {
            match &self.tokens[self.pos] {
                Token::Ident(name) => {
                    is_keyword = false;
                    Some(name.clone())
                },
                Token::Keyword(name) => Some(name.clone()),
                Token::Pub => Some("pub".to_owned()),
                Token::Literal(Literal::Bool(true)) => Some("true".to_owned()),
                Token::Literal(Literal::Bool(false)) => Some("false".to_owned()),
                _ => None,
            }
        } else {
            None
        };
        if is_keyword {
            self.report(ErrorKind::ExpectedIdent, at);
        }
        if name.is_some() {
            self.bump();
        }
        name
    }
}

/// Reads an unsigned integer. Another token is an error, and then 1 is returned.
pub fn parse_u64(parser: &mut Parser) -> (number: u64)
    requires
        old(parser)@.wf(),
    ensures
        (number, final(parser)@) == old(parser)@.number(),
        final(parser)@.wf(),
{
    let at: usize = parser.pos;
    if parser.pos < parser.tokens.len() {
        if let Token::Literal(literal) = &parser.tokens[parser.pos] {
            let literal: Literal = *literal;
            parser.bump();
            return match literal {
                Literal::Int(number) => number,
                Literal::Bool(_) | Literal::Other => {
                    parser.report(ErrorKind::UnsignedLiteral, at);
                    1
                },
            };
        }
    }
    parser.bump();
    parser.report(ErrorKind::ExpectedLiteral, at);
    1
}

/// Reads an unsigned integer above 0 and up to `max`. A number that is not in that range is an
/// error on the token just read, and then 1 is returned.
fn parse_checked_u64(parser: &mut Parser, max: u64, kind: ErrorKind) -> (number: u64)
    requires
        old(parser)@.wf(),
        max > 0,
    ensures
        (number, final(parser)@) == old(parser)@.checked_number(max, kind),
        0 < number <= max,
        final(parser)@.wf(),
{
    let number: u64 = parse_u64(parser);
    if number == 0 || number > max {
        let at: usize = parser.pos - 1;
        parser.report(kind, at);
        // a dummy value, so that reading can go on
        1
    } else {
        number
    }
}

/// Reads a field. Returns `None` where the name of the field is missing.
pub fn parse_field(parser: &mut Parser) -> (field: Option<Field>)
    requires
        old(parser)@.wf(),
    ensures
        final(parser)@ == old(parser)@.field().1,
        final(parser)@.wf(),
        match old(parser)@.field().0 {
            Some(read) => field matches Some(f) && f@ == read && read.wf(),
            None => field is None,
        },
{
    let attrs = parser.parse_outer_attributes();
    let is_pub = parser.eat_pub();
    let name = match parser.parse_ident() {
        Some(name) => name,
        None => {
            return None;
        },
    };
    parser.expect_token(Punct::Colon);

    if parser.eat(Punct::OpenBracket) {
        // Field::Array
        let element_length: u64 = parse_checked_u64(parser, 64, ErrorKind::ElementLength);
        parser.expect_token(Punct::Semi);
        let count: u64 = parse_checked_u64(parser, u64::MAX, ErrorKind::ElementCount);
        parser.expect_token(Punct::CloseBracket);
        Some(
            Field::Array {
                name,
                count: count as usize,
                element_length: element_length as u8,
                is_pub,
                attrs,
            },
        )
    } else {
        // Field::Scalar
        let length: u64 = parse_checked_u64(parser, 64, ErrorKind::FieldLength);
        Some(Field::Scalar { name, length: length as u8, is_pub, attrs })
    }
}

/// The views of fields.
pub open spec fn field_views(fields: Seq<Field>) -> Seq<FieldView> {
    fields.map_values(|field: Field| field@)
}

/// Reads the fields of a declaration up to the end. Returns `None` where the name of a field is
/// missing. Where a comma is missing between two fields, that is an error and no field is
/// returned.
pub fn parse_fields(parser: &mut Parser) -> (fields: Option<Vec<Field>>)
    requires
        old(parser)@.wf(),
    ensures
        final(parser)@ == old(parser)@.fields(Seq::empty()).1,
        final(parser)@.wf(),
        match old(parser)@.fields(Seq::empty()).0 {
            Some(read) => {
                &&& fields matches Some(fs) && field_views(fs@) == read
                &&& forall|i: int| 0 <= i < read.len() ==> #[trigger] read[i].wf()
            },
            None => fields is None,
        },
{
    let mut fields: Vec<Field> = Vec::new();
    let ghost goal = parser@.fields(Seq::empty());
    proof {
        assert(field_views(fields@) =~= Seq::<FieldView>::empty());
    }
    while !parser.at_end()
        invariant_except_break
            parser@.wf(),
            goal == parser@.fields(field_views(fields@)),
            forall|i: int| 0 <= i < fields.len() ==> (#[trigger] fields[i])@.wf(),
        invariant
            goal == old(parser)@.fields(Seq::empty()),
        ensures
            parser@.wf(),
            goal == (Some(field_views(fields@)), parser@),
            forall|i: int| 0 <= i < fields.len() ==> (#[trigger] fields[i])@.wf(),
        decreases parser@.tokens.len() - parser@.pos,
    {
        if fields.len() > 0 {
            if !parser.eat(Punct::Comma) {
                let at: usize = parser.pos;
                parser.report(ErrorKind::ExpectedPunct(Punct::Comma), at);
                fields = Vec::new();
                proof {
                    assert(field_views(fields@) =~= Seq::<FieldView>::empty());
                }
                break;
            }
        }
        if parser.at_end() {
            break;
        }
        proof {
            lemma_field_advances(parser@);
        }
        match parse_field(parser) {
            Some(field) => {
                let ghost before = fields@;
                fields.push(field);
                proof {
                    assert(field_views(fields@) =~= field_views(before).push(field@));
                }
            },
            None => {
                return None;
            },
        }
    }
    Some(fields)
}

/// A declaration: a struct and its fields.
#[derive(Debug, PartialEq, Eq)]
pub struct Declaration {
    pub attrs: Vec<Attribute>,
    pub is_pub: bool,
    pub name: String,
    pub fields: Vec<Field>,
}

impl View for Declaration {
    type V = DeclarationView;

    open spec fn view(&self) -> DeclarationView {
        DeclarationView {
            name: self.name@,
            is_pub: self.is_pub,
            attrs: self.attrs@,
            fields: field_views(self.fields@),
        }
    }
}

/// Reads a declaration. Returns `None` where the name of the struct or of a field is missing.
pub fn parse_declaration(parser: &mut Parser) -> (declaration: Option<Declaration>)
    requires
        old(parser)@.wf(),
    ensures
        final(parser)@ == old(parser)@.declaration().1,
        final(parser)@.wf(),
        match old(parser)@.declaration().0 {
            Some(read) => declaration matches Some(d) && d@ == read && read.wf(),
            None => declaration is None,
        },
{
    let attrs = parser.parse_outer_attributes();
    let is_pub = parser.eat_pub();
    let name = match parser.parse_ident() {
        Some(name) => name,
        None => {
            return None;
        },
    };
    if !parser.eat(Punct::Comma) {
        let at: usize = parser.pos;
        parser.report(ErrorKind::ExpectedPunct(Punct::Comma), at);
    }
    match parse_fields(parser) {
        Some(fields) => Some(Declaration { attrs, is_pub, name, fields }),
        None => None,
    }
}

} // verus!

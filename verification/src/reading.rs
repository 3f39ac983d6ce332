//! Laws of reading, token by token: what is read from any tokens, and which errors are reported.

use vstd::prelude::*;

use crate::ast::Attribute;
use crate::field::Field;
use crate::grammar::{lemma_field_advances, DeclarationView, Reader};
use crate::layout::FieldView;
use crate::parser::Declaration;
use crate::token::{Diagnostic, ErrorKind, Literal, Punct, Token};

verus! {

/// Reading begins in front of the first token, with nothing reported.
pub proof fn law_start(tokens: Seq<Token>)
    ensures
        Reader::start(tokens) == (Reader { tokens, pos: 0, diagnostics: Seq::empty() }),
{
}

/// The view of a field says what the field says.
pub proof fn law_field_view(field: Field)
    ensures
        match field {
            Field::Array { name, count, element_length, is_pub, attrs } => field@ == (FieldView {
                name: name@,
                count: Some(count),
                length: element_length,
                is_pub,
                attrs: attrs@,
            }),
            Field::Scalar { name, length, is_pub, attrs } => field@ == (FieldView {
                name: name@,
                count: None,
                length,
                is_pub,
                attrs: attrs@,
            }),
        },
{
}

/// The view of a declaration says what the declaration says.
pub proof fn law_declaration_view(declaration: Declaration)
    ensures
        declaration@.name == declaration.name@,
        declaration@.is_pub == declaration.is_pub,
        declaration@.attrs == declaration.attrs@,
        declaration@.fields.len() == declaration.fields.len(),
        forall|i: int|
            0 <= i < declaration.fields.len() ==> #[trigger] declaration@.fields[i]
                == declaration.fields[i]@,
{
}

/// The steps of a reader: what it sees is the token at its position, what it goes past is one
/// token, and nothing but a missing punctuation mark is reported.
pub proof fn law_steps(reader: Reader, punct: Punct)
    requires
        reader.pos <= reader.tokens.len() <= usize::MAX,
    ensures
        ({
            let tokens = reader.tokens;
            let at = reader.pos as int;
            let is_left = at < tokens.len();
            let next = Reader {
                tokens,
                pos: if is_left {
                    reader.pos + 1
                } else {
                    reader.pos
                },
                diagnostics: reader.diagnostics,
            };
            let is_next = is_left && tokens[at] == Token::Punct(punct);
            let is_pub = is_left && tokens[at] == Token::Pub;
            &&& reader.at_end() == !is_left
            &&& reader.bump() == next
            &&& reader.sees(punct) == is_next
            &&& reader.eat(punct) == if is_next {
                next
            } else {
                reader
            }
            &&& reader.sees_pub() == is_pub
            &&& reader.eat_pub() == if is_pub {
                next
            } else {
                reader
            }
            &&& reader.expect(punct) == if is_next {
                next
            } else {
                Reader {
                    tokens,
                    pos: next.pos,
                    diagnostics: reader.diagnostics.push(
                        Diagnostic { kind: ErrorKind::ExpectedPunct(punct), at: at as usize },
                    ),
                }
            }
        }),
{
}

/// An error is added to those reported, and the reader stays where it is.
pub proof fn law_report(reader: Reader, kind: ErrorKind, at: usize)
    ensures
        reader.report(kind, at as int) == (Reader {
            tokens: reader.tokens,
            pos: reader.pos,
            diagnostics: reader.diagnostics.push(Diagnostic { kind, at }),
        }),
{
}

/// An attribute is read with the tokens that belong to it, and then those behind it; no other
/// token is.
pub proof fn law_attributes(reader: Reader)
    requires
        reader.pos <= reader.tokens.len() <= usize::MAX,
    ensures
        ({
            let tokens = reader.tokens;
            let at = reader.pos as int;
            match (if at < tokens.len() {
                tokens[at]
            } else {
                Token::Other
            }) {
                Token::Attribute { number, rest } => {
                    let past = Reader {
                        tokens,
                        pos: if at + 1 + rest <= tokens.len() {
                            (at + 1 + rest) as nat
                        } else {
                            tokens.len()
                        },
                        diagnostics: reader.diagnostics,
                    };
                    &&& reader.attributes() == seq![Attribute::Outer(number)] + past.attributes()
                    &&& reader.skip_attributes() == past.skip_attributes()
                },
                _ => reader.attributes().len() == 0 && reader.skip_attributes() == reader,
            }
        }),
{
    if let Some(Token::Attribute { number, rest }) = reader.peek() {
        let none = Seq::<Attribute>::empty();
        assert(none.push(Attribute::Outer(number)) =~= seq![Attribute::Outer(number)]);
        lemma_attributes_onto(reader.skip(1 + rest as nat), seq![Attribute::Outer(number)]);
    }
}

/// A name is that of an identifier. A keyword is read as a name too, but is an error. Where any
/// other token stands, or none, that is an error, there is no name, and the reader stays.
pub proof fn law_name(reader: Reader)
    requires
        reader.pos <= reader.tokens.len() <= usize::MAX,
    ensures
        ({
            let tokens = reader.tokens;
            let at = reader.pos as int;
            let (name, next) = reader.name();
            let word = if at >= tokens.len() {
                None
            } else {
                match tokens[at] {
                    Token::Ident(word) => Some(word@),
                    Token::Keyword(word) => Some(word@),
                    Token::Pub => Some("pub"@),
                    Token::Literal(Literal::Bool(true)) => Some("true"@),
                    Token::Literal(Literal::Bool(false)) => Some("false"@),
                    _ => None,
                }
            };
            &&& name == word
            &&& next.tokens == tokens
            &&& next.pos == if word is Some {
                at + 1
            } else {
                at
            }
            &&& next.diagnostics == if at < tokens.len() && tokens[at] is Ident {
                reader.diagnostics
            } else {
                reader.diagnostics.push(
                    Diagnostic { kind: ErrorKind::ExpectedIdent, at: at as usize },
                )
            }
        }),
{
}

/// A number is the value of an integer literal. In its place any other token, or none, is an
/// error and counts as 1; the reader goes past it in either case.
pub proof fn law_number(reader: Reader)
    requires
        reader.pos <= reader.tokens.len(),
    ensures
        ({
            let tokens = reader.tokens;
            let p = reader.pos as int;
            let (n, next) = reader.number();
            &&& next.tokens == tokens
            &&& next.pos == if p < tokens.len() {
                p + 1
            } else {
                p
            }
            &&& p < tokens.len() ==> match tokens[p] {
                Token::Literal(Literal::Int(value)) => n == value && next.diagnostics
                    == reader.diagnostics,
                Token::Literal(_) => n == 1 && next.diagnostics == reader.diagnostics.push(
                    Diagnostic { kind: ErrorKind::UnsignedLiteral, at: p as usize },
                ),
                _ => n == 1 && next.diagnostics == reader.diagnostics.push(
                    Diagnostic { kind: ErrorKind::ExpectedLiteral, at: p as usize },
                ),
            }
            &&& p == tokens.len() ==> n == 1 && next.diagnostics == reader.diagnostics.push(
                Diagnostic { kind: ErrorKind::ExpectedLiteral, at: p as usize },
            )
        }),
{
}

/// A punctuation token is gone past, and is an error where it is another token.
proof fn lemma_expect_reads(reader: Reader, punct: Punct)
    requires
        reader.pos <= reader.tokens.len(),
    ensures
        ({
            let len = reader.tokens.len() as int;
            let at = reader.pos as int;
            let next = reader.expect(punct);
            &&& next.tokens == reader.tokens
            &&& next.pos == if at < len {
                at + 1
            } else {
                at
            }
            &&& next.diagnostics == reader.diagnostics + (if at < len && reader.tokens[at]
                == Token::Punct(punct) {
                seq![]
            } else {
                seq![Diagnostic { kind: ErrorKind::ExpectedPunct(punct), at: at as usize }]
            })
        }),
{
}

/// A number is gone past, and is an error where it is another token or out of range.
proof fn lemma_number_reads(reader: Reader, max: u64, kind: ErrorKind)
    requires
        reader.pos <= reader.tokens.len(),
        max > 0,
    ensures
        ({
            let len = reader.tokens.len() as int;
            let at = reader.pos as int;
            let tokens = reader.tokens;
            let (number, next) = reader.checked_number(max, kind);
            &&& next.tokens == tokens
            &&& next.pos == if at < len {
                at + 1
            } else {
                at
            }
            &&& number == if at < len {
                match tokens[at] {
                    Token::Literal(Literal::Int(n)) => if 1 <= n <= max {
                        n
                    } else {
                        1
                    },
                    _ => 1,
                }
            } else {
                1
            }
            &&& next.diagnostics == reader.diagnostics + (if at < len {
                match tokens[at] {
                    Token::Literal(Literal::Int(n)) => if 1 <= n <= max {
                        seq![]
                    } else {
                        seq![Diagnostic { kind, at: at as usize }]
                    },
                    Token::Literal(_) => seq![
                        Diagnostic { kind: ErrorKind::UnsignedLiteral, at: at as usize },
                    ],
                    _ => seq![Diagnostic { kind: ErrorKind::ExpectedLiteral, at: at as usize }],
                }
            } else {
                seq![Diagnostic { kind: ErrorKind::ExpectedLiteral, at: at as usize }]
            })
        }),
{
}

/// A name at `a`, with `pub` in front of it or not, is gone past.
proof fn lemma_name_reads(reader: Reader, a: int, name: Seq<char>)
    requires
        ({
            let tokens = reader.tokens;
            let len = tokens.len() as int;
            &&& reader.pos < len
            &&& a == reader.pos || (a == reader.pos + 1 && tokens[a - 1] == Token::Pub)
            &&& a < len
            &&& match tokens[a] {
                Token::Ident(word) => word@ == name,
                Token::Keyword(word) => word@ == name,
                Token::Literal(Literal::Bool(true)) => name == "true"@,
                Token::Literal(Literal::Bool(false)) => name == "false"@,
                Token::Pub => a > reader.pos && name == "pub"@,
                _ => false,
            }
        }),
    ensures
        reader.attributes() == Seq::<Attribute>::empty(),
        reader.skip_attributes().sees_pub() == (a > reader.pos),
        ({
            let (read, next) = reader.skip_attributes().eat_pub().name();
            &&& read == Some(name)
            &&& next.tokens == reader.tokens
            &&& next.pos == a + 1
            &&& next.diagnostics == reader.diagnostics + (if reader.tokens[a] is Ident {
                seq![]
            } else {
                seq![Diagnostic { kind: ErrorKind::ExpectedIdent, at: a as usize }]
            })
        }),
{
    assert(reader.more_attributes(Seq::empty()) == (Seq::<Attribute>::empty(), reader));
    assert(reader.skip_attributes().eat_pub() == (Reader { pos: a as nat, ..reader }));
}

/// A field without attributes and without brackets, whatever its tokens are: the name at `a`, with
/// `pub` in front of it or not, the token in the place of the colon, and the token in the place of
/// the length, each taken whether or not it is the right one. The length is that of the literal
/// where it is from 1 to 64, and 1 otherwise. Every wrong token is an error on that token, in
/// order.
pub proof fn law_scalar_field(reader: Reader, a: int, name: Seq<char>)
    requires
        ({
            let tokens = reader.tokens;
            let len = tokens.len() as int;
            let q = if a + 1 < len {
                a + 2
            } else {
                a + 1
            };
            &&& reader.pos < len
            &&& a == reader.pos || (a == reader.pos + 1 && tokens[a - 1] == Token::Pub)
            &&& a < len
            &&& match tokens[a] {
                Token::Ident(word) => word@ == name,
                Token::Keyword(word) => word@ == name,
                Token::Literal(Literal::Bool(true)) => name == "true"@,
                Token::Literal(Literal::Bool(false)) => name == "false"@,
                Token::Pub => a > reader.pos && name == "pub"@,
                _ => false,
            }
            &&& !(q < len && tokens[q] == Token::Punct(Punct::OpenBracket))
        }),
    ensures
        ({
            let tokens = reader.tokens;
            let len = tokens.len() as int;
            let q = if a + 1 < len {
                a + 2
            } else {
                a + 1
            };
            let (field, next) = reader.field();
            &&& field matches Some(f)
            &&& f.name == name
            &&& f.is_pub == (a > reader.pos)
            &&& f.attrs.len() == 0
            &&& f.count is None
            &&& f.length == if q < len {
                match tokens[q] {
                    Token::Literal(Literal::Int(n)) => if 1 <= n <= 64 {
                        n as int
                    } else {
                        1
                    },
                    _ => 1,
                }
            } else {
                1
            }
            &&& next.tokens == tokens
            &&& next.pos == if q < len {
                q + 1
            } else {
                q
            }
            &&& next.diagnostics == reader.diagnostics + (if tokens[a] is Ident {
                seq![]
            } else {
                seq![Diagnostic { kind: ErrorKind::ExpectedIdent, at: a as usize }]
            }) + (if a + 1 < len && tokens[a + 1] == Token::Punct(Punct::Colon) {
                seq![]
            } else {
                seq![
                    Diagnostic {
                        kind: ErrorKind::ExpectedPunct(Punct::Colon),
                        at: (a + 1) as usize,
                    },
                ]
            }) + (if q < len {
                match tokens[q] {
                    Token::Literal(Literal::Int(n)) => if 1 <= n <= 64 {
                        seq![]
                    } else {
                        seq![Diagnostic { kind: ErrorKind::FieldLength, at: q as usize }]
                    },
                    Token::Literal(_) => seq![
                        Diagnostic { kind: ErrorKind::UnsignedLiteral, at: q as usize },
                    ],
                    _ => seq![Diagnostic { kind: ErrorKind::ExpectedLiteral, at: q as usize }],
                }
            } else {
                seq![Diagnostic { kind: ErrorKind::ExpectedLiteral, at: q as usize }]
            })
        }),
{
    let named = reader.skip_attributes().eat_pub().name().1;
    let past_colon = named.expect(Punct::Colon);
    lemma_name_reads(reader, a, name);
    lemma_expect_reads(named, Punct::Colon);
    lemma_number_reads(past_colon, 64, ErrorKind::FieldLength);
}

/// A field without attributes whose length stands in brackets, whatever the tokens behind the
/// bracket are: the tokens in the places of the element length, of the semicolon, of the number of
/// elements and of the closing bracket are taken whether or not they are the right ones. Numbers
/// out of range count as 1. Every wrong token is an error on that token, in order.
pub proof fn law_array_field(reader: Reader, a: int, name: Seq<char>)
    requires
        ({
            let tokens = reader.tokens;
            let len = tokens.len() as int;
            let q = if a + 1 < len {
                a + 2
            } else {
                a + 1
            };
            &&& reader.pos < len
            &&& a == reader.pos || (a == reader.pos + 1 && tokens[a - 1] == Token::Pub)
            &&& a < len
            &&& match tokens[a] {
                Token::Ident(word) => word@ == name,
                Token::Keyword(word) => word@ == name,
                Token::Literal(Literal::Bool(true)) => name == "true"@,
                Token::Literal(Literal::Bool(false)) => name == "false"@,
                Token::Pub => a > reader.pos && name == "pub"@,
                _ => false,
            }
            &&& q < len && tokens[q] == Token::Punct(Punct::OpenBracket)
        }),
    ensures
        ({
            let tokens = reader.tokens;
            let len = tokens.len() as int;
            let q = if a + 1 < len {
                a + 2
            } else {
                a + 1
            };
            let l = q + 1;
            let s = if l < len {
                l + 1
            } else {
                l
            };
            let c = if s < len {
                s + 1
            } else {
                s
            };
            let z = if c < len {
                c + 1
            } else {
                c
            };
            let (field, next) = reader.field();
            &&& field matches Some(f)
            &&& f.name == name
            &&& f.is_pub == (a > reader.pos)
            &&& f.attrs.len() == 0
            &&& f.length == if l < len {
                match tokens[l] {
                    Token::Literal(Literal::Int(n)) => if 1 <= n <= 64 {
                        n as int
                    } else {
                        1
                    },
                    _ => 1,
                }
            } else {
                1
            }
            &&& f.count == Some(if c < len {
                match tokens[c] {
                    Token::Literal(Literal::Int(n)) => if n > 0 {
                        n as usize
                    } else {
                        1
                    },
                    _ => 1,
                }
            } else {
                1
            })
            &&& next.tokens == tokens
            &&& next.pos == if z < len {
                z + 1
            } else {
                z
            }
            &&& next.diagnostics == reader.diagnostics + (if tokens[a] is Ident {
                seq![]
            } else {
                seq![Diagnostic { kind: ErrorKind::ExpectedIdent, at: a as usize }]
            }) + (if a + 1 < len && tokens[a + 1] == Token::Punct(Punct::Colon) {
                seq![]
            } else {
                seq![
                    Diagnostic {
                        kind: ErrorKind::ExpectedPunct(Punct::Colon),
                        at: (a + 1) as usize,
                    },
                ]
            }) + (if l < len {
                match tokens[l] {
                    Token::Literal(Literal::Int(n)) => if 1 <= n <= 64 {
                        seq![]
                    } else {
                        seq![Diagnostic { kind: ErrorKind::ElementLength, at: l as usize }]
                    },
                    Token::Literal(_) => seq![
                        Diagnostic { kind: ErrorKind::UnsignedLiteral, at: l as usize },
                    ],
                    _ => seq![Diagnostic { kind: ErrorKind::ExpectedLiteral, at: l as usize }],
                }
            } else {
                seq![Diagnostic { kind: ErrorKind::ExpectedLiteral, at: l as usize }]
            }) + (if s < len && tokens[s] == Token::Punct(Punct::Semi) {
                seq![]
            } else {
                seq![Diagnostic { kind: ErrorKind::ExpectedPunct(Punct::Semi), at: s as usize }]
            }) + (if c < len {
                match tokens[c] {
                    Token::Literal(Literal::Int(n)) => if n > 0 {
                        seq![]
                    } else {
                        seq![Diagnostic { kind: ErrorKind::ElementCount, at: c as usize }]
                    },
                    Token::Literal(_) => seq![
                        Diagnostic { kind: ErrorKind::UnsignedLiteral, at: c as usize },
                    ],
                    _ => seq![Diagnostic { kind: ErrorKind::ExpectedLiteral, at: c as usize }],
                }
            } else {
                seq![Diagnostic { kind: ErrorKind::ExpectedLiteral, at: c as usize }]
            }) + (if z < len && tokens[z] == Token::Punct(Punct::CloseBracket) {
                seq![]
            } else {
                seq![
                    Diagnostic {
                        kind: ErrorKind::ExpectedPunct(Punct::CloseBracket),
                        at: z as usize,
                    },
                ]
            })
        }),
{
    let named = reader.skip_attributes().eat_pub().name().1;
    let past_colon = named.expect(Punct::Colon);
    lemma_name_reads(reader, a, name);
    lemma_expect_reads(named, Punct::Colon);
    let past_length = past_colon.bump().checked_number(64, ErrorKind::ElementLength).1;
    let past_semi = past_length.expect(Punct::Semi);
    let past_count = past_semi.checked_number(u64::MAX, ErrorKind::ElementCount).1;
    lemma_number_reads(past_colon.bump(), 64, ErrorKind::ElementLength);
    lemma_expect_reads(past_length, Punct::Semi);
    lemma_number_reads(past_semi, u64::MAX, ErrorKind::ElementCount);
    lemma_expect_reads(past_count, Punct::CloseBracket);
}

/// Where the name of a field is missing, and there is no attribute in front of it, reading stops
/// with one error there.
pub proof fn law_field_without_name(reader: Reader, a: int)
    requires
        ({
            let tokens = reader.tokens;
            let len = tokens.len() as int;
            &&& reader.pos <= len
            &&& a == reader.pos || (a == reader.pos + 1 && a <= len && tokens[a - 1] == Token::Pub)
            &&& a < len ==> match tokens[a] {
                Token::Ident(_) => false,
                Token::Keyword(_) => false,
                Token::Literal(Literal::Bool(_)) => false,
                Token::Pub => false,
                Token::Attribute { .. } => a > reader.pos,
                _ => true,
            }
        }),
    ensures
        reader.field() == (
            None::<FieldView>,
            Reader {
                tokens: reader.tokens,
                pos: a as nat,
                diagnostics: reader.diagnostics.push(
                    Diagnostic { kind: ErrorKind::ExpectedIdent, at: a as usize },
                ),
            },
        ),
{
    assert(reader.more_attributes(Seq::empty()) == (Seq::<Attribute>::empty(), reader));
    assert(reader.skip_attributes().eat_pub() == (Reader { pos: a as nat, ..reader }));
}

/// Attributes are collected onto those already read.
proof fn lemma_attributes_onto(reader: Reader, read: Seq<Attribute>)
    requires
        reader.pos <= reader.tokens.len(),
    ensures
        reader.more_attributes(read).0 == read + reader.more_attributes(Seq::empty()).0,
        reader.more_attributes(read).1 == reader.more_attributes(Seq::empty()).1,
    decreases reader.tokens.len() - reader.pos,
{
    let none = Seq::<Attribute>::empty();
    if let Some(Token::Attribute { number, rest }) = reader.peek() {
        let next = reader.skip(1 + rest as nat);
        let first = Attribute::Outer(number);
        lemma_attributes_onto(next, read.push(first));
        lemma_attributes_onto(next, none.push(first));
        let more = next.more_attributes(none).0;
        assert(read.push(first) + more =~= read + (none.push(first) + more));
    } else {
        assert(read + none =~= read);
    }
}

/// An attribute in front of a field is added to the attributes of what follows it, and changes
/// nothing else.
pub proof fn law_field_attribute(reader: Reader, number: usize, rest: usize)
    requires
        reader.pos < reader.tokens.len(),
        reader.tokens[reader.pos as int] == (Token::Attribute { number, rest }),
    ensures
        ({
            let past = reader.pos + 1 + rest;
            let without = Reader {
                tokens: reader.tokens,
                pos: if past <= reader.tokens.len() {
                    past as nat
                } else {
                    reader.tokens.len()
                },
                diagnostics: reader.diagnostics,
            };
            let (field, next) = without.field();
            &&& reader.field().1 == next
            &&& match field {
                Some(f) => {
                    &&& reader.field().0 matches Some(g)
                    &&& g.attrs == seq![Attribute::Outer(number)] + f.attrs
                    &&& g.name == f.name
                    &&& g.is_pub == f.is_pub
                    &&& g.length == f.length
                    &&& g.count == f.count
                },
                None => reader.field().0 is None,
            }
        }),
{
    let none = Seq::<Attribute>::empty();
    let without = reader.skip(1 + rest as nat);
    assert(none.push(Attribute::Outer(number)) =~= seq![Attribute::Outer(number)]);
    lemma_attributes_onto(without, seq![Attribute::Outer(number)]);
}

/// The name of the struct at `a`, with `pub` in front of it or not, is followed by a comma and by
/// the fields. A missing comma is an error on the token in its place, which is left for the first
/// field.
pub proof fn law_declaration(reader: Reader, a: int, name: Seq<char>)
    requires
        ({
            let tokens = reader.tokens;
            let len = tokens.len() as int;
            &&& reader.pos < len
            &&& a == reader.pos || (a == reader.pos + 1 && tokens[a - 1] == Token::Pub)
            &&& a < len
            &&& match tokens[a] {
                Token::Ident(word) => word@ == name,
                Token::Keyword(word) => word@ == name,
                Token::Literal(Literal::Bool(true)) => name == "true"@,
                Token::Literal(Literal::Bool(false)) => name == "false"@,
                Token::Pub => a > reader.pos && name == "pub"@,
                _ => false,
            }
        }),
    ensures
        ({
            let tokens = reader.tokens;
            let len = tokens.len() as int;
            let has_comma = a + 1 < len && tokens[a + 1] == Token::Punct(Punct::Comma);
            let rest = Reader {
                tokens,
                pos: if has_comma {
                    (a + 2) as nat
                } else {
                    (a + 1) as nat
                },
                diagnostics: reader.diagnostics + (if tokens[a] is Ident {
                    seq![]
                } else {
                    seq![Diagnostic { kind: ErrorKind::ExpectedIdent, at: a as usize }]
                }) + (if has_comma {
                    seq![]
                } else {
                    seq![
                        Diagnostic {
                            kind: ErrorKind::ExpectedPunct(Punct::Comma),
                            at: (a + 1) as usize,
                        },
                    ]
                }),
            };
            let (fields, end) = rest.fields(Seq::empty());
            &&& reader.declaration().1 == end
            &&& match fields {
                Some(fields) => {
                    &&& reader.declaration().0 matches Some(declaration)
                    &&& declaration.name == name
                    &&& declaration.is_pub == (a > reader.pos)
                    &&& declaration.attrs.len() == 0
                    &&& declaration.fields == fields
                },
                None => reader.declaration().0 is None,
            }
        }),
{
    lemma_name_reads(reader, a, name);
    let named = reader.skip_attributes().eat_pub().name().1;
    let tokens = reader.tokens;
    let has_comma = a + 1 < tokens.len() && tokens[a + 1] == Token::Punct(Punct::Comma);
    let rest = Reader {
        tokens,
        pos: if has_comma {
            (a + 2) as nat
        } else {
            (a + 1) as nat
        },
        diagnostics: reader.diagnostics + (if tokens[a] is Ident {
            seq![]
        } else {
            seq![Diagnostic { kind: ErrorKind::ExpectedIdent, at: a as usize }]
        }) + (if has_comma {
            seq![]
        } else {
            seq![
                Diagnostic {
                    kind: ErrorKind::ExpectedPunct(Punct::Comma),
                    at: (a + 1) as usize,
                },
            ]
        }),
    };
    if has_comma {
        assert(named.bump() =~= rest);
    } else {
        assert(named.report(ErrorKind::ExpectedPunct(Punct::Comma), a + 1) =~= rest);
    }
}

/// Where the name of the struct is missing, and there is no attribute in front of it, reading
/// stops with one error there.
pub proof fn law_declaration_without_name(reader: Reader, a: int)
    requires
        ({
            let tokens = reader.tokens;
            let len = tokens.len() as int;
            &&& reader.pos <= len
            &&& a == reader.pos || (a == reader.pos + 1 && a <= len && tokens[a - 1] == Token::Pub)
            &&& a < len ==> match tokens[a] {
                Token::Ident(_) => false,
                Token::Keyword(_) => false,
                Token::Literal(Literal::Bool(_)) => false,
                Token::Pub => false,
                Token::Attribute { .. } => a > reader.pos,
                _ => true,
            }
        }),
    ensures
        reader.declaration() == (
            None::<DeclarationView>,
            Reader {
                tokens: reader.tokens,
                pos: a as nat,
                diagnostics: reader.diagnostics.push(
                    Diagnostic { kind: ErrorKind::ExpectedIdent, at: a as usize },
                ),
            },
        ),
{
    assert(reader.more_attributes(Seq::empty()) == (Seq::<Attribute>::empty(), reader));
    assert(reader.skip_attributes().eat_pub() == (Reader { pos: a as nat, ..reader }));
}

/// An attribute in front of a declaration is added to the attributes of what follows it, and
/// changes nothing else.
pub proof fn law_declaration_attribute(reader: Reader, number: usize, rest: usize)
    requires
        reader.pos < reader.tokens.len(),
        reader.tokens[reader.pos as int] == (Token::Attribute { number, rest }),
    ensures
        ({
            let past = reader.pos + 1 + rest;
            let without = Reader {
                tokens: reader.tokens,
                pos: if past <= reader.tokens.len() {
                    past as nat
                } else {
                    reader.tokens.len()
                },
                diagnostics: reader.diagnostics,
            };
            let (declaration, end) = without.declaration();
            &&& reader.declaration().1 == end
            &&& match declaration {
                Some(d) => {
                    &&& reader.declaration().0 matches Some(e)
                    &&& e.attrs == seq![Attribute::Outer(number)] + d.attrs
                    &&& e.name == d.name
                    &&& e.is_pub == d.is_pub
                    &&& e.fields == d.fields
                },
                None => reader.declaration().0 is None,
            }
        }),
{
    let none = Seq::<Attribute>::empty();
    let without = reader.skip(1 + rest as nat);
    assert(none.push(Attribute::Outer(number)) =~= seq![Attribute::Outer(number)]);
    lemma_attributes_onto(without, seq![Attribute::Outer(number)]);
}

/// A declaration that ends behind its header has no fields.
pub proof fn law_no_fields(reader: Reader)
    requires
        reader.pos >= reader.tokens.len(),
    ensures
        reader.fields(Seq::empty()) == (Some(Seq::<FieldView>::empty()), reader),
{
}

/// Where the first field has no name, reading stops there.
pub proof fn law_first_field_without_name(reader: Reader, next: Reader)
    requires
        reader.pos < reader.tokens.len(),
        reader.field() == (None::<FieldView>, next),
    ensures
        reader.fields(Seq::empty()) == (None::<Seq<FieldView>>, next),
{
}

/// Behind field `k` of a chain, reading goes on as behind the last one.
proof fn lemma_fields_chain(
    tokens: Seq<Token>,
    fs: Seq<FieldView>,
    rs: Seq<Reader>,
    es: Seq<Reader>,
    k: int,
)
    requires
        fs.len() > 0,
        fs.len() == rs.len() == es.len(),
        forall|i: int|
            #![trigger rs[i]]
            0 <= i < fs.len() ==> rs[i].pos < tokens.len() && rs[i].tokens == tokens
                && rs[i].field() == (Some(fs[i]), es[i]),
        forall|i: int|
            #![trigger es[i]]
            0 <= i < fs.len() - 1 ==> es[i].pos < tokens.len() && tokens[es[i].pos as int]
                == Token::Punct(Punct::Comma) && rs[i + 1].pos == es[i].pos + 1 && rs[i
                + 1].diagnostics == es[i].diagnostics,
        1 <= k <= fs.len(),
    ensures
        es[k - 1].fields(fs.take(k)) == es.last().fields(fs),
        es[k - 1].tokens == tokens,
    decreases fs.len() - k,
{
    assert(rs[k - 1].field().1 == es[k - 1]);
    lemma_field_advances(rs[k - 1]);
    if k < fs.len() {
        lemma_fields_chain(tokens, fs, rs, es, k + 1);
        assert(es[k - 1].bump() == rs[k]);
        assert(fs.take(k).push(fs[k]) =~= fs.take(k + 1));
    } else {
        assert(fs.take(k) =~= fs);
    }
}

/// The fields of a chain, each read where the comma behind the one before it ends. Where the
/// tokens end behind the last of them, or behind a comma that follows it, these are the fields,
/// and nothing more is reported. Where another token follows, it is reported as standing in the
/// place of a comma, reading stops, and there are no fields, however many were read. Where a comma
/// follows and behind it a field without a name, reading stops there.
pub proof fn law_fields(
    reader: Reader,
    tokens: Seq<Token>,
    fs: Seq<FieldView>,
    rs: Seq<Reader>,
    es: Seq<Reader>,
)
    requires
        reader == rs[0],
        fs.len() > 0,
        fs.len() == rs.len() == es.len(),
        forall|i: int|
            #![trigger rs[i]]
            0 <= i < fs.len() ==> rs[i].pos < tokens.len() && rs[i].tokens == tokens
                && rs[i].field() == (Some(fs[i]), es[i]),
        forall|i: int|
            #![trigger es[i]]
            0 <= i < fs.len() - 1 ==> es[i].pos < tokens.len() && tokens[es[i].pos as int]
                == Token::Punct(Punct::Comma) && rs[i + 1].pos == es[i].pos + 1 && rs[i
                + 1].diagnostics == es[i].diagnostics,
    ensures
        ({
            let (fields, end) = reader.fields(Seq::empty());
            let last = es[fs.len() - 1];
            let at = last.pos as int;
            if at >= tokens.len() {
                fields == Some(fs) && end == last
            } else if tokens[at] != Token::Punct(Punct::Comma) {
                &&& fields == Some(Seq::<FieldView>::empty())
                &&& end.tokens == tokens
                &&& end.pos == at
                &&& end.diagnostics == last.diagnostics.push(
                    Diagnostic { kind: ErrorKind::ExpectedPunct(Punct::Comma), at: at as usize },
                )
            } else if at + 1 == tokens.len() {
                &&& fields == Some(fs)
                &&& end.tokens == tokens
                &&& end.pos == tokens.len()
                &&& end.diagnostics == last.diagnostics
            } else {
                let next = Reader { tokens, pos: last.pos + 1, diagnostics: last.diagnostics };
                next.field().0 is None ==> fields is None && end == next.field().1
            }
        }),
{
    let none = Seq::<FieldView>::empty();
    lemma_fields_chain(tokens, fs, rs, es, 1);
    lemma_fields_chain(tokens, fs, rs, es, fs.len() as int);
    assert(none.push(fs[0]) =~= fs.take(1));
    assert(reader.field() == (Some(fs[0]), es[0]));
    let last = es.last();
    if last.sees(Punct::Comma) {
        assert(last.bump() == (Reader {
            tokens,
            pos: last.pos + 1,
            diagnostics: last.diagnostics,
        }));
    }
}

} // verus!

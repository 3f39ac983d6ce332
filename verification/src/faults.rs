//! Laws of the errors that are reported while a declaration is read.

use vstd::prelude::*;

use crate::grammar::{lemma_attributes_advance, lemma_field_advances, Reader};
use crate::layout::FieldView;
use crate::reading::{law_array_field, law_declaration, law_fields, law_scalar_field};
use crate::token::{Diagnostic, ErrorKind, Literal, Punct, Token};

verus! {

/// Whether an error says what is wrong with the token that it is on.
spec fn is_true(tokens: Seq<Token>, diagnostic: Diagnostic) -> bool {
    let at = diagnostic.at as int;
    match diagnostic.kind {
        ErrorKind::ExpectedPunct(punct) => at < tokens.len() ==> tokens[at] != Token::Punct(punct),
        ErrorKind::ExpectedIdent => at < tokens.len() ==> !(tokens[at] is Ident),
        ErrorKind::ExpectedLiteral => at < tokens.len() ==> !(tokens[at] is Literal),
        ErrorKind::UnsignedLiteral => {
            &&& at < tokens.len()
            &&& tokens[at] matches Token::Literal(literal)
            &&& !(literal is Int)
        },
        ErrorKind::FieldLength | ErrorKind::ElementLength => {
            &&& at < tokens.len()
            &&& tokens[at] matches Token::Literal(Literal::Int(n))
            &&& n == 0 || n > 64
        },
        ErrorKind::ElementCount => {
            &&& at < tokens.len()
            &&& tokens[at] == Token::Literal(Literal::Int(0))
        },
    }
}

/// Whether every error reported so far is on a token or at the end, and is true of it.
spec fn all_true(reader: Reader) -> bool {
    forall|i: int|
        0 <= i < reader.diagnostics.len() ==> reader.diagnostics[i].at <= reader.tokens.len()
            && is_true(reader.tokens, #[trigger] reader.diagnostics[i])
}

proof fn lemma_expect_true(reader: Reader, punct: Punct)
    requires
        reader.wf(),
        all_true(reader),
    ensures
        reader.expect(punct).wf(),
        all_true(reader.expect(punct)),
        reader.expect(punct).tokens == reader.tokens,
{
}

proof fn lemma_number_true(reader: Reader, max: u64, kind: ErrorKind)
    requires
        reader.wf(),
        all_true(reader),
        match kind {
            ErrorKind::FieldLength | ErrorKind::ElementLength => max == 64,
            ErrorKind::ElementCount => max == u64::MAX,
            _ => false,
        },
    ensures
        reader.checked_number(max, kind).1.wf(),
        all_true(reader.checked_number(max, kind).1),
        reader.checked_number(max, kind).1.tokens == reader.tokens,
{
}

proof fn lemma_shape_true(reader: Reader)
    requires
        reader.wf(),
        all_true(reader),
    ensures
        reader.shape().2.wf(),
        all_true(reader.shape().2),
        reader.shape().2.tokens == reader.tokens,
{
    if reader.sees(Punct::OpenBracket) {
        let past_length = reader.bump().checked_number(64, ErrorKind::ElementLength).1;
        let past_semi = past_length.expect(Punct::Semi);
        let past_count = past_semi.checked_number(u64::MAX, ErrorKind::ElementCount).1;
        lemma_number_true(reader.bump(), 64, ErrorKind::ElementLength);
        lemma_expect_true(past_length, Punct::Semi);
        lemma_number_true(past_semi, u64::MAX, ErrorKind::ElementCount);
        lemma_expect_true(past_count, Punct::CloseBracket);
    } else {
        lemma_number_true(reader, 64, ErrorKind::FieldLength);
    }
}

proof fn lemma_name_true(reader: Reader)
    requires
        reader.wf(),
        all_true(reader),
    ensures
        ({
            let past_name = reader.skip_attributes().eat_pub().name().1;
            past_name.wf() && all_true(past_name) && past_name.tokens == reader.tokens
        }),
{
    lemma_attributes_advance(reader, Seq::empty());
}

proof fn lemma_field_true(reader: Reader)
    requires
        reader.wf(),
        all_true(reader),
    ensures
        reader.field().1.wf(),
        all_true(reader.field().1),
        reader.field().1.tokens == reader.tokens,
{
    lemma_name_true(reader);
    let past_name = reader.skip_attributes().eat_pub().name().1;
    lemma_expect_true(past_name, Punct::Colon);
    lemma_shape_true(past_name.expect(Punct::Colon));
}

proof fn lemma_fields_true(reader: Reader, read: Seq<FieldView>)
    requires
        reader.wf(),
        all_true(reader),
    ensures
        all_true(reader.fields(read).1),
        reader.fields(read).1.tokens == reader.tokens,
    decreases reader.tokens.len() - reader.pos,
{
    let here = if read.len() > 0 {
        reader.bump()
    } else {
        reader
    };
    if !reader.at_end() && (read.len() == 0 || reader.sees(Punct::Comma)) && !here.at_end() {
        lemma_field_true(here);
        lemma_field_advances(here);
        if let (Some(field), next) = here.field() {
            lemma_fields_true(next, read.push(field));
        }
    }
}

/// Every error is true of the token that it is on: a token is reported as missing only where
/// another one stands, or none; a literal is reported as no unsigned integer only where it is
/// none; and a number is reported as out of range only where it is.
pub proof fn law_diagnostics_true(tokens: Seq<Token>)
    requires
        tokens.len() <= usize::MAX,
    ensures
        ({
            let diagnostics = Reader::start(tokens).declaration().1.diagnostics;
            forall|i: int|
                #![trigger diagnostics[i]]
                0 <= i < diagnostics.len() ==> {
                    let at = diagnostics[i].at as int;
                    &&& at <= tokens.len()
                    &&& match diagnostics[i].kind {
                        ErrorKind::ExpectedPunct(punct) => at < tokens.len() ==> tokens[at]
                            != Token::Punct(punct),
                        ErrorKind::ExpectedIdent => at < tokens.len() ==> !(tokens[at] is Ident),
                        ErrorKind::ExpectedLiteral => at < tokens.len() ==> !(
                        tokens[at] is Literal),
                        ErrorKind::UnsignedLiteral => {
                            &&& at < tokens.len()
                            &&& tokens[at] matches Token::Literal(literal)
                            &&& !(literal is Int)
                        },
                        ErrorKind::FieldLength | ErrorKind::ElementLength => {
                            &&& at < tokens.len()
                            &&& tokens[at] matches Token::Literal(Literal::Int(n))
                            &&& n == 0 || n > 64
                        },
                        ErrorKind::ElementCount => {
                            &&& at < tokens.len()
                            &&& tokens[at] == Token::Literal(Literal::Int(0))
                        },
                    }
                }
        }),
{
    let reader = Reader::start(tokens);
    let past_name = reader.skip_attributes().eat_pub().name().1;
    lemma_name_true(reader);
    let past_comma = if past_name.sees(Punct::Comma) {
        past_name.bump()
    } else {
        past_name.report(ErrorKind::ExpectedPunct(Punct::Comma), past_name.pos as int)
    };
    lemma_fields_true(past_comma, Seq::empty());
    let diagnostics = reader.declaration().1.diagnostics;
    assert forall|i: int| #![trigger diagnostics[i]] 0 <= i < diagnostics.len() implies is_true(
        tokens,
        diagnostics[i],
    ) && diagnostics[i].at <= tokens.len() by {
        assert(all_true(reader.declaration().1));
    }
}

/// The errors on the numbers of a field that begins at token `p` and ends in front of token `e`.
spec fn number_errors(tokens: Seq<Token>, p: int, e: int) -> Seq<Diagnostic> {
    if e == p + 3 {
        let n = tokens[p + 2]->Literal_0->Int_0;
        if n == 0 || n > 64 {
            seq![Diagnostic { kind: ErrorKind::FieldLength, at: (p + 2) as usize }]
        } else {
            Seq::empty()
        }
    } else {
        let n = tokens[p + 3]->Literal_0->Int_0;
        let count = tokens[p + 5]->Literal_0->Int_0;
        (if n == 0 || n > 64 {
            seq![Diagnostic { kind: ErrorKind::ElementLength, at: (p + 3) as usize }]
        } else {
            Seq::empty()
        }) + (if count == 0 {
            seq![Diagnostic { kind: ErrorKind::ElementCount, at: (p + 5) as usize }]
        } else {
            Seq::empty()
        })
    }
}

/// The errors on the numbers of the first `n` fields.
spec fn errors_before(
    tokens: Seq<Token>,
    starts: Seq<int>,
    ends: Seq<int>,
    n: int,
) -> Seq<Diagnostic> {
    Seq::new(n as nat, |i: int| number_errors(tokens, starts[i], ends[i])).flatten()
}

/// The errors of one more field.
proof fn lemma_errors_next(tokens: Seq<Token>, starts: Seq<int>, ends: Seq<int>, n: int)
    requires
        0 <= n,
    ensures
        errors_before(tokens, starts, ends, n + 1) == errors_before(tokens, starts, ends, n)
            + number_errors(tokens, starts[n], ends[n]),
{
    let errors = Seq::new(n as nat, |i: int| number_errors(tokens, starts[i], ends[i]));
    let more = Seq::new((n + 1) as nat, |i: int| number_errors(tokens, starts[i], ends[i]));
    let last = number_errors(tokens, starts[n], ends[n]);
    assert(more =~= errors.push(last));
    errors.lemma_flatten_push(last);
}

/// The reader in front of field `i`.
spec fn before(tokens: Seq<Token>, starts: Seq<int>, ends: Seq<int>, i: int) -> Reader {
    Reader {
        tokens,
        pos: starts[i] as nat,
        diagnostics: errors_before(tokens, starts, ends, i),
    }
}

/// The reader behind field `i`.
spec fn behind(tokens: Seq<Token>, starts: Seq<int>, ends: Seq<int>, i: int) -> Reader {
    Reader {
        tokens,
        pos: ends[i] as nat,
        diagnostics: errors_before(tokens, starts, ends, i + 1),
    }
}

/// A field is read whatever its numbers are.
proof fn lemma_field_read(tokens: Seq<Token>, starts: Seq<int>, ends: Seq<int>, i: int)
    requires
        0 <= i < starts.len() == ends.len(),
        ({
            let p = starts[i];
            &&& 2 <= p < ends[i] <= tokens.len() <= usize::MAX
            &&& tokens[p] is Ident
            &&& tokens[p + 1] == Token::Punct(Punct::Colon)
            &&& if ends[i] == p + 3 {
                tokens[p + 2] matches Token::Literal(Literal::Int(_))
            } else {
                &&& ends[i] == p + 7
                &&& tokens[p + 2] == Token::Punct(Punct::OpenBracket)
                &&& tokens[p + 3] matches Token::Literal(Literal::Int(_))
                &&& tokens[p + 4] == Token::Punct(Punct::Semi)
                &&& tokens[p + 5] matches Token::Literal(Literal::Int(_))
                &&& tokens[p + 6] == Token::Punct(Punct::CloseBracket)
            }
        }),
    ensures
        ({
            let (field, next) = before(tokens, starts, ends, i).field();
            let p = starts[i];
            &&& next == behind(tokens, starts, ends, i)
            &&& field matches Some(f)
            &&& tokens[p] matches Token::Ident(word)
            &&& f.name == word@
            &&& !f.is_pub
            &&& f.attrs.len() == 0
            &&& if ends[i] == p + 3 {
                let n = tokens[p + 2]->Literal_0->Int_0;
                &&& f.count is None
                &&& f.length == if n == 0 || n > 64 {
                    1
                } else {
                    n as int
                }
            } else {
                let n = tokens[p + 3]->Literal_0->Int_0;
                let count = tokens[p + 5]->Literal_0->Int_0;
                &&& f.length == if n == 0 || n > 64 {
                    1
                } else {
                    n as int
                }
                &&& f.count == Some(
                    if count == 0 {
                        1
                    } else {
                        count as usize
                    },
                )
            }
        }),
{
    let reader = before(tokens, starts, ends, i);
    let p = starts[i];
    let name = tokens[p]->Ident_0@;
    lemma_errors_next(tokens, starts, ends, i);
    if ends[i] == p + 3 {
        law_scalar_field(reader, p, name);
        assert(reader.field().1 =~= behind(tokens, starts, ends, i));
    } else {
        law_array_field(reader, p, name);
        assert(reader.field().1 =~= behind(tokens, starts, ends, i));
    }
}

/// Fields laid out one behind another are read as a chain.
proof fn lemma_laid_out(tokens: Seq<Token>, starts: Seq<int>, ends: Seq<int>) -> (fs: Seq<
    FieldView,
>)
    requires
        tokens.len() <= usize::MAX,
        tokens.len() > 2,
        tokens[0] is Ident,
        tokens[1] == Token::Punct(Punct::Comma),
        starts.len() == ends.len() > 0,
        starts[0] == 2,
        forall|i: int|
            #![trigger starts[i]]
            0 < i < starts.len() ==> starts[i] == ends[i - 1] + 1 && tokens[starts[i] - 1]
                == Token::Punct(Punct::Comma),
        forall|i: int|
            #![trigger starts[i]]
            0 <= i < starts.len() ==> {
                let p = starts[i];
                &&& 2 <= p < ends[i] <= tokens.len()
                &&& tokens[p] is Ident
                &&& tokens[p + 1] == Token::Punct(Punct::Colon)
                &&& if ends[i] == p + 3 {
                    tokens[p + 2] matches Token::Literal(Literal::Int(_))
                } else {
                    &&& ends[i] == p + 7
                    &&& tokens[p + 2] == Token::Punct(Punct::OpenBracket)
                    &&& tokens[p + 3] matches Token::Literal(Literal::Int(_))
                    &&& tokens[p + 4] == Token::Punct(Punct::Semi)
                    &&& tokens[p + 5] matches Token::Literal(Literal::Int(_))
                    &&& tokens[p + 6] == Token::Punct(Punct::CloseBracket)
                }
            },
    ensures
        fs.len() == starts.len(),
        forall|i: int|
            #![trigger fs[i]]
            0 <= i < starts.len() ==> before(tokens, starts, ends, i).field().0 == Some(fs[i]),
        ({
            let (fields, end) = before(tokens, starts, ends, 0).fields(Seq::empty());
            let last = behind(tokens, starts, ends, starts.len() - 1);
            let at = ends.last();
            if at == tokens.len() {
                fields == Some(fs) && end == last
            } else if tokens[at] != Token::Punct(Punct::Comma) {
                &&& fields == Some(Seq::<FieldView>::empty())
                &&& end.tokens == tokens
                &&& end.pos == at
                &&& end.diagnostics == last.diagnostics.push(
                    Diagnostic { kind: ErrorKind::ExpectedPunct(Punct::Comma), at: at as usize },
                )
            } else {
                at + 1 == tokens.len() ==> {
                    &&& fields == Some(fs)
                    &&& end.tokens == tokens
                    &&& end.pos == tokens.len()
                    &&& end.diagnostics == last.diagnostics
                }
            }
        }),
        ({
            let (declaration, end) = Reader::start(tokens).declaration();
            let (fields, last) = before(tokens, starts, ends, 0).fields(Seq::empty());
            &&& end == last
            &&& fields is Some ==> declaration is Some && declaration->0.fields == fields->0
                && declaration->0.name == tokens[0]->Ident_0@
        }),
{
    let n = starts.len();
    let rs = Seq::new(n, |i: int| before(tokens, starts, ends, i));
    let es = Seq::new(n, |i: int| behind(tokens, starts, ends, i));
    let fs = Seq::new(n, |i: int| before(tokens, starts, ends, i).field().0->0);
    assert forall|i: int| #![trigger rs[i]] 0 <= i < n implies rs[i].pos < tokens.len()
        && rs[i].tokens == tokens && rs[i].field() == (Some(fs[i]), es[i]) by {
        assert(2 <= starts[i]);
        lemma_field_read(tokens, starts, ends, i);
    }
    assert forall|i: int| #![trigger es[i]] 0 <= i < n - 1 implies es[i].pos < tokens.len()
        && tokens[es[i].pos as int] == Token::Punct(Punct::Comma) && rs[i + 1].pos == es[i].pos + 1
        && rs[i + 1].diagnostics == es[i].diagnostics by {
        assert(starts[i + 1] == ends[i] + 1);
        assert(2 <= starts[i] < ends[i]);
    }
    let first = before(tokens, starts, ends, 0);
    law_fields(first, tokens, fs, rs, es);
    assert(2 <= starts[n - 1] < ends[n - 1] <= tokens.len());
    assert(es[n - 1] == behind(tokens, starts, ends, n - 1));
    let reader = Reader::start(tokens);
    law_declaration(reader, 0, tokens[0]->Ident_0@);
    let none = Seq::<Diagnostic>::empty();
    assert(reader.diagnostics + none + none =~= first.diagnostics);
    fs
}

/// Where the tokens are those of a declaration, but for numbers that are out of range, every such
/// number has an error of its own on its own token, and there is no other error. Reading goes on
/// to the last token, and the declaration has every field that the tokens spell, with 1 in the
/// place of each number that is out of range.
pub proof fn law_faults_reported(tokens: Seq<Token>, starts: Seq<int>, ends: Seq<int>)
    requires
        tokens.len() <= usize::MAX,
        tokens.len() > 2,
        tokens[0] is Ident,
        tokens[1] == Token::Punct(Punct::Comma),
        starts.len() == ends.len() > 0,
        starts[0] == 2,
        forall|i: int|
            #![trigger starts[i]]
            0 < i < starts.len() ==> starts[i] == ends[i - 1] + 1 && tokens[starts[i] - 1]
                == Token::Punct(Punct::Comma),
        forall|i: int|
            #![trigger starts[i]]
            0 <= i < starts.len() ==> {
                let p = starts[i];
                &&& 2 <= p < ends[i] <= tokens.len()
                &&& tokens[p] is Ident
                &&& tokens[p + 1] == Token::Punct(Punct::Colon)
                &&& if ends[i] == p + 3 {
                    tokens[p + 2] matches Token::Literal(Literal::Int(_))
                } else {
                    &&& ends[i] == p + 7
                    &&& tokens[p + 2] == Token::Punct(Punct::OpenBracket)
                    &&& tokens[p + 3] matches Token::Literal(Literal::Int(_))
                    &&& tokens[p + 4] == Token::Punct(Punct::Semi)
                    &&& tokens[p + 5] matches Token::Literal(Literal::Int(_))
                    &&& tokens[p + 6] == Token::Punct(Punct::CloseBracket)
                }
            },
        ({
            let end = ends[starts.len() - 1];
            ||| end == tokens.len()
            ||| end + 1 == tokens.len() && tokens[end] == Token::Punct(Punct::Comma)
        }),
    ensures
        ({
            let (declaration, end) = Reader::start(tokens).declaration();
            &&& end.pos == tokens.len()
            &&& end.diagnostics == Seq::new(
                starts.len(),
                |i: int|
                    {
                        let p = starts[i];
                        if ends[i] == p + 3 {
                            let n = tokens[p + 2]->Literal_0->Int_0;
                            if n == 0 || n > 64 {
                                seq![
                                    Diagnostic {
                                        kind: ErrorKind::FieldLength,
                                        at: (p + 2) as usize,
                                    },
                                ]
                            } else {
                                Seq::<Diagnostic>::empty()
                            }
                        } else {
                            let n = tokens[p + 3]->Literal_0->Int_0;
                            let count = tokens[p + 5]->Literal_0->Int_0;
                            (if n == 0 || n > 64 {
                                seq![
                                    Diagnostic {
                                        kind: ErrorKind::ElementLength,
                                        at: (p + 3) as usize,
                                    },
                                ]
                            } else {
                                Seq::<Diagnostic>::empty()
                            }) + (if count == 0 {
                                seq![
                                    Diagnostic {
                                        kind: ErrorKind::ElementCount,
                                        at: (p + 5) as usize,
                                    },
                                ]
                            } else {
                                Seq::<Diagnostic>::empty()
                            })
                        }
                    },
            ).flatten()
            &&& declaration matches Some(d)
            &&& tokens[0] matches Token::Ident(word)
            &&& d.name == word@
            &&& d.fields.len() == starts.len()
            &&& forall|i: int|
                #![trigger d.fields[i]]
                0 <= i < starts.len() ==> {
                        let p = starts[i];
                        let f = d.fields[i];
                        &&& tokens[p] matches Token::Ident(word)
                        &&& f.name == word@
                        &&& !f.is_pub
                        &&& f.attrs.len() == 0
                        &&& if ends[i] == p + 3 {
                            let n = tokens[p + 2]->Literal_0->Int_0;
                            &&& f.count is None
                            &&& f.length == if n == 0 || n > 64 {
                                1
                            } else {
                                n as int
                            }
                        } else {
                            let n = tokens[p + 3]->Literal_0->Int_0;
                            let count = tokens[p + 5]->Literal_0->Int_0;
                            &&& f.length == if n == 0 || n > 64 {
                                1
                            } else {
                                n as int
                            }
                            &&& f.count == Some(
                                if count == 0 {
                                    1
                                } else {
                                    count as usize
                                },
                            )
                        }
                    }
        }),
{
    let fs = lemma_laid_out(tokens, starts, ends);
    let errors = Seq::new(
        starts.len(),
        |i: int| number_errors(tokens, starts[i], ends[i]),
    );
    assert(Seq::new(
                starts.len(),
                |i: int|
                    {
                        let p = starts[i];
                        if ends[i] == p + 3 {
                            let n = tokens[p + 2]->Literal_0->Int_0;
                            if n == 0 || n > 64 {
                                seq![
                                    Diagnostic {
                                        kind: ErrorKind::FieldLength,
                                        at: (p + 2) as usize,
                                    },
                                ]
                            } else {
                                Seq::<Diagnostic>::empty()
                            }
                        } else {
                            let n = tokens[p + 3]->Literal_0->Int_0;
                            let count = tokens[p + 5]->Literal_0->Int_0;
                            (if n == 0 || n > 64 {
                                seq![
                                    Diagnostic {
                                        kind: ErrorKind::ElementLength,
                                        at: (p + 3) as usize,
                                    },
                                ]
                            } else {
                                Seq::<Diagnostic>::empty()
                            }) + (if count == 0 {
                                seq![
                                    Diagnostic {
                                        kind: ErrorKind::ElementCount,
                                        at: (p + 5) as usize,
                                    },
                                ]
                            } else {
                                Seq::<Diagnostic>::empty()
                            })
                        }
                    },
            ) =~= errors);
    let d = Reader::start(tokens).declaration().0->0;
    assert forall|i: int| #![trigger d.fields[i]] 0 <= i < starts.len() implies {
                        let p = starts[i];
                        let f = d.fields[i];
                        &&& tokens[p] matches Token::Ident(word)
                        &&& f.name == word@
                        &&& !f.is_pub
                        &&& f.attrs.len() == 0
                        &&& if ends[i] == p + 3 {
                            let n = tokens[p + 2]->Literal_0->Int_0;
                            &&& f.count is None
                            &&& f.length == if n == 0 || n > 64 {
                                1
                            } else {
                                n as int
                            }
                        } else {
                            let n = tokens[p + 3]->Literal_0->Int_0;
                            let count = tokens[p + 5]->Literal_0->Int_0;
                            &&& f.length == if n == 0 || n > 64 {
                                1
                            } else {
                                n as int
                            }
                            &&& f.count == Some(
                                if count == 0 {
                                    1
                                } else {
                                    count as usize
                                },
                            )
                        }
                    } by {
        assert(2 <= starts[i]);
        lemma_field_read(tokens, starts, ends, i);
        assert(d.fields[i] == fs[i]);
    }
}

/// Where fields are followed by a token that is no comma, it is reported as standing in the place
/// of a comma, behind the errors on the numbers of the fields. Reading stops there, and the
/// declaration has no fields, however many were read.
pub proof fn law_missing_comma(tokens: Seq<Token>, starts: Seq<int>, ends: Seq<int>)
    requires
        tokens.len() <= usize::MAX,
        tokens.len() > 2,
        tokens[0] is Ident,
        tokens[1] == Token::Punct(Punct::Comma),
        starts.len() == ends.len() > 0,
        starts[0] == 2,
        forall|i: int|
            #![trigger starts[i]]
            0 < i < starts.len() ==> starts[i] == ends[i - 1] + 1 && tokens[starts[i] - 1]
                == Token::Punct(Punct::Comma),
        forall|i: int|
            #![trigger starts[i]]
            0 <= i < starts.len() ==> {
                let p = starts[i];
                &&& 2 <= p < ends[i] <= tokens.len()
                &&& tokens[p] is Ident
                &&& tokens[p + 1] == Token::Punct(Punct::Colon)
                &&& if ends[i] == p + 3 {
                    tokens[p + 2] matches Token::Literal(Literal::Int(_))
                } else {
                    &&& ends[i] == p + 7
                    &&& tokens[p + 2] == Token::Punct(Punct::OpenBracket)
                    &&& tokens[p + 3] matches Token::Literal(Literal::Int(_))
                    &&& tokens[p + 4] == Token::Punct(Punct::Semi)
                    &&& tokens[p + 5] matches Token::Literal(Literal::Int(_))
                    &&& tokens[p + 6] == Token::Punct(Punct::CloseBracket)
                }
            },
        ends[starts.len() - 1] < tokens.len(),
        tokens[ends[starts.len() - 1]] != Token::Punct(Punct::Comma),
    ensures
        ({
            let (declaration, end) = Reader::start(tokens).declaration();
            let at = ends[starts.len() - 1];
            &&& end.pos == at
            &&& end.diagnostics == Seq::new(
                starts.len(),
                |i: int|
                    {
                        let p = starts[i];
                        if ends[i] == p + 3 {
                            let n = tokens[p + 2]->Literal_0->Int_0;
                            if n == 0 || n > 64 {
                                seq![
                                    Diagnostic {
                                        kind: ErrorKind::FieldLength,
                                        at: (p + 2) as usize,
                                    },
                                ]
                            } else {
                                Seq::<Diagnostic>::empty()
                            }
                        } else {
                            let n = tokens[p + 3]->Literal_0->Int_0;
                            let count = tokens[p + 5]->Literal_0->Int_0;
                            (if n == 0 || n > 64 {
                                seq![
                                    Diagnostic {
                                        kind: ErrorKind::ElementLength,
                                        at: (p + 3) as usize,
                                    },
                                ]
                            } else {
                                Seq::<Diagnostic>::empty()
                            }) + (if count == 0 {
                                seq![
                                    Diagnostic {
                                        kind: ErrorKind::ElementCount,
                                        at: (p + 5) as usize,
                                    },
                                ]
                            } else {
                                Seq::<Diagnostic>::empty()
                            })
                        }
                    },
            ).flatten().push(
                Diagnostic { kind: ErrorKind::ExpectedPunct(Punct::Comma), at: at as usize },
            )
            &&& declaration matches Some(d)
            &&& tokens[0] matches Token::Ident(word)
            &&& d.name == word@
            &&& d.fields.len() == 0
        }),
{
    let fs = lemma_laid_out(tokens, starts, ends);
    let errors = Seq::new(
        starts.len(),
        |i: int| number_errors(tokens, starts[i], ends[i]),
    );
    assert(Seq::new(
                starts.len(),
                |i: int|
                    {
                        let p = starts[i];
                        if ends[i] == p + 3 {
                            let n = tokens[p + 2]->Literal_0->Int_0;
                            if n == 0 || n > 64 {
                                seq![
                                    Diagnostic {
                                        kind: ErrorKind::FieldLength,
                                        at: (p + 2) as usize,
                                    },
                                ]
                            } else {
                                Seq::<Diagnostic>::empty()
                            }
                        } else {
                            let n = tokens[p + 3]->Literal_0->Int_0;
                            let count = tokens[p + 5]->Literal_0->Int_0;
                            (if n == 0 || n > 64 {
                                seq![
                                    Diagnostic {
                                        kind: ErrorKind::ElementLength,
                                        at: (p + 3) as usize,
                                    },
                                ]
                            } else {
                                Seq::<Diagnostic>::empty()
                            }) + (if count == 0 {
                                seq![
                                    Diagnostic {
                                        kind: ErrorKind::ElementCount,
                                        at: (p + 5) as usize,
                                    },
                                ]
                            } else {
                                Seq::<Diagnostic>::empty()
                            })
                        }
                    },
            ) =~= errors);
}

/// The texts of the errors. Only a missing token has none.
pub proof fn law_texts(kind: ErrorKind)
    ensures
        kind.text() == match kind {
            ErrorKind::UnsignedLiteral => Some("unsigned integer literal expected"@),
            ErrorKind::ElementLength => Some("Elements length must be > 0 and <= 64"@),
            ErrorKind::ElementCount => Some("Elements count must be > 0"@),
            ErrorKind::FieldLength => Some("Field length must be > 0 and <= 64"@),
            ErrorKind::ExpectedPunct(_) | ErrorKind::ExpectedIdent
            | ErrorKind::ExpectedLiteral => None,
        },
{
}

} // verus!

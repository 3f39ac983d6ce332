//! Which tokens spell a declaration, and laws of reading them.

use vstd::prelude::*;

use crate::ast::Attribute;
use crate::grammar::{lemma_attributes_advance, lemma_field_advances, DeclarationView, Reader};
use crate::layout::FieldView;
use crate::token::{ErrorKind, Literal, Punct, Token};

verus! {

/// Whether a field says something that a declaration can say: lengths are from 1 to 64, and an
/// array has an element.
pub open spec fn is_valid(field: FieldView) -> bool {
    &&& 1 <= field.length <= 64
    &&& field.count != Some(0usize)
}

/// The tokens from `lo` on begin with the attributes `attrs`.
pub open spec fn spells_attributes(tokens: Seq<Token>, lo: int, attrs: Seq<Attribute>) -> bool
    decreases attrs.len(),
{
    if attrs.len() == 0 {
        0 <= lo <= tokens.len()
    } else {
        &&& 0 <= lo < tokens.len()
        &&& tokens[lo] matches Token::Attribute { number, rest }
        &&& attrs[0] == Attribute::Outer(number)
        &&& spells_attributes(tokens, lo + 1 + rest, attrs.drop_first())
    }
}

/// Where the tokens of `n` attributes end, if they begin at `lo`.
pub open spec fn past_attributes(tokens: Seq<Token>, lo: int, n: nat) -> int
    decreases n,
{
    if n == 0 {
        lo
    } else {
        past_attributes(
            tokens,
            lo + 1 + tokens[lo]->Attribute_rest,
            (n - 1) as nat,
        )
    }
}

/// The tokens from `lo` on begin with the attributes `attrs`, followed by `pub` where `is_pub`
/// holds, and by the identifier `name`.
pub open spec fn spells_name(
    tokens: Seq<Token>,
    lo: int,
    attrs: Seq<Attribute>,
    is_pub: bool,
    name: Seq<char>,
) -> bool {
    let at_name = past_name(tokens, lo, attrs, is_pub) - 1;
    &&& spells_attributes(tokens, lo, attrs)
    &&& at_name < tokens.len()
    &&& is_pub ==> tokens[at_name - 1] == Token::Pub
    &&& tokens[at_name] matches Token::Ident(ident)
    &&& ident@ == name
}

/// Where the tokens of a name with its attributes end, if they begin at `lo`.
pub open spec fn past_name(
    tokens: Seq<Token>,
    lo: int,
    attrs: Seq<Attribute>,
    is_pub: bool,
) -> int {
    past_attributes(tokens, lo, attrs.len()) + if is_pub {
        2int
    } else {
        1int
    }
}

/// Where the tokens of a field end, if they begin at `lo`.
pub open spec fn past_field(tokens: Seq<Token>, lo: int, field: FieldView) -> int {
    past_name(tokens, lo, field.attrs, field.is_pub) + match field.count {
        None => 2int,
        Some(_) => 6int,
    }
}

/// The tokens from `lo` on begin with `field`: `attributes pub name: length` or
/// `attributes pub name: [length; count]`.
pub open spec fn spells_field(tokens: Seq<Token>, lo: int, field: FieldView) -> bool {
    let at = past_name(tokens, lo, field.attrs, field.is_pub);
    let length = Token::Literal(Literal::Int(field.length as u64));
    &&& past_field(tokens, lo, field) <= tokens.len()
    &&& spells_name(tokens, lo, field.attrs, field.is_pub, field.name)
    &&& tokens[at] == Token::Punct(Punct::Colon)
    &&& match field.count {
        None => tokens[at + 1] == length,
        Some(count) => {
            &&& tokens[at + 1] == Token::Punct(Punct::OpenBracket)
            &&& tokens[at + 2] == length
            &&& tokens[at + 3] == Token::Punct(Punct::Semi)
            &&& tokens[at + 4] == Token::Literal(Literal::Int(count as u64))
            &&& tokens[at + 5] == Token::Punct(Punct::CloseBracket)
        },
    }
}

/// The tokens from `lo` on are `fields`, with a comma in front of each, and perhaps one more
/// comma.
pub open spec fn spells_more(tokens: Seq<Token>, lo: int, fields: Seq<FieldView>) -> bool
    decreases fields.len(),
{
    if fields.len() == 0 {
        ||| lo == tokens.len()
        ||| lo + 1 == tokens.len() && tokens[lo] == Token::Punct(Punct::Comma)
    } else {
        &&& lo < tokens.len()
        &&& tokens[lo] == Token::Punct(Punct::Comma)
        &&& spells_field(tokens, lo + 1, fields[0])
        &&& spells_more(tokens, past_field(tokens, lo + 1, fields[0]), fields.drop_first())
    }
}

/// The tokens from `lo` on are `fields`, with commas between them and perhaps one at the end.
pub open spec fn spells_fields(tokens: Seq<Token>, lo: int, fields: Seq<FieldView>) -> bool {
    if fields.len() == 0 {
        lo == tokens.len()
    } else {
        &&& spells_field(tokens, lo, fields[0])
        &&& spells_more(tokens, past_field(tokens, lo, fields[0]), fields.drop_first())
    }
}

/// The tokens are `declaration`: `attributes pub Name, field, ..`.
pub open spec fn spells(tokens: Seq<Token>, declaration: DeclarationView) -> bool {
    let at = past_name(tokens, 0, declaration.attrs, declaration.is_pub);
    &&& at < tokens.len()
    &&& spells_name(tokens, 0, declaration.attrs, declaration.is_pub, declaration.name)
    &&& tokens[at] == Token::Punct(Punct::Comma)
    &&& spells_fields(tokens, at + 1, declaration.fields)
}

/// The reader `reader` moved to token `pos`.
spec fn moved(reader: Reader, pos: int) -> Reader {
    Reader { pos: pos as nat, ..reader }
}

/// Attributes that are spelled out lie inside the tokens.
proof fn lemma_attributes_inside(tokens: Seq<Token>, lo: int, attrs: Seq<Attribute>)
    requires
        spells_attributes(tokens, lo, attrs),
    ensures
        0 <= lo <= past_attributes(tokens, lo, attrs.len()) <= tokens.len(),
    decreases attrs.len(),
{
    if attrs.len() > 0 {
        let next = lo + 1 + tokens[lo]->Attribute_rest;
        lemma_attributes_inside(tokens, next, attrs.drop_first());
    }
}

/// Attributes that are spelled out are read.
proof fn lemma_attributes_read(reader: Reader, read: Seq<Attribute>, attrs: Seq<Attribute>)
    requires
        spells_attributes(reader.tokens, reader.pos as int, attrs),
        past_attributes(reader.tokens, reader.pos as int, attrs.len()) < reader.tokens.len(),
        !(reader.tokens[past_attributes(
            reader.tokens,
            reader.pos as int,
            attrs.len(),
        )] is Attribute),
    ensures
        reader.more_attributes(read) == (
            read + attrs,
            moved(reader, past_attributes(reader.tokens, reader.pos as int, attrs.len())),
        ),
    decreases attrs.len(),
{
    if attrs.len() == 0 {
        assert(read + attrs =~= read);
        assert(moved(reader, reader.pos as int) == reader);
    } else {
        let rest = reader.tokens[reader.pos as int]->Attribute_rest;
        let next = reader.skip(1 + rest as nat);
        lemma_attributes_inside(reader.tokens, reader.pos + 1 + rest, attrs.drop_first());
        lemma_attributes_read(next, read.push(attrs[0]), attrs.drop_first());
        assert(read.push(attrs[0]) + attrs.drop_first() =~= read + attrs);
    }
}

/// A name that is spelled out is read.
proof fn lemma_name_read(reader: Reader, attrs: Seq<Attribute>, is_pub: bool, name: Seq<char>)
    requires
        spells_name(reader.tokens, reader.pos as int, attrs, is_pub, name),
    ensures
        reader.attributes() == attrs,
        reader.skip_attributes().sees_pub() == is_pub,
        reader.skip_attributes().eat_pub().name() == (
            Some(name),
            moved(reader, past_name(reader.tokens, reader.pos as int, attrs, is_pub)),
        ),
        reader.pos < past_name(reader.tokens, reader.pos as int, attrs, is_pub)
            <= reader.tokens.len(),
{
    let none = Seq::<Attribute>::empty();
    lemma_attributes_inside(reader.tokens, reader.pos as int, attrs);
    lemma_attributes_read(reader, none, attrs);
    assert(none + attrs =~= attrs);
}

/// A field that is spelled out is read, without an error.
proof fn lemma_field_read(reader: Reader, field: FieldView)
    requires
        spells_field(reader.tokens, reader.pos as int, field),
        is_valid(field),
    ensures
        reader.field() == (
            Some(field),
            moved(reader, past_field(reader.tokens, reader.pos as int, field)),
        ),
        reader.pos < past_field(reader.tokens, reader.pos as int, field) <= reader.tokens.len(),
{
    lemma_name_read(reader, field.attrs, field.is_pub, field.name);
    let past = moved(reader, past_name(reader.tokens, reader.pos as int, field.attrs, field.is_pub));
    assert(past.expect(Punct::Colon) == moved(reader, past.pos + 1int));
    let (count, length, end) = moved(reader, past.pos + 1int).shape();
    assert(length == field.length);
    assert(count == field.count);
    assert(end == moved(reader, past_field(reader.tokens, reader.pos as int, field)));
}

/// Fields that are spelled out are read, without an error.
proof fn lemma_more_read(reader: Reader, read: Seq<FieldView>, fields: Seq<FieldView>)
    requires
        read.len() > 0,
        reader.pos <= reader.tokens.len(),
        spells_more(reader.tokens, reader.pos as int, fields),
        forall|i: int| 0 <= i < fields.len() ==> is_valid(#[trigger] fields[i]),
    ensures
        reader.fields(read) == (
            Some(read + fields),
            moved(reader, reader.tokens.len() as int),
        ),
    decreases fields.len(),
{
    if fields.len() == 0 {
        assert(read + fields =~= read);
        if !reader.at_end() {
            assert(reader.bump() == moved(reader, reader.tokens.len() as int));
        }
    } else {
        let here = reader.bump();
        let field = fields[0];
        lemma_field_read(here, field);
        let next = here.field().1;
        assert forall|i: int| 0 <= i < fields.drop_first().len() implies is_valid(
            #[trigger] fields.drop_first()[i],
        ) by {
            assert(fields[i + 1] == fields.drop_first()[i]);
        }
        lemma_more_read(next, read.push(field), fields.drop_first());
        assert(read.push(field) + fields.drop_first() =~= read + fields);
        assert(reader.fields(read) == next.fields(read.push(field)));
    }
}

/// A declaration is read from the tokens that spell it, without an error.
pub proof fn law_declaration_read(tokens: Seq<Token>, declaration: DeclarationView)
    requires
        spells(tokens, declaration),
        forall|i: int|
            0 <= i < declaration.fields.len() ==> is_valid(#[trigger] declaration.fields[i]),
    ensures
        Reader::start(tokens).declaration() == (
            Some(declaration),
            Reader { pos: tokens.len(), ..Reader::start(tokens) },
        ),
{
    let reader = Reader::start(tokens);
    let fields = declaration.fields;
    lemma_name_read(reader, declaration.attrs, declaration.is_pub, declaration.name);
    let at = past_name(tokens, 0, declaration.attrs, declaration.is_pub);
    let here = moved(reader, at + 1);
    assert(moved(reader, at).bump() == here);
    let none = Seq::<FieldView>::empty();
    if fields.len() == 0 {
        assert(fields =~= none);
    } else {
        let field = fields[0];
        lemma_field_read(here, field);
        let next = here.field().1;
        assert forall|i: int| 0 <= i < fields.drop_first().len() implies is_valid(
            #[trigger] fields.drop_first()[i],
        ) by {
            assert(fields[i + 1] == fields.drop_first()[i]);
        }
        lemma_more_read(next, none.push(field), fields.drop_first());
        assert(none.push(field) + fields.drop_first() =~= fields);
        assert(here.fields(none) == next.fields(none.push(field)));
    }
    assert(here.fields(none) == (Some(fields), moved(reader, tokens.len() as int)));
}

/// Whether every integer among the tokens can be a number of elements.
pub open spec fn has_small_numbers(tokens: Seq<Token>) -> bool {
    forall|i: int|
        0 <= i < tokens.len() ==> (#[trigger] tokens[i] matches Token::Literal(Literal::Int(n))
            ==> n <= usize::MAX)
}

/// Reading a field takes back no error.
proof fn lemma_field_reports(reader: Reader)
    requires
        reader.pos <= reader.tokens.len(),
    ensures
        reader.field().1.diagnostics.len() >= reader.diagnostics.len(),
        reader.field().0 is None ==> reader.field().1.diagnostics.len()
            > reader.diagnostics.len(),
{
    lemma_name_reports(reader);
}

/// Reading fields takes back no error, and stops early only with one.
proof fn lemma_fields_report(reader: Reader, read: Seq<FieldView>)
    requires
        reader.pos <= reader.tokens.len(),
    ensures
        reader.fields(read).1.diagnostics.len() >= reader.diagnostics.len(),
        reader.fields(read).0 is None ==> reader.fields(read).1.diagnostics.len()
            > reader.diagnostics.len(),
    decreases reader.tokens.len() - reader.pos,
{
    if !reader.at_end() && (read.len() == 0 || reader.sees(Punct::Comma)) {
        let here = if read.len() > 0 {
            reader.bump()
        } else {
            reader
        };
        if !here.at_end() {
            lemma_field_advances(here);
            lemma_field_reports(here);
            if here.field().0 is Some {
                lemma_fields_report(here.field().1, read.push(here.field().0.unwrap()));
            }
        }
    }
}

/// Attributes that are read are spelled out, unless they reach the end.
proof fn lemma_attributes_spelled(reader: Reader, read: Seq<Attribute>) -> (attrs: Seq<Attribute>)
    requires
        reader.pos <= reader.tokens.len(),
        !reader.more_attributes(read).1.at_end(),
    ensures
        reader.more_attributes(read).0 == read + attrs,
        spells_attributes(reader.tokens, reader.pos as int, attrs),
        reader.more_attributes(read).1 == moved(
            reader,
            past_attributes(reader.tokens, reader.pos as int, attrs.len()),
        ),
    decreases reader.tokens.len() - reader.pos,
{
    let none = Seq::<Attribute>::empty();
    if let Some(Token::Attribute { number, rest }) = reader.peek() {
        let next = reader.skip(1 + rest as nat);
        let first = Attribute::Outer(number);
        lemma_attributes_advance(next, read.push(first));
        let more = lemma_attributes_spelled(next, read.push(first));
        let attrs = seq![first] + more;
        assert(attrs.drop_first() =~= more);
        assert(read.push(first) + more =~= read + attrs);
        attrs
    } else {
        assert(read + none =~= read);
        assert(moved(reader, reader.pos as int) == reader);
        none
    }
}

/// A name that is read without an error is spelled out.
proof fn lemma_name_spelled(reader: Reader)
    requires
        reader.pos <= reader.tokens.len(),
        reader.skip_attributes().eat_pub().name().0 is Some,
        reader.skip_attributes().eat_pub().name().1.diagnostics.len() == reader.diagnostics.len(),
    ensures
        spells_name(
            reader.tokens,
            reader.pos as int,
            reader.attributes(),
            reader.skip_attributes().sees_pub(),
            reader.skip_attributes().eat_pub().name().0.unwrap(),
        ),
        reader.skip_attributes().eat_pub().name().1 == moved(
            reader,
            past_name(
                reader.tokens,
                reader.pos as int,
                reader.attributes(),
                reader.skip_attributes().sees_pub(),
            ),
        ),
        reader.pos < past_name(
            reader.tokens,
            reader.pos as int,
            reader.attributes(),
            reader.skip_attributes().sees_pub(),
        ) <= reader.tokens.len(),
{
    let none = Seq::<Attribute>::empty();
    lemma_attributes_advance(reader, none);
    let attrs = lemma_attributes_spelled(reader, none);
    assert(none + attrs =~= attrs);
    lemma_attributes_inside(reader.tokens, reader.pos as int, attrs);
}

/// Reading a name takes back no error.
proof fn lemma_name_reports(reader: Reader)
    requires
        reader.pos <= reader.tokens.len(),
    ensures
        ({
            let (name, next) = reader.skip_attributes().eat_pub().name();
            &&& next.tokens == reader.tokens
            &&& reader.pos <= next.pos <= reader.tokens.len()
            &&& next.diagnostics.len() >= reader.diagnostics.len()
            &&& name is None ==> next.diagnostics.len() > reader.diagnostics.len()
        }),
{
    lemma_attributes_advance(reader, Seq::empty());
}

/// A field that is read without an error is valid and spelled out.
proof fn lemma_field_spelled(reader: Reader)
    requires
        reader.pos <= reader.tokens.len(),
        has_small_numbers(reader.tokens),
        reader.field().0 is Some,
        reader.field().1.diagnostics.len() == reader.diagnostics.len(),
    ensures
        is_valid(reader.field().0.unwrap()),
        spells_field(reader.tokens, reader.pos as int, reader.field().0.unwrap()),
        reader.field().1 == moved(
            reader,
            past_field(reader.tokens, reader.pos as int, reader.field().0.unwrap()),
        ),
        reader.pos < past_field(
            reader.tokens,
            reader.pos as int,
            reader.field().0.unwrap(),
        ) <= reader.tokens.len(),
{
    lemma_name_reports(reader);
    lemma_name_spelled(reader);
    let field = reader.field().0.unwrap();
    let past = moved(reader, past_name(reader.tokens, reader.pos as int, field.attrs, field.is_pub));
    assert(past.sees(Punct::Colon));
    let here = moved(reader, past.pos + 1int);
    assert(past.expect(Punct::Colon) == here);
    if here.sees(Punct::OpenBracket) {
        let past_length = here.bump().checked_number(64, ErrorKind::ElementLength).1;
        assert(past_length.sees(Punct::Semi));
        let at_count = past_length.expect(Punct::Semi);
        let past_count = at_count.checked_number(u64::MAX, ErrorKind::ElementCount).1;
        assert(past_count.sees(Punct::CloseBracket));
        assert(at_count == moved(reader, here.pos + 3int));
    }
}

/// Fields that are read without an error are valid and spelled out.
proof fn lemma_more_spelled(reader: Reader, read: Seq<FieldView>) -> (fields: Seq<FieldView>)
    requires
        read.len() > 0,
        reader.pos <= reader.tokens.len(),
        has_small_numbers(reader.tokens),
        reader.fields(read).0 is Some,
        reader.fields(read).1.diagnostics.len() == reader.diagnostics.len(),
    ensures
        reader.fields(read).0 == Some(read + fields),
        spells_more(reader.tokens, reader.pos as int, fields),
        forall|i: int| 0 <= i < fields.len() ==> is_valid(#[trigger] fields[i]),
    decreases reader.tokens.len() - reader.pos,
{
    let none = Seq::<FieldView>::empty();
    if reader.at_end() || reader.bump().at_end() {
        assert(read + none =~= read);
        none
    } else {
        let here = reader.bump();
        lemma_field_advances(here);
        lemma_field_reports(here);
        let field = here.field().0.unwrap();
        let next = here.field().1;
        lemma_fields_report(next, read.push(field));
        lemma_field_spelled(here);
        let more = lemma_more_spelled(next, read.push(field));
        let fields = seq![field] + more;
        assert(fields.drop_first() =~= more);
        assert(read.push(field) + more =~= read + fields);
        fields
    }
}

/// A declaration that is read without an error is valid and is what the tokens spell. Left out
/// are tokens with a number of elements that the machine cannot count up to.
pub proof fn law_error_free_spelled(tokens: Seq<Token>, declaration: DeclarationView)
    requires
        has_small_numbers(tokens),
        Reader::start(tokens).declaration().0 == Some(declaration),
        Reader::start(tokens).declaration().1.diagnostics.len() == 0,
    ensures
        spells(tokens, declaration),
        forall|i: int|
            0 <= i < declaration.fields.len() ==> is_valid(#[trigger] declaration.fields[i]),
{
    let reader = Reader::start(tokens);
    lemma_name_reports(reader);
    let named = reader.skip_attributes().eat_pub().name().1;
    lemma_fields_report(
        if named.sees(Punct::Comma) {
            named.bump()
        } else {
            named.report(ErrorKind::ExpectedPunct(Punct::Comma), named.pos as int)
        },
        Seq::empty(),
    );
    lemma_name_spelled(reader);
    let at = past_name(tokens, 0, declaration.attrs, declaration.is_pub);
    let past = moved(reader, at);
    assert(named == past);
    let none = Seq::<FieldView>::empty();
    if !past.sees(Punct::Comma) {
        lemma_fields_report(
            past.report(ErrorKind::ExpectedPunct(Punct::Comma), past.pos as int),
            none,
        );
        assert(false);
    }
    let here = moved(reader, at + 1);
    assert(past.bump() == here);
    if !here.at_end() {
        lemma_field_advances(here);
        lemma_field_reports(here);
        let field = here.field().0.unwrap();
        let next = here.field().1;
        lemma_fields_report(next, none.push(field));
        lemma_field_spelled(here);
        let more = lemma_more_spelled(next, none.push(field));
        assert(declaration.fields =~= seq![field] + more);
        assert(declaration.fields.drop_first() =~= more);
    }
}

/// Reading a declaration stops early only with an error.
pub proof fn law_abort_reports(tokens: Seq<Token>)
    requires
        Reader::start(tokens).declaration().0 is None,
    ensures
        Reader::start(tokens).declaration().1.diagnostics.len() > 0,
{
    let reader = Reader::start(tokens);
    lemma_name_reports(reader);
    let past_name = reader.skip_attributes().eat_pub().name().1;
    let past_comma = if past_name.sees(Punct::Comma) {
        past_name.bump()
    } else {
        past_name.report(ErrorKind::ExpectedPunct(Punct::Comma), past_name.pos as int)
    };
    lemma_fields_report(past_comma, Seq::empty());
}

} // verus!

//! Expansion of declarations.

use vstd::prelude::*;

use crate::ast::{Attribute, ImplItem, Item, Method};
use crate::faults::law_diagnostics_true;
use crate::field::Field;
use crate::grammar::{DeclarationView, Reader};
use crate::items::{all_impl_items, impl_items_of, merge_impls};
use crate::layout::{
    array_length, field_start, is_getter, is_setter, is_single_impl, lemma_next_start,
    lemma_starts_ordered, total_bits, FieldView,
};
use crate::parser::{field_views, parse_declaration, Declaration, Parser};
use crate::semantics::call_new;
use crate::storage::law_countable;
use crate::token::{Diagnostic, ErrorKind, Literal, Token};
use crate::types::{make_maybe_pub, visibility_of};

verus! {

/// Whether the bits of the fields can be counted.
pub open spec fn is_countable(fields: Seq<FieldView>) -> bool {
    total_bits(fields) + 7 <= u64::MAX
}

/// `item` is the struct that `declaration` declares: an array of as many bytes as hold its fields.
pub open spec fn is_struct(item: Item, declaration: DeclarationView) -> bool {
    &&& item matches Item::Struct { attrs, visibility, name, data_length }
    &&& attrs@ == declaration.attrs
    &&& visibility == visibility_of(declaration.is_pub)
    &&& name@ == declaration.name
    &&& match data_length {
        Some(length) => 0 < length && length == array_length(declaration.fields),
        None => array_length(declaration.fields) == 0,
    }
}

/// `item` is the method `new` of the struct that `declaration` declares: its call returns a struct
/// that holds the bytes it takes.
pub open spec fn is_new(item: ImplItem, declaration: DeclarationView) -> bool {
    &&& item.attrs.len() == 1
    &&& item.attrs[0] matches Attribute::Doc(text)
    &&& text@ == "Creates a new `"@ + declaration.name + "`"@
    &&& item.visibility == visibility_of(declaration.is_pub)
    &&& item.name@ == "new"@
    &&& item.method matches Method::New(length)
    &&& length == array_length(declaration.fields)
    &&& forall|data: Seq<u8>|
        data.len() == array_length(declaration.fields) ==> #[trigger] call_new(item, data) == Some(
            data,
        )
}

/// The number of methods in front of the accessors: `new`, where the struct has bytes.
pub open spec fn first_accessor(fields: Seq<FieldView>) -> int {
    if array_length(fields) > 0 {
        1
    } else {
        0
    }
}

/// The number of methods generated for `fields`.
pub open spec fn method_count(fields: Seq<FieldView>) -> int {
    first_accessor(fields) + 2 * fields.len()
}

/// Method `k` of an `impl` block. The last method stands in front of the others.
pub open spec fn method_at(item: Item, k: int) -> ImplItem {
    let impl_items = impl_items_of(item);
    if k + 1 == impl_items.len() {
        impl_items[0]
    } else {
        impl_items[k + 1]
    }
}

/// The method `new`, where there is one.
pub open spec fn new_of(items: Seq<Item>) -> ImplItem {
    method_at(items[1], 0)
}

/// The getter of field `i`.
pub open spec fn getter_at(items: Seq<Item>, fields: Seq<FieldView>, i: int) -> ImplItem {
    method_at(items[1], first_accessor(fields) + 2 * i)
}

/// The setter of field `i`.
pub open spec fn setter_at(items: Seq<Item>, fields: Seq<FieldView>, i: int) -> ImplItem {
    method_at(items[1], first_accessor(fields) + 2 * i + 1)
}

/// `items` are what `declaration` expands to: the struct and, unless it has neither bytes nor
/// fields, an `impl` block with `new` and the accessors of every field.
pub open spec fn is_expansion(items: Seq<Item>, declaration: DeclarationView) -> bool {
    let fields = declaration.fields;
    &&& items.len() == if method_count(fields) > 0 {
        2nat
    } else {
        1nat
    }
    &&& is_struct(items[0], declaration)
    &&& method_count(fields) > 0 ==> {
        &&& items[1] matches Item::Impl { name, impl_items }
        &&& name@ == declaration.name
        &&& impl_items.len() == method_count(fields)
    }
    &&& array_length(fields) > 0 ==> is_new(new_of(items), declaration)
    &&& forall|i: int|
        0 <= i < fields.len() ==> is_getter(
            #[trigger] getter_at(items, fields, i),
            fields[i],
            field_start(fields, i),
        )
    &&& forall|i: int|
        0 <= i < fields.len() ==> is_setter(
            #[trigger] setter_at(items, fields, i),
            fields[i],
            field_start(fields, i),
        )
}

/// `impl` blocks with one method each hold one method for each block.
proof fn lemma_single_impls(items: Seq<Item>, name: Seq<char>)
    requires
        forall|i: int| 0 <= i < items.len() ==> is_single_impl(#[trigger] items[i], name),
    ensures
        all_impl_items(items).len() == items.len(),
        forall|i: int|
            0 <= i < items.len() ==> #[trigger] all_impl_items(items)[i] == impl_items_of(
                items[i],
            )[0],
    decreases items.len(),
{
    if items.len() > 0 {
        lemma_single_impls(items.drop_last(), name);
        assert(is_single_impl(items.last(), name));
    }
}

/// Returns the number of bits that the fields take, or `None` where they cannot be counted.
fn checked_bit_length(fields: &Vec<Field>) -> (length: Option<u64>)
    ensures
        match length {
            Some(n) => is_countable(field_views(fields@)) && n == total_bits(field_views(fields@)),
            None => !is_countable(field_views(fields@)),
        },
{
    let ghost views = field_views(fields@);
    let mut length: u64 = 0;
    for i in 0..fields.len()
        invariant
            views == field_views(fields@),
            length == field_start(views, i as int),
            length + 7 <= u64::MAX,
    {
        proof {
            assert(views[i as int] == fields[i as int]@);
            lemma_next_start(views, i as int);
            lemma_starts_ordered(views, i + 1, views.len() as int);
        }
        let field_length: u128 = match &fields[i] {
            Field::Array { count, element_length, .. } => {
                proof {
                    assert(*count as int * *element_length as int <= 0x1_0000_0000_0000_0000 * 0x100)
                        by (nonlinear_arith)
                        requires
                            *count <= 0x1_0000_0000_0000_0000,
                            *element_length <= 0x100,
                    ;
                }
                (*count as u128) * (*element_length as u128)
            },
            Field::Scalar { length, .. } => *length as u128,
        };
        let sum: u128 = length as u128 + field_length;
        if sum + 7 > u64::MAX as u128 {
            return None;
        }
        length = sum as u64;
    }
    proof {
        assert(views.take(views.len() as int) =~= views);
    }
    Some(length)
}

/// Returns the items that a declaration expands to.
pub fn expand_declaration(declaration: Declaration) -> (items: Vec<Item>)
    requires
        declaration@.wf(),
        is_countable(declaration@.fields),
    ensures
        is_expansion(items@, declaration@),
{
    let ghost view = declaration@;
    let ghost views = view.fields;
    let Declaration { attrs, is_pub, name: struct_ident, fields } = declaration;
    let mut methods: Vec<Item> = Vec::new();
    let mut bit_length: u64 = 0;
    for i in 0..fields.len()
        invariant
            views == field_views(fields@),
            is_countable(views),
            bit_length == field_start(views, i as int),
    {
        proof {
            assert(views[i as int] == fields[i as int]@);
            lemma_next_start(views, i as int);
            lemma_starts_ordered(views, i + 1, views.len() as int);
        }
        bit_length = bit_length + fields[i].bit_len();
    }
    proof {
        assert(views.take(views.len() as int) =~= views);
    }
    let byte_length: usize = ((bit_length + 7) / 8) as usize;
    let maybe_pub = make_maybe_pub(is_pub);
    let data_length = if byte_length > 0 {
        let mut new_doc = "Creates a new `".to_owned();
        new_doc.append(struct_ident.as_str());
        new_doc.append("`");
        let new_attrs: Vec<Attribute> = vec![Attribute::Doc(new_doc)];
        let new_items: Vec<ImplItem> = vec![
            ImplItem {
                attrs: new_attrs,
                visibility: maybe_pub,
                name: "new".to_owned(),
                method: Method::New(byte_length),
            },
        ];
        methods.push(Item::Impl { name: struct_ident.clone(), impl_items: new_items });
        Some(byte_length)
    } else {
        None
    };
    let struct_decl = Item::Struct {
        attrs,
        visibility: maybe_pub,
        name: struct_ident.clone(),
        data_length,
    };

    let mut start: u64 = 0;
    let ghost first = first_accessor(views);
    for i in 0..fields.len()
        invariant
            views == field_views(fields@),
            view.fields == views,
            view.wf(),
            view.name == struct_ident@,
            is_countable(views),
            start == field_start(views, i as int),
            first == first_accessor(views),
            methods.len() == first + 2 * i,
            forall|k: int|
                0 <= k < methods.len() ==> is_single_impl(#[trigger] methods[k], view.name),
            first == 1 ==> is_new(impl_items_of(methods[0])[0], view),
            forall|j: int|
                0 <= j < i ==> is_getter(
                    impl_items_of(#[trigger] methods[first + 2 * j])[0],
                    views[j],
                    field_start(views, j),
                ),
            forall|j: int|
                0 <= j < i ==> is_setter(
                    impl_items_of(#[trigger] methods[first + 2 * j + 1])[0],
                    views[j],
                    field_start(views, j),
                ),
    {
        proof {
            assert(views[i as int] == fields[i as int]@);
            lemma_next_start(views, i as int);
            lemma_starts_ordered(views, i + 1, views.len() as int);
        }
        let ghost before = methods@;
        let mut accessors = fields[i].to_methods(&struct_ident, start);
        methods.append(&mut accessors);
        start = start + fields[i].bit_len();
        proof {
            assert forall|j: int| 0 <= j < i implies is_getter(
                impl_items_of(#[trigger] methods[first + 2 * j])[0],
                views[j],
                field_start(views, j),
            ) by {
                assert(methods[first + 2 * j] == before[first + 2 * j]);
            }
            assert forall|j: int| 0 <= j < i implies is_setter(
                impl_items_of(#[trigger] methods[first + 2 * j + 1])[0],
                views[j],
                field_start(views, j),
            ) by {
                assert(methods[first + 2 * j + 1] == before[first + 2 * j + 1]);
            }
        }
    }
    let mut items: Vec<Item> = Vec::new();
    items.push(struct_decl);
    if methods.len() > 0 {
        let ghost all = methods@;
        let merged = merge_impls(methods);
        proof {
            lemma_single_impls(all.drop_last(), view.name);
            assert(is_single_impl(all.last(), view.name));
            assert forall|k: int| 0 <= k < all.len() implies method_at(merged, k) == impl_items_of(
                #[trigger] all[k],
            )[0] by {
                assert(k + 1 < all.len() ==> all.drop_last()[k] == all[k]);
            }
        }
        items.push(merged);
        proof {
            assert forall|i: int| 0 <= i < views.len() implies is_getter(
                #[trigger] getter_at(items@, views, i),
                views[i],
                field_start(views, i),
            ) by {
                assert(is_single_impl(all[first + 2 * i], view.name));
            }
            assert forall|i: int| 0 <= i < views.len() implies is_setter(
                #[trigger] setter_at(items@, views, i),
                views[i],
                field_start(views, i),
            ) by {
                assert(is_single_impl(all[first + 2 * i + 1], view.name));
            }
        }
    }
    items
}

/// How an expansion ended.
#[derive(Debug, PartialEq, Eq)]
pub enum Outcome {
    /// With these items. Where errors were reported, they are what could be made of the rest.
    Expanded(Vec<Item>),
    /// With an error after which reading could not go on.
    Aborted,
    /// With fields that have more bits than can be counted.
    TooLarge,
}

/// The result of an expansion and the errors reported.
#[derive(Debug, PartialEq, Eq)]
pub struct Expansion {
    pub outcome: Outcome,
    pub diagnostics: Vec<Diagnostic>,
}

/// Expands a declaration: `attributes pub Name, field, ..`, where a field is
/// `attributes pub name: length` or `attributes pub name: [element_length; count]`.
pub fn expand_bitfield(tokens: Vec<Token>) -> (expansion: Expansion)
    ensures
        expansion.diagnostics@ == Reader::start(tokens@).declaration().1.diagnostics,
        match Reader::start(tokens@).declaration().0 {
            Some(declaration) => if is_countable(declaration.fields) {
                expansion.outcome matches Outcome::Expanded(items) && is_expansion(
                    items@,
                    declaration,
                )
            } else {
                expansion.outcome is TooLarge
            },
            None => expansion.outcome is Aborted,
        },
        expansion.outcome is TooLarge <==> (Reader::start(tokens@).declaration().0 matches Some(
            declaration,
        ) && declaration.fields.fold_left(
            0int,
            |sum: int, field: FieldView|
                sum + match field.count {
                    None => field.length as int,
                    Some(count) => count as int * field.length as int,
                },
        ) > 0xffff_ffff_ffff_ffff - 7),
        forall|i: int|
            #![trigger expansion.diagnostics[i]]
            0 <= i < expansion.diagnostics.len() ==> {
                let at = expansion.diagnostics[i].at as int;
                &&& at <= tokens.len()
                &&& match expansion.diagnostics[i].kind {
                    ErrorKind::ExpectedPunct(punct) => at < tokens.len() ==> tokens[at]
                        != Token::Punct(punct),
                    ErrorKind::ExpectedIdent => at < tokens.len() ==> !(tokens[at] is Ident),
                    ErrorKind::ExpectedLiteral => at < tokens.len() ==> !(tokens[at] is Literal),
                    ErrorKind::UnsignedLiteral => {
                        &&& at < tokens.len()
                        &&& tokens[at] matches Token::Literal(literal)
                        &&& !(literal is Int)
                    },
                    ErrorKind::FieldLength | ErrorKind::ElementLength => {
                        &&& at < tokens.len()
                        &&& tokens[at] matches Token::Literal(Literal::Int(n))
                        &&& n == 0 || n > 64
                    },
                    ErrorKind::ElementCount => {
                        &&& at < tokens.len()
                        &&& tokens[at] == Token::Literal(Literal::Int(0))
                    },
                }
            },
{
    proof {
        assert(tokens.len() == tokens@.len());
        law_diagnostics_true(tokens@);
        if let Some(declaration) = Reader::start(tokens@).declaration().0 {
            law_countable(declaration.fields);
        }
    }
    let mut parser = Parser::new(tokens);
    let outcome = match parse_declaration(&mut parser) {
        Some(declaration) => match checked_bit_length(&declaration.fields) {
            Some(_) => Outcome::Expanded(expand_declaration(declaration)),
            None => Outcome::TooLarge,
        },
        None => Outcome::Aborted,
    };
    Expansion { outcome, diagnostics: parser.into_diagnostics() }
}

} // verus!

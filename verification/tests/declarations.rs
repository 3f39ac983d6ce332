//! Reads declarations and looks at what they expand to.

use bitfield::ast::{Attribute, ImplItem, Item, Keyword, Method, Scalar, Ty};
use bitfield::expand::{expand_bitfield, expand_declaration, Outcome};
use bitfield::field::Field;
use bitfield::items::{get_impl_items, merge_impls, set_attrs_method};
use bitfield::parser::{parse_declaration, parse_field, parse_u64, Declaration, Parser};
use bitfield::token::{Diagnostic, ErrorKind, Literal, Punct, Token};
use bitfield::types::{make_array_ty, make_maybe_pub, size_to_ty};

const COLON: Token = Token::Punct(Punct::Colon);
const SEMI: Token = Token::Punct(Punct::Semi);
const COMMA: Token = Token::Punct(Punct::Comma);
const OPEN: Token = Token::Punct(Punct::OpenBracket);
const CLOSE: Token = Token::Punct(Punct::CloseBracket);

fn ident(name: &str) -> Token {
    Token::Ident(name.to_string())
}

/// A doc comment: an attribute that is one token.
fn attribute(number: usize) -> Token {
    Token::Attribute { number, rest: 0 }
}

fn integer(n: u64) -> Token {
    Token::Literal(Literal::Int(n))
}

fn declaration(tokens: Vec<Token>) -> (Option<Declaration>, Vec<Diagnostic>) {
    let mut parser = Parser::new(tokens);
    let declaration = parse_declaration(&mut parser);
    (declaration, parser.into_diagnostics())
}

fn field(tokens: Vec<Token>) -> (Option<Field>, Vec<Diagnostic>) {
    let mut parser = Parser::new(tokens);
    let field = parse_field(&mut parser);
    (field, parser.into_diagnostics())
}

fn scalar(name: &str, length: u8) -> Field {
    Field::Scalar { name: name.to_string(), length, is_pub: false, attrs: vec![] }
}

fn array(name: &str, element_length: u8, count: usize) -> Field {
    Field::Array { name: name.to_string(), count, element_length, is_pub: false, attrs: vec![] }
}

fn error(kind: ErrorKind, at: usize) -> Diagnostic {
    Diagnostic { kind, at }
}

#[test]
fn types_for_sizes() {
    assert_eq!(size_to_ty(0), None);
    assert_eq!(size_to_ty(1), Some((Scalar::Bool, 1)));
    assert_eq!(size_to_ty(2), Some((Scalar::U8, 8)));
    assert_eq!(size_to_ty(8), Some((Scalar::U8, 8)));
    assert_eq!(size_to_ty(9), Some((Scalar::U16, 16)));
    assert_eq!(size_to_ty(16), Some((Scalar::U16, 16)));
    assert_eq!(size_to_ty(17), Some((Scalar::U32, 32)));
    assert_eq!(size_to_ty(32), Some((Scalar::U32, 32)));
    assert_eq!(size_to_ty(33), Some((Scalar::U64, 64)));
    assert_eq!(size_to_ty(64), Some((Scalar::U64, 64)));
    assert_eq!(size_to_ty(65), None);
    assert_eq!(size_to_ty(255), None);
}

#[test]
fn array_types_and_visibility() {
    assert_eq!(make_array_ty(&Scalar::U16, 7), Ty::Array(Scalar::U16, 7));
    assert_eq!(make_maybe_pub(true), Some(Keyword::Pub));
    assert_eq!(make_maybe_pub(false), None);
}

#[test]
fn lengths_of_fields() {
    assert_eq!(scalar("a", 13).bit_len(), 13);
    assert_eq!(array("a", 13, 100).bit_len(), 1300);
    assert_eq!(array("a", 13, 0).bit_len(), 0);
}

#[test]
fn numbers() {
    let mut parser = Parser::new(vec![
        integer(17),
        Token::Literal(Literal::Other),
        ident("x"),
    ]);
    assert_eq!(parse_u64(&mut parser), 17);
    assert_eq!(parse_u64(&mut parser), 1);
    assert_eq!(parse_u64(&mut parser), 1);
    assert_eq!(parse_u64(&mut parser), 1);
    assert!(parser.at_end());
    assert_eq!(
        parser.into_diagnostics(),
        vec![
            error(ErrorKind::UnsignedLiteral, 1),
            error(ErrorKind::ExpectedLiteral, 2),
            error(ErrorKind::ExpectedLiteral, 3),
        ]
    );
}

#[test]
fn scalar_field() {
    let tokens = vec![
        attribute(4),
        attribute(9),
        Token::Pub,
        ident("flags"),
        COLON,
        integer(64),
    ];
    let expected = Field::Scalar {
        name: "flags".to_string(),
        length: 64,
        is_pub: true,
        attrs: vec![Attribute::Outer(4), Attribute::Outer(9)],
    };
    assert_eq!(field(tokens), (Some(expected), vec![]));
}

#[test]
fn array_field() {
    let tokens = vec![ident("xs"), COLON, OPEN, integer(5), SEMI, integer(300), CLOSE];
    assert_eq!(field(tokens), (Some(array("xs", 5, 300)), vec![]));
}

#[test]
fn field_lengths_out_of_range() {
    for n in [0, 65, 256, u64::MAX] {
        assert_eq!(
            field(vec![ident("a"), COLON, integer(n)]),
            (Some(scalar("a", 1)), vec![error(ErrorKind::FieldLength, 2)])
        );
        assert_eq!(
            field(vec![ident("a"), COLON, OPEN, integer(n), SEMI, integer(2), CLOSE]),
            (Some(array("a", 1, 2)), vec![error(ErrorKind::ElementLength, 3)])
        );
    }
    assert_eq!(
        field(vec![ident("a"), COLON, OPEN, integer(3), SEMI, integer(0), CLOSE]),
        (Some(array("a", 3, 1)), vec![error(ErrorKind::ElementCount, 5)])
    );
}

#[test]
fn reading_goes_on_after_errors() {
    // the token in the place of a missing one is skipped
    assert_eq!(
        field(vec![ident("a"), SEMI, integer(7)]),
        (
            Some(scalar("a", 7)),
            vec![error(ErrorKind::ExpectedPunct(Punct::Colon), 1)]
        )
    );
    assert_eq!(
        field(vec![ident("a"), COLON, OPEN, integer(3), COMMA, integer(4), Token::Other]),
        (
            Some(array("a", 3, 4)),
            vec![
                error(ErrorKind::ExpectedPunct(Punct::Semi), 4),
                error(ErrorKind::ExpectedPunct(Punct::CloseBracket), 6),
            ]
        )
    );
    assert_eq!(
        field(vec![ident("a")]),
        (
            Some(scalar("a", 1)),
            vec![
                error(ErrorKind::ExpectedPunct(Punct::Colon), 1),
                error(ErrorKind::ExpectedLiteral, 1),
            ]
        )
    );
    assert_eq!(
        field(vec![ident("a"), COLON, Token::Literal(Literal::Other)]),
        (Some(scalar("a", 1)), vec![error(ErrorKind::UnsignedLiteral, 2)])
    );
    assert_eq!(
        field(vec![ident("a"), COLON, Token::Literal(Literal::Bool(true))]),
        (Some(scalar("a", 1)), vec![error(ErrorKind::UnsignedLiteral, 2)])
    );
}

#[test]
fn field_without_a_name() {
    assert_eq!(
        field(vec![attribute(0), Token::Pub, COLON, integer(3)]),
        (None, vec![error(ErrorKind::ExpectedIdent, 2)])
    );
    assert_eq!(field(vec![]), (None, vec![error(ErrorKind::ExpectedIdent, 0)]));
}

#[test]
fn messages() {
    let text = |kind| error(kind, 0).message();
    let some = |text: &str| Some(text.to_string());
    assert_eq!(
        text(ErrorKind::UnsignedLiteral),
        some("unsigned integer literal expected")
    );
    assert_eq!(
        text(ErrorKind::ElementLength),
        some("Elements length must be > 0 and <= 64")
    );
    assert_eq!(text(ErrorKind::ElementCount), some("Elements count must be > 0"));
    assert_eq!(
        text(ErrorKind::FieldLength),
        some("Field length must be > 0 and <= 64")
    );
    assert_eq!(text(ErrorKind::ExpectedPunct(Punct::Colon)), None);
    assert_eq!(text(ErrorKind::ExpectedIdent), None);
    assert_eq!(text(ErrorKind::ExpectedLiteral), None);
}

#[test]
fn attributes_of_several_tokens() {
    // #[x] #[y(z)] a: 3
    let tokens = vec![
        Token::Attribute { number: 0, rest: 3 },
        OPEN,
        ident("x"),
        CLOSE,
        Token::Attribute { number: 1, rest: 6 },
        OPEN,
        ident("y"),
        Token::Other,
        ident("z"),
        Token::Other,
        CLOSE,
        ident("a"),
        COLON,
        integer(3),
    ];
    let expected = Field::Scalar {
        name: "a".to_string(),
        length: 3,
        is_pub: false,
        attrs: vec![Attribute::Outer(0), Attribute::Outer(1)],
    };
    assert_eq!(field(tokens), (Some(expected), vec![]));
}

#[test]
fn attribute_in_the_place_of_a_colon() {
    // a #[x] 5: the first token of the attribute is skipped, and the bracket opens an array
    let tokens = vec![
        ident("a"),
        Token::Attribute { number: 0, rest: 3 },
        OPEN,
        ident("x"),
        CLOSE,
        integer(5),
    ];
    assert_eq!(
        field(tokens),
        (
            Some(array("a", 1, 5)),
            vec![
                error(ErrorKind::ExpectedPunct(Punct::Colon), 1),
                error(ErrorKind::ExpectedLiteral, 3),
                error(ErrorKind::ExpectedPunct(Punct::Semi), 4),
                error(ErrorKind::ExpectedPunct(Punct::CloseBracket), 6),
            ]
        )
    );
}

#[test]
fn attribute_that_reaches_the_end() {
    let tokens = vec![Token::Attribute { number: 0, rest: usize::MAX }, OPEN];
    assert_eq!(field(tokens), (None, vec![error(ErrorKind::ExpectedIdent, 2)]));
}

#[test]
fn keywords_in_the_place_of_names() {
    let keywords = vec![
        (Token::Keyword("type".to_string()), "type"),
        (Token::Literal(Literal::Bool(true)), "true"),
        (Token::Literal(Literal::Bool(false)), "false"),
    ];
    for (keyword, name) in keywords {
        assert_eq!(
            field(vec![keyword, COLON, integer(3)]),
            (Some(scalar(name, 3)), vec![error(ErrorKind::ExpectedIdent, 0)])
        );
    }
    let expected = Field::Scalar {
        name: "pub".to_string(),
        length: 3,
        is_pub: true,
        attrs: vec![],
    };
    assert_eq!(
        field(vec![Token::Pub, Token::Pub, COLON, integer(3)]),
        (Some(expected), vec![error(ErrorKind::ExpectedIdent, 1)])
    );
}

#[test]
fn declaration_with_and_without_trailing_comma() {
    for trailing in [false, true] {
        let mut tokens = vec![
            attribute(0),
            Token::Pub,
            ident("Header"),
            COMMA,
            ident("a"),
            COLON,
            integer(3),
            COMMA,
            ident("b"),
            COLON,
            OPEN,
            integer(2),
            SEMI,
            integer(4),
            CLOSE,
        ];
        if trailing {
            tokens.push(COMMA);
        }
        let expected = Declaration {
            attrs: vec![Attribute::Outer(0)],
            is_pub: true,
            name: "Header".to_string(),
            fields: vec![scalar("a", 3), array("b", 2, 4)],
        };
        assert_eq!(declaration(tokens), (Some(expected), vec![]));
    }
}

#[test]
fn missing_comma_between_fields_drops_all_fields() {
    let tokens = vec![
        ident("S"),
        COMMA,
        ident("a"),
        COLON,
        integer(3),
        ident("b"),
        COLON,
        integer(4),
    ];
    let (read, diagnostics) = declaration(tokens);
    assert_eq!(read.unwrap().fields, vec![]);
    assert_eq!(
        diagnostics,
        vec![error(ErrorKind::ExpectedPunct(Punct::Comma), 5)]
    );
}

#[test]
fn missing_comma_after_the_name_is_reported() {
    let (read, diagnostics) = declaration(vec![ident("S"), ident("a"), COLON, integer(3)]);
    assert_eq!(read.unwrap().fields, vec![scalar("a", 3)]);
    assert_eq!(
        diagnostics,
        vec![error(ErrorKind::ExpectedPunct(Punct::Comma), 1)]
    );
    let (read, diagnostics) = declaration(vec![ident("S")]);
    assert_eq!(read.unwrap().fields, vec![]);
    assert_eq!(
        diagnostics,
        vec![error(ErrorKind::ExpectedPunct(Punct::Comma), 1)]
    );
}

#[test]
fn missing_names_abort() {
    let expansion = expand_bitfield(vec![Token::Pub, COMMA]);
    assert_eq!(expansion.outcome, Outcome::Aborted);
    assert_eq!(expansion.diagnostics, vec![error(ErrorKind::ExpectedIdent, 1)]);
    let expansion = expand_bitfield(vec![
        ident("S"),
        COMMA,
        ident("a"),
        COLON,
        integer(70),
        COMMA,
        COMMA,
    ]);
    assert_eq!(expansion.outcome, Outcome::Aborted);
    assert_eq!(
        expansion.diagnostics,
        vec![
            error(ErrorKind::FieldLength, 4),
            error(ErrorKind::ExpectedIdent, 6),
        ]
    );
}

#[test]
fn fields_that_cannot_be_counted() {
    let tokens = |length, count| {
        vec![
            ident("S"),
            COMMA,
            ident("a"),
            COLON,
            OPEN,
            integer(length),
            SEMI,
            integer(count),
            CLOSE,
        ]
    };
    let expansion = expand_bitfield(tokens(64, u64::MAX));
    assert_eq!(expansion.outcome, Outcome::TooLarge);
    assert!(expansion.diagnostics.is_empty());
    let expansion = expand_bitfield(tokens(1, u64::MAX - 6));
    assert_eq!(expansion.outcome, Outcome::TooLarge);
}

#[test]
fn items_of_a_declaration() {
    let mut tokens = vec![
        attribute(0),
        Token::Pub,
        ident("Header"),
        COMMA,
        attribute(1),
        Token::Pub,
        ident("a"),
        COLON,
        integer(7),
        COMMA,
    ];
    tokens.extend(vec![ident("b"), COLON, OPEN, integer(2), SEMI, integer(2), CLOSE]);
    let expansion = expand_bitfield(tokens);
    assert!(expansion.diagnostics.is_empty());
    let items = match expansion.outcome {
        Outcome::Expanded(items) => items,
        other => panic!("no items: {:?}", other),
    };
    assert_eq!(items.len(), 2);
    assert_eq!(
        items[0],
        Item::Struct {
            attrs: vec![Attribute::Outer(0)],
            visibility: Some(Keyword::Pub),
            name: "Header".to_string(),
            data_length: Some(2),
        }
    );
    let impl_items = match &items[1] {
        Item::Impl { name, impl_items } => {
            assert_eq!(name, "Header");
            impl_items
        }
        other => panic!("no impl block: {:?}", other),
    };
    let names: Vec<&str> = impl_items.iter().map(|i| i.name.as_str()).collect();
    assert_eq!(names, vec!["set_b", "new", "get_a", "set_a", "get_b"]);
    let new = &impl_items[1];
    assert_eq!(
        new.attrs,
        vec![Attribute::Doc("Creates a new `Header`".to_string())]
    );
    assert_eq!(new.visibility, Some(Keyword::Pub));
    assert_eq!(new.method, Method::New(2));
    assert_eq!(impl_items[2].attrs, vec![Attribute::Outer(1)]);
    assert_eq!(impl_items[2].visibility, Some(Keyword::Pub));
    assert_eq!(impl_items[3].attrs, vec![Attribute::Outer(1)]);
    assert_eq!(impl_items[0].attrs, vec![]);
    assert_eq!(impl_items[0].visibility, None);
}

#[test]
fn declaration_without_fields() {
    let expansion = expand_bitfield(vec![ident("Empty"), COMMA]);
    assert!(expansion.diagnostics.is_empty());
    assert_eq!(
        expansion.outcome,
        Outcome::Expanded(vec![Item::Struct {
            attrs: vec![],
            visibility: None,
            name: "Empty".to_string(),
            data_length: None,
        }])
    );
}

#[test]
fn fields_without_bits_have_accessors() {
    let items = expand_declaration(Declaration {
        attrs: vec![],
        is_pub: false,
        name: "S".to_string(),
        fields: vec![array("a", 3, 0)],
    });
    assert_eq!(items.len(), 2);
    match &items[1] {
        Item::Impl { impl_items, .. } => {
            let names: Vec<&str> = impl_items.iter().map(|i| i.name.as_str()).collect();
            assert_eq!(names, vec!["set_a", "get_a"]);
        }
        other => panic!("no impl block: {:?}", other),
    }
}

#[test]
fn bytes_hold_the_fields() {
    for bits in 1..65u64 {
        let expansion = expand_bitfield(vec![ident("S"), COMMA, ident("a"), COLON, integer(bits)]);
        match expansion.outcome {
            Outcome::Expanded(items) => match &items[0] {
                Item::Struct { data_length, .. } => {
                    assert_eq!(*data_length, Some(((bits + 7) / 8) as usize));
                }
                other => panic!("no struct: {:?}", other),
            },
            other => panic!("no items: {:?}", other),
        }
    }
}

fn method(name: &str) -> ImplItem {
    ImplItem {
        attrs: vec![Attribute::Inline],
        visibility: None,
        name: name.to_string(),
        method: Method::New(1),
    }
}

fn block(names: &[&str]) -> Item {
    Item::Impl {
        name: "S".to_string(),
        impl_items: names.iter().map(|name| method(name)).collect(),
    }
}

#[test]
fn attributes_are_replaced() {
    let attrs = vec![Attribute::Outer(3), Attribute::Doc("text".to_string())];
    let changed = set_attrs_method(block(&["a", "b"]), &attrs);
    let items = get_impl_items(changed);
    assert_eq!(items[0].attrs, attrs);
    assert_eq!(items[0].name, "a");
    assert_eq!(items[1], method("b"));
}

#[test]
fn impl_blocks_are_merged_into_the_last() {
    let merged = merge_impls(vec![block(&["a", "b"]), block(&["c"]), block(&["d", "e"])]);
    assert_eq!(merged, block(&["d", "e", "a", "b", "c"]));
    assert_eq!(merge_impls(vec![block(&["a"])]), block(&["a"]));
}

#[test]
fn accessor_names_and_attributes() {
    let field = Field::Scalar {
        name: "x".to_string(),
        length: 4,
        is_pub: true,
        attrs: vec![Attribute::Outer(2)],
    };
    let mut methods = field.to_methods(&"S".to_string(), 3);
    assert_eq!(methods.len(), 2);
    let setter = get_impl_items(methods.pop().unwrap());
    let getter = get_impl_items(methods.pop().unwrap());
    assert_eq!(getter.len(), 1);
    assert_eq!(setter.len(), 1);
    assert_eq!(getter[0].name, "get_x");
    assert_eq!(setter[0].name, "set_x");
    assert_eq!(getter[0].attrs, vec![Attribute::Outer(2)]);
    assert_eq!(setter[0].attrs, vec![Attribute::Outer(2)]);
    assert_eq!(getter[0].visibility, Some(Keyword::Pub));
}

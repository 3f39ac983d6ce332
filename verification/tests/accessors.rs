//! Runs generated accessors on concrete bytes.

use bitfield::ast::{BinOp, Expr, ImplItem, Item, Method, Scalar, Stmt, Ty};
use bitfield::expand::{expand_bitfield, Outcome};
use bitfield::field::Field;
use bitfield::token::{Literal, Punct, Token};
use bitfield::types::size_to_ty;

/// A value of the generated code.
#[derive(Debug, Clone, PartialEq)]
enum Value {
    Bool(bool),
    Int(Scalar, u64),
    Array(Vec<Value>),
}

fn width(ty: Scalar) -> u32 {
    match ty {
        Scalar::Bool => 1,
        Scalar::U8 => 8,
        Scalar::U16 => 16,
        Scalar::U32 => 32,
        Scalar::U64 => 64,
        Scalar::Usize => usize::BITS,
    }
}

fn cut(n: u64, bits: u32) -> u64 {
    if bits == 64 {
        n
    } else {
        n & ((1u64 << bits) - 1)
    }
}

fn integer(value: Value) -> (Scalar, u64) {
    match value {
        Value::Int(ty, n) => (ty, n),
        other => panic!("no integer: {:?}", other),
    }
}

fn apply(op: BinOp, left: Value, right: Value) -> Value {
    let (t, a) = integer(left);
    let (u, b) = integer(right);
    match op {
        BinOp::Shl => {
            assert!(b < width(t) as u64);
            Value::Int(t, cut(a << b, width(t)))
        }
        BinOp::Shr => {
            assert!(b < width(t) as u64);
            Value::Int(t, a >> b)
        }
        _ => {
            assert_eq!(t, u);
            match op {
                BinOp::BitAnd => Value::Int(t, a & b),
                BinOp::BitOr => Value::Int(t, a | b),
                BinOp::Div => Value::Int(t, a / b),
                _ => Value::Bool(a != b),
            }
        }
    }
}

fn eval(expr: &Expr, data: &[u8], value: &Value) -> Value {
    match expr {
        Expr::Lit(n, ty) => Value::Int(*ty, *n),
        Expr::Byte(index) => {
            let (ty, i) = integer(eval(index, data, value));
            assert_eq!(ty, Scalar::Usize);
            Value::Int(Scalar::U8, data[i as usize] as u64)
        }
        Expr::Value => value.clone(),
        Expr::Not(operand) => {
            let (ty, n) = integer(eval(operand, data, value));
            Value::Int(ty, cut(!n, width(ty)))
        }
        Expr::Cast(operand, ty) => {
            let (_, n) = integer(eval(operand, data, value));
            Value::Int(*ty, cut(n, width(*ty)))
        }
        Expr::Binary(op, left, right) => {
            apply(*op, eval(left, data, value), eval(right, data, value))
        }
        Expr::Array(elements) => {
            Value::Array(elements.iter().map(|e| eval(e, data, value)).collect())
        }
    }
}

fn run(stmt: &Stmt, data: &mut [u8], value: &Value) {
    match stmt {
        Stmt::Assign(index, expr) => {
            let (_, i) = integer(eval(index, data, value));
            let (ty, n) = integer(eval(expr, data, value));
            assert_eq!(ty, Scalar::U8);
            data[i as usize] = n as u8;
        }
        Stmt::AssignOp(op, index, expr) => {
            let (_, i) = integer(eval(index, data, value));
            let byte = Value::Int(Scalar::U8, data[i as usize] as u64);
            let (ty, n) = integer(apply(*op, byte, eval(expr, data, value)));
            assert_eq!(ty, Scalar::U8);
            data[i as usize] = n as u8;
        }
        Stmt::If(condition, yes, no) => match eval(condition, data, value) {
            Value::Bool(true) => run(yes, data, value),
            Value::Bool(false) => run(no, data, value),
            other => panic!("no condition: {:?}", other),
        },
        Stmt::Block(stmts) => {
            for stmt in stmts {
                run(stmt, data, value);
            }
        }
        Stmt::WithElement(i, body) => match value {
            Value::Array(elements) => run(body, data, &elements[*i]),
            other => panic!("no array: {:?}", other),
        },
    }
}

/// Bit `k` of `data`, from the most significant bit of the first byte on.
fn bit(data: &[u8], k: usize) -> bool {
    (data[k / 8] >> (7 - k % 8)) & 1 == 1
}

fn read(data: &[u8], start: usize, len: usize) -> u64 {
    (start..start + len).fold(0, |n, k| n * 2 + bit(data, k) as u64)
}

fn write(data: &mut [u8], start: usize, len: usize, n: u64) {
    for i in 0..len {
        let k = start + len - 1 - i;
        let mask = 1u8 << (7 - k % 8);
        if (n >> i) & 1 == 1 {
            data[k / 8] |= mask;
        } else {
            data[k / 8] &= !mask;
        }
    }
}

/// Bytes without a pattern.
fn noise(len: usize, seed: u64) -> Vec<u8> {
    let mut x = seed.wrapping_mul(0x9E37_79B9_7F4A_7C15) | 1;
    (0..len)
        .map(|_| {
            x ^= x << 13;
            x ^= x >> 7;
            x ^= x << 17;
            (x >> 24) as u8
        })
        .collect()
}

const NONE: Value = Value::Bool(false);

#[test]
fn getter_reads_every_position_and_length() {
    for start in 0..17usize {
        for len in 1..65usize {
            let (ty, _) = size_to_ty(len as u8).unwrap();
            let expr = Field::gen_single_value_get_expr(&ty, start as u64, len as u8);
            for seed in 0..4 {
                let data = noise((start + len + 7) / 8, seed);
                let n = read(&data, start, len);
                let expected = if len == 1 {
                    Value::Bool(n == 1)
                } else {
                    Value::Int(ty, n)
                };
                assert_eq!(eval(&expr, &data, &NONE), expected);
            }
        }
    }
}

#[test]
fn setter_writes_every_position_and_length() {
    for start in 0..17usize {
        for len in 1..65usize {
            let (ty, type_length) = size_to_ty(len as u8).unwrap();
            let stmt = Field::gen_single_value_set_stmt(type_length, start as u64, len as u8);
            for seed in 0..4 {
                let mut data = noise((start + len + 7) / 8 + 1, seed);
                let mut expected = data.clone();
                let n = cut(
                    u64::from_le_bytes(noise(8, seed + 77).try_into().unwrap()),
                    type_length as u32,
                );
                let value = if len == 1 {
                    Value::Bool(n & 1 == 1)
                } else {
                    Value::Int(ty, n)
                };
                write(&mut expected, start, len, n);
                run(&stmt, &mut data, &value);
                assert_eq!(data, expected);
            }
        }
    }
}

#[test]
fn getter_of_one_bit() {
    let expr = Field::gen_single_value_get_expr(&Scalar::Bool, 10, 1);
    let byte = Expr::Byte(Box::new(Expr::Cast(
        Box::new(Expr::Binary(
            BinOp::Div,
            Box::new(Expr::Lit(10, Scalar::U64)),
            Box::new(Expr::Lit(8, Scalar::U64)),
        )),
        Scalar::Usize,
    )));
    let mask = Expr::Binary(
        BinOp::Shl,
        Box::new(Expr::Lit(1, Scalar::U8)),
        Box::new(Expr::Lit(5, Scalar::Usize)),
    );
    let masked = Expr::Binary(BinOp::BitAnd, Box::new(byte), Box::new(mask));
    assert_eq!(
        expr,
        Expr::Binary(BinOp::Ne, Box::new(masked), Box::new(Expr::Lit(0, Scalar::U8)))
    );
    assert_eq!(eval(&expr, &[0x00, 0x20], &NONE), Value::Bool(true));
    assert_eq!(eval(&expr, &[0xFF, 0xDF], &NONE), Value::Bool(false));
}

fn piece(index: u64, shift: u64, mask: u64, ty: Scalar) -> Expr {
    let byte = Expr::Byte(Box::new(Expr::Lit(index, Scalar::Usize)));
    let shifted = Expr::Binary(
        BinOp::Shr,
        Box::new(byte),
        Box::new(Expr::Lit(shift, Scalar::Usize)),
    );
    let masked = Expr::Binary(
        BinOp::BitAnd,
        Box::new(shifted),
        Box::new(Expr::Lit(mask, Scalar::U8)),
    );
    Expr::Cast(Box::new(masked), ty)
}

#[test]
fn getter_across_bytes() {
    let expr = Field::gen_single_value_get_expr(&Scalar::U16, 6, 12);
    let first = Expr::Binary(
        BinOp::Shl,
        Box::new(piece(0, 0, 0x03, Scalar::U16)),
        Box::new(Expr::Lit(8, Scalar::Usize)),
    );
    let second = Expr::Binary(
        BinOp::BitOr,
        Box::new(first),
        Box::new(piece(1, 0, 0xFF, Scalar::U16)),
    );
    let third = Expr::Binary(
        BinOp::Shl,
        Box::new(second),
        Box::new(Expr::Lit(2, Scalar::Usize)),
    );
    assert_eq!(
        expr,
        Expr::Binary(
            BinOp::BitOr,
            Box::new(third),
            Box::new(piece(2, 6, 0x03, Scalar::U16))
        )
    );
    assert_eq!(
        eval(&expr, &[0xFE, 0x5A, 0x7F], &NONE),
        Value::Int(Scalar::U16, 0b10_0101_1010_01)
    );
}

#[test]
fn setter_of_one_bit() {
    let stmt = Field::gen_single_value_set_stmt(1, 9, 1);
    let mut data = [0u8, 0u8];
    run(&stmt, &mut data, &Value::Bool(true));
    assert_eq!(data, [0x00, 0x40]);
    let mut data = [0xFFu8, 0xFFu8];
    run(&stmt, &mut data, &Value::Bool(false));
    assert_eq!(data, [0xFF, 0xBF]);
}

#[test]
fn setter_of_one_bit_ignores_the_type_length() {
    for start in [0, 9, u64::MAX] {
        let stmt = Field::gen_single_value_set_stmt(1, start, 1);
        for type_length in [0, 8, 12, 255] {
            assert_eq!(Field::gen_single_value_set_stmt(type_length, start, 1), stmt);
        }
    }
}

#[test]
fn last_bit_that_can_be_counted() {
    let expr = Field::gen_single_value_get_expr(&Scalar::Bool, u64::MAX, 1);
    assert!(matches!(expr, Expr::Binary(BinOp::Ne, _, _)));
    let field = Field::Array {
        name: "a".to_string(),
        count: 3,
        element_length: 1,
        is_pub: false,
        attrs: vec![],
    };
    assert_eq!(field.to_methods(&"S".to_string(), u64::MAX - 2).len(), 2);
}

#[test]
fn setter_across_bytes() {
    let stmt = Field::gen_single_value_set_stmt(16, 6, 12);
    let mut data = [0u8; 3];
    run(&stmt, &mut data, &Value::Int(Scalar::U16, 0xABC));
    assert_eq!(data, [0x02, 0xAF, 0x00]);
    let mut data = [0xFFu8; 3];
    run(&stmt, &mut data, &Value::Int(Scalar::U16, 0));
    assert_eq!(data, [0xFC, 0x00, 0x3F]);
}

#[test]
fn setter_of_no_bits_changes_nothing() {
    let stmt = Field::gen_single_value_set_stmt(8, 3, 0);
    assert_eq!(stmt, Stmt::Block(vec![]));
}

fn ident(name: &str) -> Token {
    Token::Ident(name.to_string())
}

fn scalar(name: &str, length: u64) -> Vec<Token> {
    vec![
        ident(name),
        Token::Punct(Punct::Colon),
        Token::Literal(Literal::Int(length)),
    ]
}

fn array(name: &str, length: u64, count: u64) -> Vec<Token> {
    vec![
        ident(name),
        Token::Punct(Punct::Colon),
        Token::Punct(Punct::OpenBracket),
        Token::Literal(Literal::Int(length)),
        Token::Punct(Punct::Semi),
        Token::Literal(Literal::Int(count)),
        Token::Punct(Punct::CloseBracket),
    ]
}

/// The methods generated for the fields, by name.
fn methods(fields: Vec<Vec<Token>>) -> Vec<ImplItem> {
    let mut tokens = vec![ident("S"), Token::Punct(Punct::Comma)];
    for field in fields {
        tokens.extend(field);
        tokens.push(Token::Punct(Punct::Comma));
    }
    let expansion = expand_bitfield(tokens);
    assert!(expansion.diagnostics.is_empty());
    match expansion.outcome {
        Outcome::Expanded(mut items) => match items.remove(1) {
            Item::Impl { impl_items, .. } => impl_items,
            other => panic!("no impl block: {:?}", other),
        },
        other => panic!("no items: {:?}", other),
    }
}

fn get(methods: &[ImplItem], name: &str, data: &[u8]) -> Value {
    let item = methods.iter().find(|item| item.name == name).unwrap();
    match &item.method {
        Method::Getter(_, expr) => eval(expr, data, &NONE),
        other => panic!("no getter: {:?}", other),
    }
}

fn set(methods: &[ImplItem], name: &str, data: &mut [u8], value: &Value) {
    let item = methods.iter().find(|item| item.name == name).unwrap();
    match &item.method {
        Method::Setter(_, stmt) => run(stmt, data, value),
        other => panic!("no setter: {:?}", other),
    }
}

fn sample() -> Vec<ImplItem> {
    // 3 + 1 + 13 + 5 * 4 + 40 + 3 * 1 = 80 bits
    methods(vec![
        scalar("a", 3),
        scalar("b", 1),
        scalar("c", 13),
        array("d", 5, 4),
        scalar("e", 40),
        array("f", 1, 3),
    ])
}

fn u8s(values: &[u64]) -> Value {
    Value::Array(values.iter().map(|n| Value::Int(Scalar::U8, *n)).collect())
}

#[test]
fn accessors_of_all_fields() {
    let methods = sample();
    let mut data = [0u8; 10];
    set(&methods, "set_a", &mut data, &Value::Int(Scalar::U8, 5));
    assert_eq!(data, [0xA0, 0, 0, 0, 0, 0, 0, 0, 0, 0]);
    set(&methods, "set_b", &mut data, &Value::Bool(true));
    assert_eq!(data, [0xB0, 0, 0, 0, 0, 0, 0, 0, 0, 0]);
    set(&methods, "set_c", &mut data, &Value::Int(Scalar::U16, 0x1FFF));
    assert_eq!(data, [0xBF, 0xFF, 0x80, 0, 0, 0, 0, 0, 0, 0]);
    set(&methods, "set_d", &mut data, &u8s(&[1, 2, 4, 31]));
    assert_eq!(data, [0xBF, 0xFF, 0x84, 0x44, 0xF8, 0, 0, 0, 0, 0]);
    set(
        &methods,
        "set_e",
        &mut data,
        &Value::Int(Scalar::U64, 0x12_3456_789A),
    );
    set(
        &methods,
        "set_f",
        &mut data,
        &Value::Array(vec![
            Value::Bool(true),
            Value::Bool(false),
            Value::Bool(true),
        ]),
    );
    assert_eq!(data, [0xBF, 0xFF, 0x84, 0x44, 0xF8, 0x91, 0xA2, 0xB3, 0xC4, 0xD5]);
    assert_eq!(get(&methods, "get_a", &data), Value::Int(Scalar::U8, 5));
    assert_eq!(get(&methods, "get_b", &data), Value::Bool(true));
    assert_eq!(get(&methods, "get_c", &data), Value::Int(Scalar::U16, 0x1FFF));
    assert_eq!(get(&methods, "get_d", &data), u8s(&[1, 2, 4, 31]));
    assert_eq!(
        get(&methods, "get_e", &data),
        Value::Int(Scalar::U64, 0x12_3456_789A)
    );
    assert_eq!(
        get(&methods, "get_f", &data),
        Value::Array(vec![
            Value::Bool(true),
            Value::Bool(false),
            Value::Bool(true)
        ])
    );
}

#[test]
fn excess_digits_are_dropped() {
    let methods = sample();
    let mut data = [0u8; 10];
    set(&methods, "set_a", &mut data, &Value::Int(Scalar::U8, 0xFA));
    assert_eq!(get(&methods, "get_a", &data), Value::Int(Scalar::U8, 2));
    set(&methods, "set_d", &mut data, &u8s(&[0x20, 0x21, 0xFF, 7]));
    assert_eq!(get(&methods, "get_d", &data), u8s(&[0, 1, 31, 7]));
    assert_eq!(get(&methods, "get_a", &data), Value::Int(Scalar::U8, 2));
    assert_eq!(get(&methods, "get_b", &data), Value::Bool(false));
    assert_eq!(get(&methods, "get_c", &data), Value::Int(Scalar::U16, 0));
    assert_eq!(get(&methods, "get_e", &data), Value::Int(Scalar::U64, 0));
}

#[test]
fn setter_keeps_other_fields_and_order_does_not_matter() {
    let methods = sample();
    let before = noise(10, 3);
    let c = Value::Int(Scalar::U16, 0x0ABC);
    let d = u8s(&[9, 18, 27, 3]);
    let mut one = before.clone();
    set(&methods, "set_c", &mut one, &c);
    for name in ["get_a", "get_b", "get_d", "get_e", "get_f"] {
        assert_eq!(get(&methods, name, &one), get(&methods, name, &before));
    }
    set(&methods, "set_d", &mut one, &d);
    let mut other = before.clone();
    set(&methods, "set_d", &mut other, &d);
    set(&methods, "set_c", &mut other, &c);
    assert_eq!(one, other);
}

#[test]
fn setting_what_was_read_changes_nothing() {
    let methods = sample();
    let before = noise(10, 5);
    for field in ["a", "b", "c", "d", "e", "f"] {
        let value = get(&methods, &format!("get_{}", field), &before);
        let mut after = before.clone();
        set(&methods, &format!("set_{}", field), &mut after, &value);
        assert_eq!(after, before);
    }
}

#[test]
fn second_value_replaces_the_first() {
    let methods = sample();
    let before = noise(10, 7);
    let mut twice = before.clone();
    set(&methods, "set_e", &mut twice, &Value::Int(Scalar::U64, u64::MAX));
    set(&methods, "set_e", &mut twice, &Value::Int(Scalar::U64, 42));
    let mut once = before.clone();
    set(&methods, "set_e", &mut once, &Value::Int(Scalar::U64, 42));
    assert_eq!(twice, once);
}

#[test]
fn padding_is_kept() {
    let methods = methods(vec![scalar("x", 9)]);
    let mut data = [0x00u8, 0x55u8];
    set(&methods, "set_x", &mut data, &Value::Int(Scalar::U16, 0x1FF));
    assert_eq!(data, [0xFF, 0xD5]);
    let mut data = [0xFFu8, 0xFFu8];
    set(&methods, "set_x", &mut data, &Value::Int(Scalar::U16, 0));
    assert_eq!(data, [0x00, 0x7F]);
}

#[test]
fn accessor_types() {
    let methods = sample();
    let ty = |name: &str| match &methods.iter().find(|i| i.name == name).unwrap().method {
        Method::Getter(ty, _) => *ty,
        Method::Setter(ty, _) => *ty,
        Method::New(_) => panic!("no accessor"),
    };
    assert_eq!(ty("get_a"), Ty::Scalar(Scalar::U8));
    assert_eq!(ty("set_b"), Ty::Scalar(Scalar::Bool));
    assert_eq!(ty("get_c"), Ty::Scalar(Scalar::U16));
    assert_eq!(ty("set_d"), Ty::Array(Scalar::U8, 4));
    assert_eq!(ty("get_e"), Ty::Scalar(Scalar::U64));
    assert_eq!(ty("get_f"), Ty::Array(Scalar::Bool, 3));
}

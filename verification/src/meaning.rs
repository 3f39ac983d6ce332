//! Laws that tie the meaning of generated code to the operations of the machine.

use vstd::arithmetic::div_mod::*;
use vstd::arithmetic::power2::*;
use vstd::bits::*;
use vstd::prelude::*;

use crate::ast::{BinOp, Expr, ImplItem, Method, Scalar, Stmt, Ty};
use crate::semantics::{
    apply, call_getter, call_new, call_setter, eval, eval_all, has_type, run, run_all, Value,
};

verus! {

/// The values of an integer type are the numbers below a power of two, those of `bool` are the
/// truth values, and those of an array type are sequences of values of the element type.
pub proof fn law_values_of_types(
    n: nat,
    flag: bool,
    elements: Seq<Value>,
    scalar: Scalar,
    length: usize,
)
    ensures
        has_type(Value::Int(Scalar::U8, n), Ty::Scalar(Scalar::U8)) <==> n <= 0xFF,
        has_type(Value::Int(Scalar::U16, n), Ty::Scalar(Scalar::U16)) <==> n <= 0xFFFF,
        has_type(Value::Int(Scalar::U32, n), Ty::Scalar(Scalar::U32)) <==> n <= 0xFFFF_FFFF,
        has_type(Value::Int(Scalar::U64, n), Ty::Scalar(Scalar::U64)) <==> n
            <= 0xFFFF_FFFF_FFFF_FFFF,
        has_type(Value::Bool(flag), Ty::Scalar(scalar)) <==> scalar == Scalar::Bool,
        !has_type(Value::Int(Scalar::Bool, n), Ty::Scalar(scalar)),
        forall|other: Scalar|
            #[trigger] has_type(Value::Int(other, n), Ty::Scalar(scalar)) ==> other == scalar,
        !has_type(Value::Array(elements), Ty::Scalar(scalar)),
        !has_type(Value::Bool(flag), Ty::Array(scalar, length)),
        !has_type(Value::Int(scalar, n), Ty::Array(scalar, length)),
        has_type(Value::Array(elements), Ty::Array(scalar, length)) <==> elements.len() == length
            && forall|i: int|
            0 <= i < length ==> has_type(#[trigger] elements[i], Ty::Scalar(scalar)),
{
    lemma2_to64();
    lemma2_to64_rest();
}

/// `&`, `|`, `/` and `!=` are the operations of the machine, in every type.
pub proof fn law_operators(a: u64, b: u64, ty: Scalar)
    ensures
        apply(BinOp::BitAnd, Value::Int(ty, a as nat), Value::Int(ty, b as nat)) == Some(
            Value::Int(ty, (a & b) as nat),
        ),
        apply(BinOp::BitOr, Value::Int(ty, a as nat), Value::Int(ty, b as nat)) == Some(
            Value::Int(ty, (a | b) as nat),
        ),
        b != 0 ==> apply(BinOp::Div, Value::Int(ty, a as nat), Value::Int(ty, b as nat)) == Some(
            Value::Int(ty, (a / b) as nat),
        ),
        apply(BinOp::Ne, Value::Int(ty, a as nat), Value::Int(ty, b as nat)) == Some(
            Value::Bool(a != b),
        ),
{
}

/// Shifting right is the operation of the machine, in every type.
pub proof fn law_shift_right(a: u64, s: u64, amount: Scalar)
    ensures
        s < 64 ==> apply(BinOp::Shr, Value::Int(Scalar::U64, a as nat), Value::Int(amount, s as nat))
            == Some(Value::Int(Scalar::U64, (a >> s) as nat)),
        s < 32 ==> apply(BinOp::Shr, Value::Int(Scalar::U32, a as nat), Value::Int(amount, s as nat))
            == Some(Value::Int(Scalar::U32, (a >> s) as nat)),
        s < 16 ==> apply(BinOp::Shr, Value::Int(Scalar::U16, a as nat), Value::Int(amount, s as nat))
            == Some(Value::Int(Scalar::U16, (a >> s) as nat)),
        s < 8 ==> apply(BinOp::Shr, Value::Int(Scalar::U8, a as nat), Value::Int(amount, s as nat))
            == Some(Value::Int(Scalar::U8, (a >> s) as nat)),
{
    if s < 64 {
        lemma_u64_shr_is_div(a, s);
    }
}

/// Shifting left is the operation of the machine, in every type: what is shifted out is lost.
pub proof fn law_shift_left(a: u64, b: u32, c: u16, d: u8, s: u64, amount: Scalar)
    ensures
        s < 64 ==> apply(BinOp::Shl, Value::Int(Scalar::U64, a as nat), Value::Int(amount, s as nat))
            == Some(Value::Int(Scalar::U64, (a << s) as nat)),
        s < 32 ==> apply(BinOp::Shl, Value::Int(Scalar::U32, b as nat), Value::Int(amount, s as nat))
            == Some(Value::Int(Scalar::U32, (b << s) as nat)),
        s < 16 ==> apply(BinOp::Shl, Value::Int(Scalar::U16, c as nat), Value::Int(amount, s as nat))
            == Some(Value::Int(Scalar::U16, (c << s) as nat)),
        s < 8 ==> apply(BinOp::Shl, Value::Int(Scalar::U8, d as nat), Value::Int(amount, s as nat))
            == Some(Value::Int(Scalar::U8, (d << s) as nat)),
{
    lemma2_to64();
    lemma2_to64_rest();
    if s < 64 {
        lemma_wide_shift(a, s);
        assert((a << s) == ((a as u128) << (s as u128)) % 0x1_0000_0000_0000_0000u128)
            by (bit_vector)
            requires
                s < 64,
        ;
    }
    if s < 32 {
        lemma_wide_shift(b as u64, s);
        assert((b << s) == (((b as u64) as u128) << (s as u128)) % 0x1_0000_0000u128)
            by (bit_vector)
            requires
                s < 32,
        ;
    }
    if s < 16 {
        lemma_wide_shift(c as u64, s);
        assert((c << s) == (((c as u64) as u128) << (s as u128)) % 0x1_0000u128) by (bit_vector)
            requires
                s < 16,
        ;
    }
    if s < 8 {
        lemma_wide_shift(d as u64, s);
        assert((d << s) == (((d as u64) as u128) << (s as u128)) % 0x100u128) by (bit_vector)
            requires
                s < 8,
        ;
    }
}

/// A shift that has room for every digit is a multiplication.
proof fn lemma_wide_shift(a: u64, s: u64)
    requires
        s < 64,
    ensures
        ((a as u128) << (s as u128)) == a as nat * pow2(s as nat),
    decreases s,
{
    let wide = a as u128;
    let t = s as u128;
    if s == 0 {
        lemma2_to64();
        assert(wide << 0u128 == wide) by (bit_vector);
    } else {
        let shorter = (s - 1) as u64;
        let u = shorter as u128;
        lemma_wide_shift(a, shorter);
        lemma_pow2_unfold(s as nat);
        assert(wide << t == 2 * (wide << u)) by (bit_vector)
            requires
                wide <= 0xFFFF_FFFF_FFFF_FFFF,
                0 < t < 64,
                u == t - 1,
        ;
        let n = a as nat;
        let p = pow2(shorter as nat);
        assert(n * (2 * p) == 2 * (n * p)) by (nonlinear_arith);
    }
}

/// Shifts by as many bits as a type has, or more, panic.
pub proof fn law_shift_too_far(a: nat, s: nat, ty: Scalar, amount: Scalar)
    requires
        s >= 64 || (ty == Scalar::U32 && s >= 32) || (ty == Scalar::U16 && s >= 16) || (ty
            == Scalar::U8 && s >= 8),
    ensures
        apply(BinOp::Shl, Value::Int(ty, a), Value::Int(amount, s)) is None,
        apply(BinOp::Shr, Value::Int(ty, a), Value::Int(amount, s)) is None,
{
}

/// What the smallest expressions give: a literal its value, `value` what it is bound to, and an
/// index the byte that stands there.
pub proof fn law_eval_leaves(n: u64, index: Expr, i: nat, data: Seq<u8>, value: Value)
    ensures
        n <= 0xFF ==> eval(Expr::Lit(n, Scalar::U8), data, value) == Some(
            Value::Int(Scalar::U8, n as nat),
        ),
        n <= 0xFFFF ==> eval(Expr::Lit(n, Scalar::U16), data, value) == Some(
            Value::Int(Scalar::U16, n as nat),
        ),
        n <= 0xFFFF_FFFF ==> eval(Expr::Lit(n, Scalar::U32), data, value) == Some(
            Value::Int(Scalar::U32, n as nat),
        ),
        eval(Expr::Lit(n, Scalar::U64), data, value) == Some(Value::Int(Scalar::U64, n as nat)),
        n <= usize::MAX ==> eval(Expr::Lit(n, Scalar::Usize), data, value) == Some(
            Value::Int(Scalar::Usize, n as nat),
        ),
        eval(Expr::Value, data, value) == Some(value),
        eval(index, data, value) == Some(Value::Int(Scalar::Usize, i)) ==> eval(
            Expr::Byte(Box::new(index)),
            data,
            value,
        ) == (if i < data.len() {
            Some(Value::Int(Scalar::U8, data[i as int] as nat))
        } else {
            None
        }),
{
    lemma2_to64();
    lemma2_to64_rest();
}

/// What `!` and `as` give: the operations of the machine.
pub proof fn law_eval_unary(
    operand: Expr,
    ty: Scalar,
    n: u64,
    b: u8,
    data: Seq<u8>,
    value: Value,
)
    ensures
        eval(operand, data, value) == Some(Value::Int(Scalar::U8, b as nat)) ==> eval(
            Expr::Not(Box::new(operand)),
            data,
            value,
        ) == Some(Value::Int(Scalar::U8, (!b) as nat)),
        eval(operand, data, value) == Some(Value::Int(ty, n as nat)) ==> {
            &&& eval(Expr::Cast(Box::new(operand), Scalar::U8), data, value) == Some(
                Value::Int(Scalar::U8, (n as u8) as nat),
            )
            &&& eval(Expr::Cast(Box::new(operand), Scalar::U16), data, value) == Some(
                Value::Int(Scalar::U16, (n as u16) as nat),
            )
            &&& eval(Expr::Cast(Box::new(operand), Scalar::U32), data, value) == Some(
                Value::Int(Scalar::U32, (n as u32) as nat),
            )
            &&& eval(Expr::Cast(Box::new(operand), Scalar::U64), data, value) == Some(
                Value::Int(Scalar::U64, n as nat),
            )
            &&& n <= usize::MAX ==> eval(Expr::Cast(Box::new(operand), Scalar::Usize), data, value)
                == Some(Value::Int(Scalar::Usize, n as nat))
        },
{
    lemma2_to64();
    lemma2_to64_rest();
    assert(!b == 255 - b) by (bit_vector);
    assert(n as u8 == n % 0x100) by (bit_vector);
    assert(n as u16 == n % 0x1_0000) by (bit_vector);
    assert(n as u32 == n % 0x1_0000_0000) by (bit_vector);
    let m = n as nat;
    assert(m % pow2(8) == n as u8);
    assert(m % pow2(16) == n as u16);
    assert(m % pow2(32) == n as u32);
    lemma_small_mod(m, pow2(64));
    if n <= usize::MAX {
        lemma_small_mod(m, pow2(usize::BITS as nat));
    }
}

/// A binary expression applies its operator to what its two sides give.
pub proof fn law_eval_binary(
    op: BinOp,
    left: Expr,
    right: Expr,
    l: Value,
    r: Value,
    data: Seq<u8>,
    value: Value,
)
    requires
        eval(left, data, value) == Some(l),
        eval(right, data, value) == Some(r),
    ensures
        eval(Expr::Binary(op, Box::new(left), Box::new(right)), data, value) == apply(op, l, r),
{
}

/// An array expression gives what its elements give, in their order.
pub proof fn law_eval_array(elements: Vec<Expr>, values: Seq<Value>, data: Seq<u8>, value: Value)
    requires
        values.len() == elements.len(),
        forall|i: int|
            0 <= i < elements.len() ==> eval(#[trigger] elements[i], data, value) == Some(
                values[i],
            ),
    ensures
        eval(Expr::Array(elements), data, value) == Some(Value::Array(values)),
{
    lemma_eval_each(elements@, values, data, value);
}

proof fn lemma_eval_each(exprs: Seq<Expr>, values: Seq<Value>, data: Seq<u8>, value: Value)
    requires
        values.len() == exprs.len(),
        forall|i: int|
            0 <= i < exprs.len() ==> eval(#[trigger] exprs[i], data, value) == Some(values[i]),
    ensures
        eval_all(exprs, data, value) == Some(values),
    decreases exprs.len(),
{
    if exprs.len() == 0 {
        assert(values =~= Seq::empty());
    } else {
        let last = exprs.len() - 1;
        assert(exprs[last] == exprs.last());
        assert forall|i: int| 0 <= i < exprs.drop_last().len() implies eval(
            #[trigger] exprs.drop_last()[i],
            data,
            value,
        ) == Some(values.drop_last()[i]) by {
            assert(exprs[i] == exprs.drop_last()[i]);
        }
        lemma_eval_each(exprs.drop_last(), values.drop_last(), data, value);
        assert(values.drop_last().push(values.last()) =~= values);
    }
}

/// An assignment stores a byte at its index and leaves the others as they are; a compound
/// assignment stores what the operator gives on the byte that stands there.
pub proof fn law_run_assignment(
    op: BinOp,
    index: Expr,
    expr: Expr,
    i: nat,
    n: u8,
    r: Value,
    data: Seq<u8>,
    value: Value,
)
    requires
        eval(index, data, value) == Some(Value::Int(Scalar::Usize, i)),
        i < data.len(),
    ensures
        eval(expr, data, value) == Some(Value::Int(Scalar::U8, n as nat)) ==> run(
            Stmt::Assign(index, expr),
            data,
            value,
        ) == Some(data.update(i as int, n)),
        eval(expr, data, value) == Some(r) && apply(
            op,
            Value::Int(Scalar::U8, data[i as int] as nat),
            r,
        ) == Some(Value::Int(Scalar::U8, n as nat)) ==> run(
            Stmt::AssignOp(op, index, expr),
            data,
            value,
        ) == Some(data.update(i as int, n)),
{
}

/// A condition decides which of two statements runs, and `let value = value[i]` binds one
/// element.
pub proof fn law_run_branches(
    condition: Expr,
    yes: Stmt,
    no: Stmt,
    i: usize,
    elements: Seq<Value>,
    data: Seq<u8>,
    value: Value,
)
    ensures
        eval(condition, data, value) == Some(Value::Bool(true)) ==> run(
            Stmt::If(condition, Box::new(yes), Box::new(no)),
            data,
            value,
        ) == run(yes, data, value),
        eval(condition, data, value) == Some(Value::Bool(false)) ==> run(
            Stmt::If(condition, Box::new(yes), Box::new(no)),
            data,
            value,
        ) == run(no, data, value),
        i < elements.len() ==> run(
            Stmt::WithElement(i, Box::new(yes)),
            data,
            Value::Array(elements),
        ) == run(yes, data, elements[i as int]),
{
}

/// A block runs its statements one after the other: each finds what the one before it left.
pub proof fn law_run_block(stmts: Vec<Stmt>, states: Seq<Seq<u8>>, value: Value)
    requires
        states.len() == stmts.len() + 1,
        forall|i: int|
            0 <= i < stmts.len() ==> run(#[trigger] stmts[i], states[i], value) == Some(
                states[i + 1],
            ),
    ensures
        run(Stmt::Block(stmts), states[0], value) == Some(states.last()),
{
    lemma_run_each(stmts@, states, value);
}

proof fn lemma_run_each(stmts: Seq<Stmt>, states: Seq<Seq<u8>>, value: Value)
    requires
        states.len() == stmts.len() + 1,
        forall|i: int|
            0 <= i < stmts.len() ==> run(#[trigger] stmts[i], states[i], value) == Some(
                states[i + 1],
            ),
    ensures
        run_all(stmts, states[0], value) == Some(states.last()),
    decreases stmts.len(),
{
    if stmts.len() > 0 {
        let last = stmts.len() - 1;
        assert(stmts[last] == stmts.last());
        assert forall|i: int| 0 <= i < stmts.drop_last().len() implies run(
            #[trigger] stmts.drop_last()[i],
            states.drop_last()[i],
            value,
        ) == Some(states.drop_last()[i + 1]) by {
            assert(stmts[i] == stmts.drop_last()[i]);
        }
        lemma_run_each(stmts.drop_last(), states.drop_last(), value);
    }
}

/// A call of a method runs its body: a getter with what the struct holds, a setter with the value
/// given, and the constructor takes as many bytes as it says.
pub proof fn law_calls(item: ImplItem, data: Seq<u8>, value: Value)
    ensures
        item.method matches Method::Getter(_, expr) ==> call_getter(item, data) == eval(
            expr,
            data,
            Value::Array(Seq::empty()),
        ),
        item.method matches Method::Setter(_, stmt) ==> call_setter(item, data, value) == run(
            stmt,
            data,
            value,
        ),
        item.method matches Method::New(length) ==> call_new(item, data) == if data.len()
            == length {
            Some(data)
        } else {
            None
        },
{
}

} // verus!

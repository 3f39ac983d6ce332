//! What the generated code computes.
//!
//! The functions here give the meaning that the language gives to the generated expressions and
//! statements. `None` stands for code that panics or does not type-check.

use vstd::arithmetic::power2::*;
use vstd::prelude::*;

use crate::ast::{BinOp, Expr, ImplItem, Method, Scalar, Stmt, Ty};

verus! {

/// A value that generated code handles.
pub enum Value {
    Bool(bool),
    Int(Scalar, nat),
    Array(Seq<Value>),
}

/// The number of bits of a scalar type.
pub open spec fn width(ty: Scalar) -> nat {
    match ty {
        Scalar::Bool => 1,
        Scalar::U8 => 8,
        Scalar::U16 => 16,
        Scalar::U32 => 32,
        Scalar::U64 => 64,
        Scalar::Usize => usize::BITS as nat,
    }
}

/// Whether `value` is a value of the scalar type `ty`.
pub open spec fn is_scalar(value: Value, ty: Scalar) -> bool {
    match value {
        Value::Bool(_) => ty == Scalar::Bool,
        Value::Int(t, n) => t == ty && ty != Scalar::Bool && n < pow2(width(ty)),
        Value::Array(_) => false,
    }
}

/// Whether `value` is a value of type `ty`.
pub open spec fn has_type(value: Value, ty: Ty) -> bool {
    match ty {
        Ty::Scalar(scalar) => is_scalar(value, scalar),
        Ty::Array(scalar, length) => {
            &&& value matches Value::Array(elements)
            &&& elements.len() == length
            &&& forall|i: int| 0 <= i < length ==> is_scalar(#[trigger] elements[i], scalar)
        },
    }
}

/// What a binary operator gives on two values.
pub open spec fn apply(op: BinOp, left: Value, right: Value) -> Option<Value> {
    match (left, right) {
        (Value::Int(t, a), Value::Int(u, b)) => match op {
            BinOp::Shl => if b < width(t) {
                Some(Value::Int(t, (a * pow2(b)) % pow2(width(t))))
            } else {
                None
            },
            BinOp::Shr => if b < width(t) {
                Some(Value::Int(t, a / pow2(b)))
            } else {
                None
            },
            BinOp::BitAnd => if t == u {
                Some(Value::Int(t, ((a as u64) & (b as u64)) as nat))
            } else {
                None
            },
            BinOp::BitOr => if t == u {
                Some(Value::Int(t, ((a as u64) | (b as u64)) as nat))
            } else {
                None
            },
            BinOp::Div => if t == u && b != 0 {
                Some(Value::Int(t, a / b))
            } else {
                None
            },
            BinOp::Ne => if t == u {
                Some(Value::Bool(a != b))
            } else {
                None
            },
        },
        _ => None,
    }
}

/// What `self.data[index]` gives.
pub open spec fn byte_at(data: Seq<u8>, index: Option<Value>) -> Option<Value> {
    match index {
        Some(Value::Int(Scalar::Usize, i)) => if i < data.len() {
            Some(Value::Int(Scalar::U8, data[i as int] as nat))
        } else {
            None
        },
        _ => None,
    }
}

/// What an expression gives where the struct holds `data` and `value` is bound to `value`.
pub open spec fn eval(expr: Expr, data: Seq<u8>, value: Value) -> Option<Value>
    decreases expr,
{
    match expr {
        Expr::Lit(n, ty) => if ty != Scalar::Bool && n < pow2(width(ty)) {
            Some(Value::Int(ty, n as nat))
        } else {
            None
        },
        Expr::Byte(index) => byte_at(data, eval(*index, data, value)),
        Expr::Value => Some(value),
        Expr::Not(operand) => match eval(*operand, data, value) {
            Some(Value::Int(t, a)) => Some(Value::Int(t, (pow2(width(t)) - 1 - a) as nat)),
            _ => None,
        },
        Expr::Cast(operand, ty) => match eval(*operand, data, value) {
            Some(Value::Int(_, a)) => if ty != Scalar::Bool {
                Some(Value::Int(ty, a % pow2(width(ty))))
            } else {
                None
            },
            _ => None,
        },
        Expr::Binary(op, left, right) => match (
            eval(*left, data, value),
            eval(*right, data, value),
        ) {
            (Some(l), Some(r)) => apply(op, l, r),
            _ => None,
        },
        Expr::Array(elements) => match eval_all(elements@, data, value) {
            Some(values) => Some(Value::Array(values)),
            None => None,
        },
    }
}

/// What the expressions of a list give, one after the other.
pub open spec fn eval_all(exprs: Seq<Expr>, data: Seq<u8>, value: Value) -> Option<Seq<Value>>
    decreases exprs,
{
    if exprs.len() == 0 {
        Some(Seq::empty())
    } else {
        match (eval_all(exprs.drop_last(), data, value), eval(exprs.last(), data, value)) {
            (Some(values), Some(last)) => Some(values.push(last)),
            _ => None,
        }
    }
}

/// What the struct holds after `self.data[index] = new`.
pub open spec fn store(data: Seq<u8>, index: Option<Value>, new: Option<Value>) -> Option<Seq<u8>> {
    match (index, new) {
        (Some(Value::Int(Scalar::Usize, i)), Some(Value::Int(Scalar::U8, n))) => if i
            < data.len() {
            Some(data.update(i as int, n as u8))
        } else {
            None
        },
        _ => None,
    }
}

/// What the struct holds after a statement, where it held `data` before and `value` is bound to
/// `value`.
pub open spec fn run(stmt: Stmt, data: Seq<u8>, value: Value) -> Option<Seq<u8>>
    decreases stmt,
{
    match stmt {
        Stmt::Assign(index, expr) => store(
            data,
            eval(index, data, value),
            eval(expr, data, value),
        ),
        Stmt::AssignOp(op, index, expr) => match (
            byte_at(data, eval(index, data, value)),
            eval(expr, data, value),
        ) {
            (Some(l), Some(r)) => store(data, eval(index, data, value), apply(op, l, r)),
            _ => None,
        },
        Stmt::If(condition, then_do, otherwise) => match eval(condition, data, value) {
            Some(Value::Bool(true)) => run(*then_do, data, value),
            Some(Value::Bool(false)) => run(*otherwise, data, value),
            _ => None,
        },
        Stmt::Block(stmts) => run_all(stmts@, data, value),
        Stmt::WithElement(i, body) => match value {
            Value::Array(elements) => if i < elements.len() {
                run(*body, data, elements[i as int])
            } else {
                None
            },
            _ => None,
        },
    }
}

/// What the struct holds after the statements of a list, one after the other.
pub open spec fn run_all(stmts: Seq<Stmt>, data: Seq<u8>, value: Value) -> Option<Seq<u8>>
    decreases stmts,
{
    if stmts.len() == 0 {
        Some(data)
    } else {
        match run_all(stmts.drop_last(), data, value) {
            Some(between) => run(stmts.last(), between, value),
            None => None,
        }
    }
}

/// What the struct holds that a call of the constructor `item` with `data` returns.
pub open spec fn call_new(item: ImplItem, data: Seq<u8>) -> Option<Seq<u8>> {
    match item.method {
        Method::New(length) => if data.len() == length {
            Some(data)
        } else {
            None
        },
        _ => None,
    }
}

/// What a call of the getter `item` returns where the struct holds `data`.
pub open spec fn call_getter(item: ImplItem, data: Seq<u8>) -> Option<Value> {
    match item.method {
        Method::Getter(_, expr) => eval(expr, data, Value::Array(Seq::empty())),
        _ => None,
    }
}

/// What the struct holds after a call of the setter `item` with `value` where it held `data`.
pub open spec fn call_setter(item: ImplItem, data: Seq<u8>, value: Value) -> Option<Seq<u8>> {
    match item.method {
        Method::Setter(_, stmt) => run(stmt, data, value),
        _ => None,
    }
}

/// Evaluating a list that ends with `last` is evaluating the others and then `last`.
pub proof fn lemma_eval_all_push(exprs: Seq<Expr>, last: Expr, data: Seq<u8>, value: Value)
    ensures
        eval_all(exprs.push(last), data, value) == (match (
            eval_all(exprs, data, value),
            eval(last, data, value),
        ) {
            (Some(values), Some(v)) => Some(values.push(v)),
            _ => None,
        }),
{
    assert(exprs.push(last).drop_last() =~= exprs);
}

/// Running a list that ends with `last` is running the others and then `last`.
pub proof fn lemma_run_all_push(stmts: Seq<Stmt>, last: Stmt, data: Seq<u8>, value: Value)
    ensures
        run_all(stmts.push(last), data, value) == (match run_all(stmts, data, value) {
            Some(between) => run(last, between, value),
            None => None,
        }),
{
    assert(stmts.push(last).drop_last() =~= stmts);
}

/// The number that a scalar value stands for; `true` stands for 1.
pub open spec fn number(value: Value) -> nat {
    match value {
        Value::Bool(flag) => if flag {
            1
        } else {
            0
        },
        Value::Int(_, n) => n,
        Value::Array(_) => 0,
    }
}

} // verus!

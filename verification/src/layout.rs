//! Where the fields of a declaration lie in the bytes of the struct, and what their accessors do.

use vstd::arithmetic::power2::*;
use vstd::prelude::*;

use crate::access::{is_get_expr, is_set_stmt};
use crate::ast::{Attribute, Expr, ImplItem, Item, Method, Scalar, Stmt, Ty};
use crate::bits::{bit, bits, has_bits, same_outside};
use crate::semantics::{call_getter, call_setter, has_type, is_scalar, number, width, Value};
use crate::types::{scalar_for, visibility_of};

verus! {

/// The value of type `ty` that the `length` bits of `data` at bit `start` stand for.
pub open spec fn read_scalar(ty: Scalar, data: Seq<u8>, start: int, length: u8) -> Value {
    if length == 1 {
        Value::Bool(bit(data, start))
    } else {
        Value::Int(ty, bits(data, start, length as nat))
    }
}

/// Whether values of type `ty` hold `length` bits; one bit is held by `bool`, whatever `ty` is.
pub open spec fn holds_bits(ty: Scalar, length: u8) -> bool {
    length == 1 || (ty != Scalar::Bool && length <= width(ty))
}

/// The values of type `ty` that `n` adjacent runs of `length` bits of `data` stand for, the first
/// of which begins at bit `start`.
pub open spec fn read_elements(
    ty: Scalar,
    data: Seq<u8>,
    start: int,
    length: u8,
    n: nat,
) -> Seq<Value> {
    Seq::new(n, |i: int| read_scalar(ty, data, start + i * length, length))
}

/// `after` is `before` with the `length` bits at bit `start` replaced by the low digits of
/// `value`, and nothing else changed.
pub open spec fn wrote_scalar(
    before: Seq<u8>,
    after: Seq<u8>,
    start: int,
    length: u8,
    value: Value,
) -> bool {
    &&& same_outside(before, after, start, length as int)
    &&& bits(after, start, length as nat) == number(value) % pow2(length as nat)
}

/// Whether a statement that writes `length` bits takes `value`: a `bool` where it writes one bit,
/// an integer of `type_length` bits where it writes more.
pub open spec fn takes(type_length: u8, length: u8, value: Value) -> bool {
    if length == 1 {
        value is Bool
    } else {
        &&& value matches Value::Int(ty, _)
        &&& width(ty) == type_length
        &&& is_scalar(value, ty)
    }
}

/// Whether the positions of `len` bits from bit `start` on can be counted, where they are read and
/// written `length` at a time. The end of a longer run is counted too, that of a single bit is not.
pub open spec fn is_addressable(start: int, len: int, length: u8) -> bool {
    start + len <= if length == 1 {
        u64::MAX + 1
    } else {
        u64::MAX as int
    }
}

/// What a field of a declaration says: a name, the length in bits of its value or of each of its
/// elements, and the number of elements where it is an array.
#[verifier::ext_equal]
pub struct FieldView {
    pub name: Seq<char>,
    pub count: Option<usize>,
    pub length: u8,
    pub is_pub: bool,
    pub attrs: Seq<Attribute>,
}

impl FieldView {
    /// Whether there is a type for the values of the field.
    pub open spec fn wf(self) -> bool {
        1 <= self.length <= 64
    }

    /// The number of bits that the field takes.
    pub open spec fn bit_len(self) -> nat {
        match self.count {
            None => self.length as nat,
            Some(count) => count as nat * self.length as nat,
        }
    }

    /// The type of the value of the field.
    pub open spec fn ty(self) -> Ty {
        match self.count {
            None => Ty::Scalar(scalar_for(self.length)),
            Some(count) => Ty::Array(scalar_for(self.length), count),
        }
    }

    /// The bit at which element `i` of an array field lies that begins at bit `start`.
    pub open spec fn element_start(self, start: int, i: int) -> int {
        start + i * self.length
    }

    /// The value of the field where the struct holds `data` and the field begins at bit `start`.
    pub open spec fn read(self, data: Seq<u8>, start: int) -> Value {
        match self.count {
            None => read_scalar(scalar_for(self.length), data, start, self.length),
            Some(count) => Value::Array(
                read_elements(
                    scalar_for(self.length),
                    data,
                    start,
                    self.length,
                    count as nat,
                ),
            ),
        }
    }

    /// `after` is `before` with `value` written to the field that begins at bit `start`, and
    /// nothing else changed. Digits of `value` that the field has no bits for are dropped.
    pub open spec fn wrote(
        self,
        before: Seq<u8>,
        after: Seq<u8>,
        start: int,
        value: Value,
    ) -> bool {
        match self.count {
            None => wrote_scalar(before, after, start, self.length, value),
            Some(count) => {
                &&& same_outside(before, after, start, self.bit_len() as int)
                &&& forall|i: int|
                    0 <= i < count ==> bits(
                        after,
                        #[trigger] self.element_start(start, i),
                        self.length as nat,
                    ) == number(value->Array_0[i]) % pow2(self.length as nat)
            },
        }
    }
}

/// `expr` has the form of the body of a getter: the expression of a single value, or an array of
/// one such expression for each element.
pub open spec fn is_getter_body(expr: Expr, field: FieldView, start: int) -> bool {
    let ty = scalar_for(field.length);
    match field.count {
        None => is_get_expr(expr, ty, start, field.length),
        Some(count) => {
            &&& expr matches Expr::Array(elements)
            &&& elements.len() == count
            &&& forall|i: int|
                0 <= i < count ==> is_get_expr(
                    #[trigger] elements[i],
                    ty,
                    field.element_start(start, i),
                    field.length,
                )
        },
    }
}

/// `stmt` has the form of the body of a setter: the statement of a single value, or a block with
/// one such statement for each element.
pub open spec fn is_setter_body(stmt: Stmt, field: FieldView, start: int) -> bool {
    match field.count {
        None => is_set_stmt(stmt, start, field.length),
        Some(count) => {
            &&& stmt matches Stmt::Block(elements)
            &&& elements.len() == count
            &&& forall|i: int|
                0 <= i < count ==> {
                    &&& #[trigger] elements[i] matches Stmt::WithElement(number, body)
                    &&& number == i
                    &&& is_set_stmt(*body, field.element_start(start, i), field.length)
                }
        },
    }
}

/// `item` is the getter of the field `field` that begins at bit `start`: its call returns the
/// value of the field.
pub open spec fn is_getter(item: ImplItem, field: FieldView, start: int) -> bool {
    &&& item.attrs@ == field.attrs
    &&& item.visibility == visibility_of(field.is_pub)
    &&& item.name@ == "get_"@ + field.name
    &&& item.method matches Method::Getter(ty, expr)
    &&& ty == field.ty()
    &&& is_getter_body(expr, field, start)
    &&& forall|data: Seq<u8>|
        has_bits(data, start, field.bit_len() as int) ==> #[trigger] call_getter(item, data)
            == Some(field.read(data, start))
}

/// `item` is the setter of the field `field` that begins at bit `start`: its call writes the
/// value to the field.
pub open spec fn is_setter(item: ImplItem, field: FieldView, start: int) -> bool {
    &&& item.attrs@ == field.attrs
    &&& item.visibility == visibility_of(field.is_pub)
    &&& item.name@ == "set_"@ + field.name
    &&& item.method matches Method::Setter(ty, stmt)
    &&& ty == field.ty()
    &&& is_setter_body(stmt, field, start)
    &&& forall|data: Seq<u8>, value: Value|
        has_bits(data, start, field.bit_len() as int) && has_type(value, field.ty()) ==> (
        #[trigger] call_setter(item, data, value) matches Some(after) && field.wrote(
            data,
            after,
            start,
            value,
        ))
}

/// `item` is an `impl` block for the struct `name` that holds one method.
pub open spec fn is_single_impl(item: Item, name: Seq<char>) -> bool {
    &&& item matches Item::Impl { name: impl_name, impl_items }
    &&& impl_name@ == name
    &&& impl_items@.len() == 1
}

/// The number of bits that fields take together.
pub open spec fn total_bits(fields: Seq<FieldView>) -> nat
    decreases fields.len(),
{
    if fields.len() == 0 {
        0
    } else {
        total_bits(fields.drop_last()) + fields.last().bit_len()
    }
}

/// The bit at which field `i` begins: fields lie one after the other, without gaps.
pub open spec fn field_start(fields: Seq<FieldView>, i: int) -> int {
    total_bits(fields.take(i)) as int
}

/// The number of bytes that hold the fields.
pub open spec fn byte_length(fields: Seq<FieldView>) -> nat {
    (total_bits(fields) + 7) / 8
}

/// The length of the array of bytes that is declared for the fields: as much of the number of bytes
/// as an array length can hold.
pub open spec fn array_length(fields: Seq<FieldView>) -> usize {
    byte_length(fields) as usize
}

/// A field begins where the one before it ends.
pub proof fn lemma_next_start(fields: Seq<FieldView>, i: int)
    requires
        0 <= i < fields.len(),
    ensures
        field_start(fields, i + 1) == field_start(fields, i) + fields[i].bit_len(),
{
    assert(fields.take(i + 1).drop_last() =~= fields.take(i));
}

/// Fields begin in their order, and none begins past the end.
pub proof fn lemma_starts_ordered(fields: Seq<FieldView>, i: int, j: int)
    requires
        0 <= i <= j <= fields.len(),
    ensures
        0 <= field_start(fields, i) <= field_start(fields, j) <= total_bits(fields),
    decreases fields.len() - i,
{
    assert(fields.take(fields.len() as int) =~= fields);
    if i < j {
        lemma_next_start(fields, i);
        lemma_starts_ordered(fields, i + 1, j);
    } else if j < fields.len() {
        lemma_next_start(fields, i);
        lemma_starts_ordered(fields, i + 1, j + 1);
    }
}

} // verus!

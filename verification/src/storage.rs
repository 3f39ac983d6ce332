//! Laws of the bits that accessors read and write, of the place of each field, and of the
//! signatures of what is generated.

use vstd::arithmetic::div_mod::*;
use vstd::arithmetic::power2::*;
use vstd::prelude::*;

use crate::ast::{Attribute, ImplItem, Item, Keyword, Method, Scalar, Ty};
use crate::bits::{bit, bits, has_bits, lemma_bits_bound, lemma_bits_in_byte, lemma_bits_split};
use crate::expand::{getter_at, is_countable, is_expansion, setter_at};
use crate::field::lemma_element_fits;
use crate::grammar::DeclarationView;
use crate::items::{all_impl_items, impl_items_of};
use crate::layout::{
    field_start, holds_bits, is_addressable, is_getter, is_setter, is_single_impl,
    lemma_next_start, lemma_starts_ordered, read_elements, read_scalar, takes, total_bits,
    wrote_scalar, FieldView,
};
use crate::semantics::{call_getter, call_new, call_setter, has_type, number, Value};
use crate::types::scalar_for;

verus! {

/// Eight bits that begin with a byte are that byte.
pub proof fn law_bits_of_byte(data: Seq<u8>, i: int)
    requires
        0 <= i < data.len(),
    ensures
        bits(data, 8 * i, 8) == data[i],
{
    lemma_bits_in_byte(data, 8 * i, 8);
    lemma2_to64();
    let byte = data[i] as nat;
    lemma_div_basics(byte as int);
    lemma_small_mod(byte, 256);
}

/// Two runs of bits that follow one another are the run of both, the first being the more
/// significant one; `n` bits stand for a number below `2^n`.
pub proof fn law_bits_joined(data: Seq<u8>, start: int, a: nat, b: nat)
    ensures
        bits(data, start, a + b) == bits(data, start, a) * pow2(b) + bits(data, start + a, b),
        bits(data, start, a) < pow2(a),
{
    lemma_bits_split(data, start, a, b);
    lemma_bits_bound(data, start, a);
}

/// A run of one bit is 1 where the bit is set, and 0 where it is not. Bit `k` of a byte sequence
/// is found in byte `k / 8`, where the first bit is worth 128 and each one half of the one before.
pub proof fn law_bit(data: Seq<u8>, k: int)
    requires
        0 <= k < 8 * data.len(),
    ensures
        bits(data, k, 1) == if bit(data, k) {
            1nat
        } else {
            0nat
        },
        bit(data, k) <==> (data[k / 8] as nat / (if k % 8 == 0 {
            128nat
        } else if k % 8 == 1 {
            64
        } else if k % 8 == 2 {
            32
        } else if k % 8 == 3 {
            16
        } else if k % 8 == 4 {
            8
        } else if k % 8 == 5 {
            4
        } else if k % 8 == 6 {
            2
        } else {
            1
        })) % 2 == 1,
{
    assert(bits(data, k, 0) == 0);
    lemma2_to64();
}

/// The type of a field, by its length.
pub proof fn law_field_type(field: FieldView)
    requires
        1 <= field.length <= 64,
    ensures
        ({
            let ty = if field.length == 1 {
                Scalar::Bool
            } else if field.length <= 8 {
                Scalar::U8
            } else if field.length <= 16 {
                Scalar::U16
            } else if field.length <= 32 {
                Scalar::U32
            } else {
                Scalar::U64
            };
            &&& scalar_for(field.length) == ty
            &&& field.ty() == match field.count {
                None => Ty::Scalar(ty),
                Some(count) => Ty::Array(ty, count),
            }
        }),
{
}

/// What the lengths of fields, types and byte sequences allow: how many bits a field takes, how
/// many bits a type holds, which values a setter takes, which bits a byte sequence has, and up to
/// which position bits can be counted.
pub proof fn law_limits(
    field: FieldView,
    ty: Scalar,
    length: u8,
    value: Value,
    data: Seq<u8>,
    start: int,
    len: int,
)
    ensures
        field.bit_len() == match field.count {
            None => field.length as int,
            Some(count) => count as int * field.length as int,
        },
        field.wf() <==> 1 <= field.length <= 64,
        holds_bits(ty, length) <==> length == 1 || match ty {
            Scalar::Bool => false,
            Scalar::U8 => length <= 8,
            Scalar::U16 => length <= 16,
            Scalar::U32 => length <= 32,
            Scalar::U64 => length <= 64,
            Scalar::Usize => length <= usize::BITS,
        },
        match value {
            Value::Bool(_) => forall|type_length: u8|
                #[trigger] takes(type_length, length, value) <==> length == 1,
            Value::Int(Scalar::U8, n) => takes(8, length, value) <==> length != 1 && n < 0x100,
            Value::Int(Scalar::U16, n) => takes(16, length, value) <==> length != 1 && n < 0x1_0000,
            Value::Int(Scalar::U32, n) => takes(32, length, value) <==> length != 1 && n
                < 0x1_0000_0000,
            Value::Int(Scalar::U64, n) => takes(64, length, value) <==> length != 1 && n
                < 0x1_0000_0000_0000_0000,
            _ => true,
        },
        has_bits(data, start, len) <==> data.len() <= usize::MAX && 0 <= start && start + len <= 8
            * data.len(),
        is_addressable(start, len, length) <==> start + len <= if length == 1 {
            0x1_0000_0000_0000_0000int
        } else {
            0xffff_ffff_ffff_ffffint
        },
{
    lemma2_to64();
    lemma2_to64_rest();
}

/// The bits that fields take together are the sum of their lengths, where an array counts the
/// length of its elements once for each of them.
pub proof fn law_total_bits(fields: Seq<FieldView>)
    ensures
        total_bits(fields) == fields.fold_left(
            0int,
            |sum: int, field: FieldView|
                sum + match field.count {
                    None => field.length as int,
                    Some(count) => count as int * field.length as int,
                },
        ),
    decreases fields.len(),
{
    if fields.len() > 0 {
        law_total_bits(fields.drop_last());
    }
}

/// The bits of fields are counted in 64 bits, with room for rounding up to whole bytes.
pub proof fn law_countable(fields: Seq<FieldView>)
    ensures
        is_countable(fields) <==> fields.fold_left(
            0int,
            |sum: int, field: FieldView|
                sum + match field.count {
                    None => field.length as int,
                    Some(count) => count as int * field.length as int,
                },
        ) + 7 <= 0xffff_ffff_ffff_ffff,
{
    law_total_bits(fields);
}

/// The number that a single value is read as, or written to, is that of its bits.
pub proof fn law_single_value(
    ty: Scalar,
    data: Seq<u8>,
    after: Seq<u8>,
    start: int,
    length: u8,
    value: Value,
)
    requires
        1 <= length <= 64,
    ensures
        match read_scalar(ty, data, start, length) {
            Value::Bool(flag) => length == 1 && bits(data, start, 1) == if flag {
                1nat
            } else {
                0nat
            },
            Value::Int(read_ty, n) => length > 1 && read_ty == ty && n == bits(
                data,
                start,
                length as nat,
            ),
            Value::Array(_) => false,
        },
        wrote_scalar(data, after, start, length, value) ==> {
            &&& after.len() == data.len()
            &&& forall|k: int|
                0 <= k < 8 * data.len() && !(start <= k < start + length) ==> #[trigger] bits(
                    after,
                    k,
                    1,
                ) == bits(data, k, 1)
            &&& bits(after, start, length as nat) == (match value {
                Value::Bool(flag) => if flag {
                    1nat
                } else {
                    0nat
                },
                Value::Int(_, n) => n,
                Value::Array(_) => 0nat,
            }) % pow2(length as nat)
        },
{
    lemma_one_bit(data, start);
    assert forall|k: int| wrote_scalar(data, after, start, length, value) && 0 <= k < 8 * data.len()
        && !(start <= k < start + length) implies #[trigger] bits(after, k, 1) == bits(
        data,
        k,
        1,
    ) by {
        lemma_one_bit(data, k);
        lemma_one_bit(after, k);
        assert(bit(after, k) == bit(data, k));
    }
}

proof fn lemma_one_bit(data: Seq<u8>, k: int)
    ensures
        bits(data, k, 1) == if bit(data, k) {
            1nat
        } else {
            0nat
        },
{
    assert(bits(data, k, 0) == 0);
}

/// The number with the digits that `n` elements stand for, to the base `2^length`, is that of the
/// bits of all of them.
proof fn lemma_elements_digits(
    ty: Scalar,
    data: Seq<u8>,
    start: int,
    length: u8,
    n: nat,
    digit: spec_fn(nat, Value) -> nat,
)
    requires
        1 <= length <= 64,
        forall|high: nat, i: int|
            #![trigger digit(high, read_scalar(ty, data, start + i * length, length))]
            digit(high, read_scalar(ty, data, start + i * length, length)) == high * pow2(
                length as nat,
            ) + bits(data, start + i * length, length as nat),
    ensures
        read_elements(ty, data, start, length, n).fold_left(0nat, digit) == bits(
            data,
            start,
            n * length as nat,
        ),
    decreases n,
{
    let elements = read_elements(ty, data, start, length, n);
    if n > 0 {
        let m = (n - 1) as nat;
        lemma_elements_digits(ty, data, start, length, m, digit);
        assert(elements.drop_last() =~= read_elements(ty, data, start, length, m));
        lemma_element_fits(m as int, n as int, length as int);
        lemma_bits_split(data, start, m * length as nat, length as nat);
        assert(n * length as nat == m * length as nat + length as nat);
    } else {
        assert(n * length as nat == 0) by (nonlinear_arith)
            requires
                n == 0,
        ;
    }
}

/// What a getter returns. A single value stands for the number of the bits of the field; an array
/// has as many elements as it is declared with, each below `2^length`, and its elements, written
/// one after another as digits to the base `2^length`, are the number of the bits of the field.
pub proof fn law_getter_reads(getter: ImplItem, field: FieldView, start: int, data: Seq<u8>)
    requires
        is_getter(getter, field, start),
        1 <= field.length <= 64,
        data.len() <= usize::MAX,
        0 <= start,
        start + (match field.count {
            None => field.length as int,
            Some(count) => count as int * field.length as int,
        }) <= 8 * data.len(),
    ensures
        ({
            let length = field.length as nat;
            match field.count {
                None => {
                    &&& call_getter(getter, data) matches Some(value)
                    &&& match value {
                        Value::Bool(flag) => length == 1 && bits(data, start, length) == if flag {
                            1nat
                        } else {
                            0nat
                        },
                        Value::Int(_, n) => length > 1 && bits(data, start, length) == n,
                        Value::Array(_) => false,
                    }
                },
                Some(count) => {
                    &&& call_getter(getter, data) matches Some(Value::Array(elements))
                    &&& elements.len() == count
                    &&& forall|e: int|
                        0 <= e < count ==> match #[trigger] elements[e] {
                            Value::Bool(_) => length == 1,
                            Value::Int(_, n) => length > 1 && n < pow2(length),
                            Value::Array(_) => false,
                        }
                    &&& elements.fold_left(
                        0nat,
                        |high: nat, element: Value|
                            high * pow2(length) + match element {
                                Value::Bool(flag) => if flag {
                                    1nat
                                } else {
                                    0nat
                                },
                                Value::Int(_, n) => n,
                                Value::Array(_) => 0nat,
                            },
                    ) == bits(data, start, count as nat * length)
                },
            }
        }),
{
    let length = field.length as nat;
    let ty = scalar_for(field.length);
    match field.count {
        None => {
            assert(call_getter(getter, data) == Some(read_scalar(ty, data, start, field.length)));
            lemma_one_bit(data, start);
        },
        Some(count) => {
            let elements = read_elements(ty, data, start, field.length, count as nat);
            assert(call_getter(getter, data) == Some(Value::Array(elements)));
            assert forall|e: int| 0 <= e < count implies match #[trigger] elements[e] {
                Value::Bool(_) => length == 1,
                Value::Int(_, n) => length > 1 && n < pow2(length),
                Value::Array(_) => false,
            } by {
                lemma_bits_bound(data, start + e * field.length, length);
            }
            let digit = |high: nat, element: Value|
                high * pow2(length) + match element {
                    Value::Bool(flag) => if flag {
                        1nat
                    } else {
                        0nat
                    },
                    Value::Int(_, n) => n,
                    Value::Array(_) => 0nat,
                };
            assert forall|high: nat, i: int|
                #![trigger digit(
                    high,
                    read_scalar(ty, data, start + i * field.length, field.length),
                )]
                digit(high, read_scalar(ty, data, start + i * field.length, field.length)) == high
                    * pow2(length) + bits(data, start + i * field.length, length) by {
                lemma_one_bit(data, start + i * field.length);
            }
            lemma_elements_digits(ty, data, start, field.length, count as nat, digit);
        },
    }
}

/// The number with the digits that are left of elements, to the base `2^length`, is that of the
/// bits that they were written to.
proof fn lemma_written_digits(
    field: FieldView,
    data: Seq<u8>,
    start: int,
    elements: Seq<Value>,
    n: nat,
    digit: spec_fn(nat, Value) -> nat,
)
    requires
        1 <= field.length <= 64,
        n <= elements.len(),
        forall|i: int|
            0 <= i < n ==> bits(
                data,
                #[trigger] field.element_start(start, i),
                field.length as nat,
            ) == number(elements[i]) % pow2(field.length as nat),
        forall|high: nat, element: Value|
            #[trigger] digit(high, element) == high * pow2(field.length as nat) + number(element)
                % pow2(field.length as nat),
    ensures
        elements.take(n as int).fold_left(0nat, digit) == bits(
            data,
            start,
            n * field.length as nat,
        ),
    decreases n,
{
    let length = field.length as nat;
    if n > 0 {
        let m = (n - 1) as nat;
        lemma_written_digits(field, data, start, elements, m, digit);
        assert(elements.take(n as int).drop_last() =~= elements.take(m as int));
        lemma_element_fits(m as int, n as int, field.length as int);
        lemma_bits_split(data, start, m * length, length);
        assert(n * length == m * length + length);
        assert(bits(data, field.element_start(start, m as int), length) == number(
            elements[m as int],
        ) % pow2(length));
    } else {
        assert(n * length == 0) by (nonlinear_arith)
            requires
                n == 0,
        ;
    }
}

/// What a setter does. It takes every value of the type of the field, and changes the bits of the
/// field alone. A single value is written as its lowest digits; the elements of an array are
/// written one after another as digits to the base `2^length`, of each of them its lowest binary
/// digits.
pub proof fn law_setter_writes(
    setter: ImplItem,
    field: FieldView,
    start: int,
    data: Seq<u8>,
    value: Value,
)
    requires
        is_setter(setter, field, start),
        1 <= field.length <= 64,
        data.len() <= usize::MAX,
        0 <= start,
        start + (match field.count {
            None => field.length as int,
            Some(count) => count as int * field.length as int,
        }) <= 8 * data.len(),
        ({
            let scalar = if field.length == 1 {
                Scalar::Bool
            } else if field.length <= 8 {
                Scalar::U8
            } else if field.length <= 16 {
                Scalar::U16
            } else if field.length <= 32 {
                Scalar::U32
            } else {
                Scalar::U64
            };
            has_type(
                value,
                match field.count {
                    None => Ty::Scalar(scalar),
                    Some(count) => Ty::Array(scalar, count),
                },
            )
        }),
    ensures
        ({
            let length = field.length as nat;
            let taken = match field.count {
                None => length,
                Some(count) => count as nat * length,
            };
            &&& call_setter(setter, data, value) matches Some(after)
            &&& after.len() == data.len()
            &&& forall|k: int|
                0 <= k < 8 * data.len() && !(start <= k < start + taken) ==> #[trigger] bits(
                    after,
                    k,
                    1,
                ) == bits(data, k, 1)
            &&& bits(after, start, taken) == match value {
                Value::Bool(flag) => if flag {
                    1nat
                } else {
                    0nat
                },
                Value::Int(_, n) => n % pow2(length),
                Value::Array(elements) => elements.fold_left(
                    0nat,
                    |high: nat, element: Value|
                        high * pow2(length) + (match element {
                            Value::Bool(flag) => if flag {
                                1nat
                            } else {
                                0nat
                            },
                            Value::Int(_, n) => n,
                            Value::Array(_) => 0nat,
                        }) % pow2(length),
                ),
            }
        }),
{
    let length = field.length as nat;
    assert(has_type(value, field.ty()));
    let after = call_setter(setter, data, value).unwrap();
    assert(field.wrote(data, after, start, value));
    assert forall|k: int| 0 <= k < 8 * data.len() && !(start <= k < start + field.bit_len()) implies
        #[trigger] bits(after, k, 1) == bits(data, k, 1) by {
        lemma_one_bit(data, k);
        lemma_one_bit(after, k);
        assert(bit(after, k) == bit(data, k));
    }
    match field.count {
        None => {
            if length == 1 {
                lemma2_to64();
            }
        },
        Some(count) => {
            let elements = value->Array_0;
            let digit = |high: nat, element: Value|
                high * pow2(length) + (match element {
                    Value::Bool(flag) => if flag {
                        1nat
                    } else {
                        0nat
                    },
                    Value::Int(_, n) => n,
                    Value::Array(_) => 0nat,
                }) % pow2(length);
            lemma_written_digits(field, after, start, elements, count as nat, digit);
            assert(elements.take(count as int) =~= elements);
        },
    }
}

/// The struct has the attributes, the visibility and the name of the declaration, and as few bytes
/// as hold the bits of its fields. Where it has neither bytes nor fields, it stands alone.
pub proof fn law_struct(declaration: DeclarationView, items: Seq<Item>)
    requires
        is_expansion(items, declaration),
    ensures
        ({
            let total = declaration.fields.fold_left(
                0int,
                |sum: int, field: FieldView|
                    sum + match field.count {
                        None => field.length as int,
                        Some(count) => count as int * field.length as int,
                    },
            );
            let bytes = ((total + 7) / 8) as usize;
            &&& items.len() == if bytes == 0 && declaration.fields.len() == 0 {
                1nat
            } else {
                2nat
            }
            &&& items[0] matches Item::Struct { attrs, visibility, name, data_length }
            &&& attrs@ == declaration.attrs
            &&& visibility == if declaration.is_pub {
                Some(Keyword::Pub)
            } else {
                None
            }
            &&& name@ == declaration.name
            &&& data_length == if bytes == 0 {
                None
            } else {
                Some(bytes)
            }
        }),
{
    law_total_bits(declaration.fields);
}

/// The methods of the struct: the setter of the last field comes first, if there is a field, then
/// `new`, if the struct has bytes, and then the getter and the setter of each field in turn.
pub proof fn law_methods(declaration: DeclarationView, items: Seq<Item>)
    requires
        is_expansion(items, declaration),
        items.len() == 2,
    ensures
        ({
            let total = declaration.fields.fold_left(
                0int,
                |sum: int, field: FieldView|
                    sum + match field.count {
                        None => field.length as int,
                        Some(count) => count as int * field.length as int,
                    },
            );
            let bytes = ((total + 7) / 8) as usize;
            let first = if bytes == 0 {
                0int
            } else {
                1int
            };
            let n = declaration.fields.len();
            &&& items[1] matches Item::Impl { name, impl_items }
            &&& name@ == declaration.name
            &&& impl_items.len() == first + 2 * n
            &&& bytes > 0 ==> {
                let item = if n == 0 {
                    impl_items[0]
                } else {
                    impl_items[1]
                };
                &&& item.attrs.len() == 1
                &&& item.attrs[0] matches Attribute::Doc(text)
                &&& text@ == "Creates a new `"@ + declaration.name + "`"@
                &&& item.visibility == if declaration.is_pub {
                    Some(Keyword::Pub)
                } else {
                    None
                }
                &&& item.name@ == "new"@
                &&& item.method == Method::New(bytes)
                &&& forall|data: Seq<u8>|
                    data.len() == bytes ==> #[trigger] call_new(item, data) == Some(data)
            }
        }),
{
    law_total_bits(declaration.fields);
}

/// The accessors of field `i` stand at their places among the methods, have the attributes, the
/// visibility and the type of the field, are named after it, and read and write the bits behind
/// those of the fields before it.
pub proof fn law_accessors(declaration: DeclarationView, items: Seq<Item>, i: int)
    requires
        is_expansion(items, declaration),
        0 <= i < declaration.fields.len(),
        1 <= declaration.fields[i].length <= 64,
    ensures
        ({
            let total = declaration.fields.fold_left(
                0int,
                |sum: int, field: FieldView|
                    sum + match field.count {
                        None => field.length as int,
                        Some(count) => count as int * field.length as int,
                    },
            );
            let bytes = ((total + 7) / 8) as usize;
            let first = if bytes == 0 {
                0int
            } else {
                1int
            };
            let field = declaration.fields[i];
            let visibility = if field.is_pub {
                Some(Keyword::Pub)
            } else {
                None
            };
            let scalar = if field.length == 1 {
                Scalar::Bool
            } else if field.length <= 8 {
                Scalar::U8
            } else if field.length <= 16 {
                Scalar::U16
            } else if field.length <= 32 {
                Scalar::U32
            } else {
                Scalar::U64
            };
            let ty = match field.count {
                None => Ty::Scalar(scalar),
                Some(count) => Ty::Array(scalar, count),
            };
            let start = declaration.fields.take(i).fold_left(
                0int,
                |sum: int, field: FieldView|
                    sum + match field.count {
                        None => field.length as int,
                        Some(count) => count as int * field.length as int,
                    },
            );
            &&& items[1] matches Item::Impl { name, impl_items }
            &&& {
                let getter = impl_items[first + 2 * i + 1];
                &&& getter.attrs@ == field.attrs
                &&& getter.visibility == visibility
                &&& getter.name@ == "get_"@ + field.name
                &&& getter.method matches Method::Getter(getter_ty, _)
                &&& getter_ty == ty
                &&& is_getter(getter, field, start)
                &&& getter == getter_at(items, declaration.fields, i)
            }
            &&& {
                let setter = if i + 1 == declaration.fields.len() {
                    impl_items[0]
                } else {
                    impl_items[first + 2 * i + 2]
                };
                &&& setter.attrs@ == field.attrs
                &&& setter.visibility == visibility
                &&& setter.name@ == "set_"@ + field.name
                &&& setter.method matches Method::Setter(setter_ty, _)
                &&& setter_ty == ty
                &&& is_setter(setter, field, start)
                &&& setter == setter_at(items, declaration.fields, i)
            }
        }),
{
    law_total_bits(declaration.fields);
    law_total_bits(declaration.fields.take(i));
    let fields = declaration.fields;
    assert(is_getter(getter_at(items, fields, i), fields[i], field_start(fields, i)));
    assert(is_setter(setter_at(items, fields, i), fields[i], field_start(fields, i)));
}

/// A field takes as many bits as it is declared with, behind those of the fields before it, and
/// ends inside the bits of all fields.
pub proof fn law_field_inside(declaration: DeclarationView, i: int)
    requires
        0 <= i < declaration.fields.len(),
    ensures
        ({
            let total = declaration.fields.fold_left(
                0int,
                |sum: int, field: FieldView|
                    sum + match field.count {
                        None => field.length as int,
                        Some(count) => count as int * field.length as int,
                    },
            );
            let start = declaration.fields.take(i).fold_left(
                0int,
                |sum: int, field: FieldView|
                    sum + match field.count {
                        None => field.length as int,
                        Some(count) => count as int * field.length as int,
                    },
            );
            let end = declaration.fields.take(i + 1).fold_left(
                0int,
                |sum: int, field: FieldView|
                    sum + match field.count {
                        None => field.length as int,
                        Some(count) => count as int * field.length as int,
                    },
            );
            &&& 0 <= start
            &&& end == start + (match declaration.fields[i].count {
                None => declaration.fields[i].length as int,
                Some(count) => count as int * declaration.fields[i].length as int,
            })
            &&& end <= total
        }),
{
    let fields = declaration.fields;
    law_total_bits(fields);
    law_total_bits(fields.take(i));
    law_total_bits(fields.take(i + 1));
    lemma_next_start(fields, i);
    lemma_starts_ordered(fields, i, i + 1);
}

/// The methods of `impl` blocks are those of each block, one block after another.
pub proof fn law_all_methods(items: Seq<Item>)
    ensures
        all_impl_items(items) == items.map_values(
            |item: Item|
                match item {
                    Item::Impl { impl_items, .. } => impl_items@,
                    Item::Struct { .. } => Seq::<ImplItem>::empty(),
                },
        ).flatten(),
    decreases items.len(),
{
    let methods = |item: Item|
        match item {
            Item::Impl { impl_items, .. } => impl_items@,
            Item::Struct { .. } => Seq::<ImplItem>::empty(),
        };
    if items.len() > 0 {
        law_all_methods(items.drop_last());
        let front = items.drop_last().map_values(methods);
        assert(items.map_values(methods) =~= front.push(methods(items.last())));
        front.lemma_flatten_push(methods(items.last()));
    }
}

/// The methods of a single block.
pub proof fn law_methods_of(item: Item)
    ensures
        match item {
            Item::Impl { impl_items, .. } => impl_items_of(item) == impl_items@,
            Item::Struct { .. } => impl_items_of(item).len() == 0,
        },
{
}

/// An `impl` block with a single method is one that has the name of the struct and one method.
pub proof fn law_single_impl(item: Item, name: Seq<char>)
    ensures
        is_single_impl(item, name) <==> match item {
            Item::Impl { name: impl_name, impl_items } => impl_name@ == name && impl_items.len()
                == 1,
            Item::Struct { .. } => false,
        },
{
}

} // verus!

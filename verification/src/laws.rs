//! Laws of the generated accessors.

use vstd::arithmetic::div_mod::*;
use vstd::arithmetic::power2::*;
use vstd::prelude::*;

use crate::access::is_set_stmt;
use crate::ast::{Item, Stmt};
use crate::bits::{
    bit, bits, has_bits, lemma_bits_bound, lemma_bits_same, lemma_same_bits_equal,
    lemma_value_of_bits, same_outside, value_bit,
};
use crate::expand::{getter_at, is_expansion, new_of, setter_at};
use crate::field::lemma_element_fits;
use crate::grammar::DeclarationView;
use crate::layout::{
    byte_length, field_start, lemma_next_start, lemma_starts_ordered, read_elements, read_scalar,
    total_bits, FieldView,
};
use crate::semantics::{
    call_getter, call_new, call_setter, has_type, is_scalar, number, width, Value,
};
use crate::types::scalar_for;

verus! {

/// What is left of a scalar value in `length` bits: its low digits.
pub open spec fn stored_scalar(length: u8, value: Value) -> Value {
    match value {
        Value::Int(ty, n) => Value::Int(ty, n % pow2(length as nat)),
        other => other,
    }
}

/// What is left of a value of `field` in the bits of the field.
pub open spec fn stored(field: FieldView, value: Value) -> Value {
    match value {
        Value::Array(elements) => Value::Array(
            elements.map_values(|element: Value| stored_scalar(field.length, element)),
        ),
        scalar => stored_scalar(field.length, scalar),
    }
}

/// The scalar of `value` that element `e` of a field is written from.
spec fn element_of(field: FieldView, value: Value, e: int) -> Value {
    match field.count {
        None => value,
        Some(_) => value->Array_0[e],
    }
}

/// The bit that writing `value` leaves at bit `k` of a field that begins at bit `start`.
spec fn written_bit(field: FieldView, start: int, value: Value, k: int) -> bool {
    let e = (k - start) / field.length as int;
    let end = start + e * field.length + field.length;
    value_bit(
        number(element_of(field, value, e)) % pow2(field.length as nat),
        (end - 1 - k) as nat,
    )
}

/// Writing a value decides every bit of the field.
proof fn lemma_written_bit(
    field: FieldView,
    start: int,
    before: Seq<u8>,
    after: Seq<u8>,
    value: Value,
    k: int,
)
    requires
        field.wf(),
        start <= k < start + field.bit_len(),
        field.wrote(before, after, start, value),
    ensures
        bit(after, k) == written_bit(field, start, value, k),
{
    let length = field.length as int;
    let e = (k - start) / length;
    lemma_fundamental_div_mod(k - start, length);
    lemma_mod_bound(k - start, length);
    lemma_div_pos_is_pos(k - start, length);
    assert(length * e == e * length) by (nonlinear_arith);
    match field.count {
        None => {
            lemma_basic_div(k - start, length);
            assert(e * length == 0) by (nonlinear_arith)
                requires
                    e == 0,
            ;
            lemma_value_of_bits(after, start, field.length as nat, k);
        },
        Some(count) => {
            assert(e < count) by (nonlinear_arith)
                requires
                    e * length <= k - start,
                    k - start < count * length,
                    length > 0,
            ;
            let element_start = field.element_start(start, e);
            lemma_value_of_bits(after, element_start, field.length as nat, k);
        },
    }
}

/// A value is read as before where no bit of the field changed.
proof fn lemma_read_same(field: FieldView, start: int, a: Seq<u8>, b: Seq<u8>)
    requires
        field.wf(),
        forall|k: int| start <= k < start + field.bit_len() ==> #[trigger] bit(a, k) == bit(b, k),
    ensures
        field.read(a, start) == field.read(b, start),
{
    match field.count {
        None => {
            lemma_bits_same(a, b, start, field.length as nat);
        },
        Some(count) => {
            let ty = scalar_for(field.length);
            let read_a = read_elements(ty, a, start, field.length, count as nat);
            let read_b = read_elements(ty, b, start, field.length, count as nat);
            assert forall|i: int| 0 <= i < count implies read_a[i] == read_b[i] by {
                lemma_element_fits(i, count as int, field.length as int);
                lemma_bits_same(a, b, start + i * field.length, field.length as nat);
                assert(bit(a, start + i * field.length) == bit(b, start + i * field.length));
            }
            assert(read_a =~= read_b);
        },
    }
}

/// A run of bits that holds the low digits of a value reads as those digits.
proof fn lemma_read_scalar_back(data: Seq<u8>, start: int, length: u8, value: Value)
    requires
        1 <= length <= 64,
        is_scalar(value, scalar_for(length)),
        bits(data, start, length as nat) == number(value) % pow2(length as nat),
    ensures
        read_scalar(scalar_for(length), data, start, length) == stored_scalar(length, value),
{
    if length == 1 {
        lemma2_to64();
        assert(bits(data, start, 0) == 0);
        assert(bits(data, start, 1) == if bit(data, start) {
            1nat
        } else {
            0nat
        });
    }
}

/// What was written is read, as far as there are bits for it.
proof fn lemma_read_back(
    field: FieldView,
    start: int,
    before: Seq<u8>,
    after: Seq<u8>,
    value: Value,
)
    requires
        field.wf(),
        has_type(value, field.ty()),
        field.wrote(before, after, start, value),
    ensures
        field.read(after, start) == stored(field, value),
{
    match field.count {
        None => {
            lemma_read_scalar_back(after, start, field.length, value);
        },
        Some(count) => {
            let elements = value->Array_0;
            let read = read_elements(
                scalar_for(field.length),
                after,
                start,
                field.length,
                count as nat,
            );
            let kept = elements.map_values(
                |element: Value| stored_scalar(field.length, element),
            );
            assert forall|i: int| 0 <= i < count implies read[i] == kept[i] by {
                assert(is_scalar(elements[i], scalar_for(field.length)));
                let element_start = field.element_start(start, i);
                lemma_read_scalar_back(after, element_start, field.length, elements[i]);
            }
            assert(read =~= kept);
        },
    }
}

/// What a run of bits reads as is a value of its type, and writing it there again is no change.
proof fn lemma_read_scalar_typed(data: Seq<u8>, start: int, length: u8)
    requires
        1 <= length <= 64,
    ensures
        is_scalar(
            read_scalar(scalar_for(length), data, start, length),
            scalar_for(length),
        ),
        number(read_scalar(scalar_for(length), data, start, length)) == bits(
            data,
            start,
            length as nat,
        ),
        bits(data, start, length as nat) < pow2(length as nat),
        bits(data, start, length as nat) == bits(data, start, length as nat) % pow2(
            length as nat,
        ),
{
    lemma_bits_bound(data, start, length as nat);
    lemma_small_mod(bits(data, start, length as nat), pow2(length as nat));
    let w = width(scalar_for(length));
    if length == 1 {
        assert(bits(data, start, 0) == 0);
        assert(bits(data, start, 1) == if bit(data, start) {
            1nat
        } else {
            0nat
        });
    } else if length < w {
        lemma_pow2_strictly_increases(length as nat, w);
    }
}

/// What is read has the type of the field, and writing it again is no change.
proof fn lemma_read_typed(field: FieldView, start: int, data: Seq<u8>)
    requires
        field.wf(),
    ensures
        has_type(field.read(data, start), field.ty()),
        field.wrote(data, data, start, field.read(data, start)),
{
    match field.count {
        None => {
            lemma_read_scalar_typed(data, start, field.length);
        },
        Some(count) => {
            assert forall|i: int| 0 <= i < count implies is_scalar(
                #[trigger] field.read(data, start)->Array_0[i],
                scalar_for(field.length),
            ) by {
                lemma_read_scalar_typed(data, field.element_start(start, i), field.length);
            }
            assert forall|i: int| 0 <= i < count implies bits(
                data,
                #[trigger] field.element_start(start, i),
                field.length as nat,
            ) == number(field.read(data, start)->Array_0[i]) % pow2(field.length as nat) by {
                lemma_read_scalar_typed(data, field.element_start(start, i), field.length);
            }
        },
    }
}

/// Writing one value over contents that agree outside the field gives one result.
proof fn lemma_wrote_unique(
    field: FieldView,
    start: int,
    before_a: Seq<u8>,
    a: Seq<u8>,
    before_b: Seq<u8>,
    b: Seq<u8>,
    value: Value,
)
    requires
        field.wf(),
        same_outside(before_a, before_b, start, field.bit_len() as int),
        field.wrote(before_a, a, start, value),
        field.wrote(before_b, b, start, value),
    ensures
        a == b,
{
    assert forall|k: int| 0 <= k < 8 * a.len() implies #[trigger] bit(a, k) == bit(b, k) by {
        if start <= k < start + field.bit_len() {
            lemma_written_bit(field, start, before_a, a, value, k);
            lemma_written_bit(field, start, before_b, b, value, k);
        } else {
            assert(bit(a, k) == bit(before_a, k));
            assert(bit(b, k) == bit(before_b, k));
            assert(bit(before_b, k) == bit(before_a, k));
        }
    }
    lemma_same_bits_equal(a, b);
}

/// Whether `data` can be the bytes of the struct that `declaration` declares.
pub open spec fn is_data(data: Seq<u8>, declaration: DeclarationView) -> bool {
    &&& data.len() == byte_length(declaration.fields)
    &&& data.len() <= usize::MAX
}

/// The constructor returns a struct that holds the bytes it takes.
pub proof fn law_new(declaration: DeclarationView, items: Seq<Item>, data: Seq<u8>)
    requires
        is_expansion(items, declaration),
        is_data(data, declaration),
        data.len() > 0,
    ensures
        call_new(new_of(items), data) == Some(data),
{
}

/// The statement that writes one bit depends on the position of the bit alone: whatever length
/// the type of the value is said to have, it is the same.
pub proof fn law_one_bit_setter(first: Stmt, second: Stmt, start: u64)
    requires
        is_set_stmt(first, start as int, 1),
        is_set_stmt(second, start as int, 1),
    ensures
        first == second,
{
}

/// Every field lies inside the bytes of the struct.
pub proof fn law_fields_fit(declaration: DeclarationView, i: int, data: Seq<u8>)
    requires
        is_data(data, declaration),
        0 <= i < declaration.fields.len(),
    ensures
        has_bits(
            data,
            field_start(declaration.fields, i),
            declaration.fields[i].bit_len() as int,
        ),
{
    lemma_next_start(declaration.fields, i);
    lemma_starts_ordered(declaration.fields, i, i + 1);
}

/// The struct has as few bytes as hold its fields.
pub proof fn law_no_spare_byte(declaration: DeclarationView)
    ensures
        total_bits(declaration.fields) <= 8 * byte_length(declaration.fields) < total_bits(
            declaration.fields,
        ) + 8,
{
}

/// Fields lie one after the other without gaps: the first begins at bit 0, each begins where the
/// one before it ends, and the last ends where all bits are taken.
pub proof fn law_fields_adjacent(declaration: DeclarationView, i: int)
    requires
        0 <= i < declaration.fields.len(),
    ensures
        field_start(declaration.fields, 0) == 0,
        field_start(declaration.fields, i) + declaration.fields[i].bit_len() == if i + 1
            < declaration.fields.len() {
            field_start(declaration.fields, i + 1)
        } else {
            total_bits(declaration.fields) as int
        },
{
    let fields = declaration.fields;
    lemma_next_start(fields, i);
    assert(fields.take(fields.len() as int) =~= fields);
}

/// No two fields share a bit.
pub proof fn law_fields_disjoint(declaration: DeclarationView, i: int, j: int, k: int)
    requires
        0 <= i < declaration.fields.len(),
        0 <= j < declaration.fields.len(),
        i != j,
        field_start(declaration.fields, i) <= k < field_start(declaration.fields, i)
            + declaration.fields[i].bit_len(),
    ensures
        !(field_start(declaration.fields, j) <= k < field_start(declaration.fields, j)
            + declaration.fields[j].bit_len()),
{
    let fields = declaration.fields;
    lemma_next_start(fields, i);
    lemma_next_start(fields, j);
    if i < j {
        lemma_starts_ordered(fields, i + 1, j);
    } else {
        lemma_starts_ordered(fields, j + 1, i);
    }
}

/// A getter returns a value of the type of its field, whatever the struct holds.
pub proof fn law_get(declaration: DeclarationView, items: Seq<Item>, i: int, data: Seq<u8>)
    requires
        declaration.wf(),
        is_expansion(items, declaration),
        is_data(data, declaration),
        0 <= i < declaration.fields.len(),
    ensures
        call_getter(getter_at(items, declaration.fields, i), data) matches Some(value)
            && has_type(value, declaration.fields[i].ty()),
{
    law_fields_fit(declaration, i, data);
    lemma_read_typed(declaration.fields[i], field_start(declaration.fields, i), data);
}

/// A setter takes every value of the type of its field, and the struct keeps its length.
pub proof fn law_set(
    declaration: DeclarationView,
    items: Seq<Item>,
    i: int,
    data: Seq<u8>,
    value: Value,
)
    requires
        declaration.wf(),
        is_expansion(items, declaration),
        is_data(data, declaration),
        0 <= i < declaration.fields.len(),
        has_type(value, declaration.fields[i].ty()),
    ensures
        call_setter(setter_at(items, declaration.fields, i), data, value) matches Some(after)
            && is_data(after, declaration) && declaration.fields[i].wrote(
            data,
            after,
            field_start(declaration.fields, i),
            value,
        ),
{
    law_fields_fit(declaration, i, data);
}

/// What a setter writes, the getter of the same field returns, cut to the length of the field.
pub proof fn law_get_after_set(
    declaration: DeclarationView,
    items: Seq<Item>,
    i: int,
    data: Seq<u8>,
    value: Value,
)
    requires
        declaration.wf(),
        is_expansion(items, declaration),
        is_data(data, declaration),
        0 <= i < declaration.fields.len(),
        has_type(value, declaration.fields[i].ty()),
    ensures
        call_setter(setter_at(items, declaration.fields, i), data, value) matches Some(after)
            && call_getter(getter_at(items, declaration.fields, i), after) == Some(
            stored(declaration.fields[i], value),
        ),
{
    let fields = declaration.fields;
    law_set(declaration, items, i, data, value);
    let after = call_setter(setter_at(items, fields, i), data, value).unwrap();
    law_fields_fit(declaration, i, after);
    lemma_read_back(fields[i], field_start(fields, i), data, after, value);
}

/// Whether a field has a bit for every digit of `value`.
pub open spec fn fits(field: FieldView, value: Value) -> bool {
    match value {
        Value::Array(elements) => forall|i: int|
            0 <= i < elements.len() ==> number(#[trigger] elements[i]) < pow2(field.length as nat),
        scalar => number(scalar) < pow2(field.length as nat),
    }
}

/// A value that fits into its field is stored whole.
pub proof fn law_fitting_value_stored(field: FieldView, value: Value)
    requires
        field.wf(),
        has_type(value, field.ty()),
        fits(field, value),
    ensures
        stored(field, value) == value,
{
    let length = field.length as nat;
    match value {
        Value::Array(elements) => {
            let kept = elements.map_values(
                |element: Value| stored_scalar(field.length, element),
            );
            assert forall|i: int| 0 <= i < elements.len() implies kept[i] == elements[i] by {
                assert(is_scalar(elements[i], scalar_for(field.length)));
                lemma_small_mod(number(elements[i]), pow2(length));
            }
            assert(kept =~= elements);
        },
        scalar => {
            lemma_small_mod(number(scalar), pow2(length));
        },
    }
}

/// The getter of a field returns what the setter wrote, where the value fits into the field.
pub proof fn law_get_returns_set(
    declaration: DeclarationView,
    items: Seq<Item>,
    i: int,
    data: Seq<u8>,
    value: Value,
)
    requires
        declaration.wf(),
        is_expansion(items, declaration),
        is_data(data, declaration),
        0 <= i < declaration.fields.len(),
        has_type(value, declaration.fields[i].ty()),
        fits(declaration.fields[i], value),
    ensures
        call_setter(setter_at(items, declaration.fields, i), data, value) matches Some(after)
            && call_getter(getter_at(items, declaration.fields, i), after) == Some(value),
{
    law_get_after_set(declaration, items, i, data, value);
    law_fitting_value_stored(declaration.fields[i], value);
}

/// A getter returns only values that fit into the field.
pub proof fn law_get_fits(declaration: DeclarationView, items: Seq<Item>, i: int, data: Seq<u8>)
    requires
        declaration.wf(),
        is_expansion(items, declaration),
        is_data(data, declaration),
        0 <= i < declaration.fields.len(),
    ensures
        call_getter(getter_at(items, declaration.fields, i), data) matches Some(value) && fits(
            declaration.fields[i],
            value,
        ),
{
    law_fields_fit(declaration, i, data);
    let field = declaration.fields[i];
    assert(field.wf());
    let start = field_start(declaration.fields, i);
    let value = field.read(data, start);
    match field.count {
        None => {
            lemma_read_scalar_typed(data, start, field.length);
        },
        Some(count) => {
            assert forall|e: int| 0 <= e < count implies number(#[trigger] value->Array_0[e])
                < pow2(field.length as nat) by {
                lemma_read_scalar_typed(data, field.element_start(start, e), field.length);
            }
        },
    }
}

/// A setter leaves the values of all other fields as they are.
pub proof fn law_set_keeps_others(
    declaration: DeclarationView,
    items: Seq<Item>,
    i: int,
    j: int,
    data: Seq<u8>,
    value: Value,
)
    requires
        declaration.wf(),
        is_expansion(items, declaration),
        is_data(data, declaration),
        0 <= i < declaration.fields.len(),
        0 <= j < declaration.fields.len(),
        i != j,
        has_type(value, declaration.fields[i].ty()),
    ensures
        call_setter(setter_at(items, declaration.fields, i), data, value) matches Some(after)
            && call_getter(getter_at(items, declaration.fields, j), after) == call_getter(
            getter_at(items, declaration.fields, j),
            data,
        ),
{
    let fields = declaration.fields;
    law_set(declaration, items, i, data, value);
    let after = call_setter(setter_at(items, fields, i), data, value).unwrap();
    law_fields_fit(declaration, j, data);
    law_fields_fit(declaration, j, after);
    let start = field_start(fields, j);
    assert forall|k: int| start <= k < start + fields[j].bit_len() implies #[trigger] bit(after, k)
        == bit(data, k) by {
        law_fields_disjoint(declaration, j, i, k);
    }
    lemma_read_same(fields[j], start, after, data);
}

/// A setter leaves the bits behind the last field as they are.
pub proof fn law_set_keeps_padding(
    declaration: DeclarationView,
    items: Seq<Item>,
    i: int,
    data: Seq<u8>,
    value: Value,
    k: int,
)
    requires
        declaration.wf(),
        is_expansion(items, declaration),
        is_data(data, declaration),
        0 <= i < declaration.fields.len(),
        has_type(value, declaration.fields[i].ty()),
        total_bits(declaration.fields) <= k < 8 * data.len(),
    ensures
        call_setter(setter_at(items, declaration.fields, i), data, value) matches Some(after)
            && bit(after, k) == bit(data, k),
{
    let fields = declaration.fields;
    law_set(declaration, items, i, data, value);
    lemma_next_start(fields, i);
    lemma_starts_ordered(fields, i + 1, fields.len() as int);
}

/// Setting a field to the value that its getter returns changes nothing.
pub proof fn law_set_of_get(
    declaration: DeclarationView,
    items: Seq<Item>,
    i: int,
    data: Seq<u8>,
)
    requires
        declaration.wf(),
        is_expansion(items, declaration),
        is_data(data, declaration),
        0 <= i < declaration.fields.len(),
    ensures
        call_getter(getter_at(items, declaration.fields, i), data) matches Some(value)
            && call_setter(setter_at(items, declaration.fields, i), data, value) == Some(data),
{
    let fields = declaration.fields;
    let start = field_start(fields, i);
    let value = fields[i].read(data, start);
    law_fields_fit(declaration, i, data);
    lemma_read_typed(fields[i], start, data);
    law_set(declaration, items, i, data, value);
    let after = call_setter(setter_at(items, fields, i), data, value).unwrap();
    lemma_wrote_unique(fields[i], start, data, after, data, data, value);
}

/// Of two values set one after the other, only the second counts.
pub proof fn law_set_after_set(
    declaration: DeclarationView,
    items: Seq<Item>,
    i: int,
    data: Seq<u8>,
    first: Value,
    second: Value,
)
    requires
        declaration.wf(),
        is_expansion(items, declaration),
        is_data(data, declaration),
        0 <= i < declaration.fields.len(),
        has_type(first, declaration.fields[i].ty()),
        has_type(second, declaration.fields[i].ty()),
    ensures
        call_setter(setter_at(items, declaration.fields, i), data, first) matches Some(between)
            && call_setter(setter_at(items, declaration.fields, i), between, second)
            == call_setter(setter_at(items, declaration.fields, i), data, second),
{
    let fields = declaration.fields;
    let start = field_start(fields, i);
    let setter = setter_at(items, fields, i);
    law_set(declaration, items, i, data, first);
    law_set(declaration, items, i, data, second);
    let between = call_setter(setter, data, first).unwrap();
    let direct = call_setter(setter, data, second).unwrap();
    law_set(declaration, items, i, between, second);
    let after = call_setter(setter, between, second).unwrap();
    lemma_wrote_unique(fields[i], start, data, direct, between, after, second);
}

/// Setters of different fields can be called in either order.
pub proof fn law_setters_commute(
    declaration: DeclarationView,
    items: Seq<Item>,
    i: int,
    j: int,
    data: Seq<u8>,
    value_i: Value,
    value_j: Value,
)
    requires
        declaration.wf(),
        is_expansion(items, declaration),
        is_data(data, declaration),
        0 <= i < declaration.fields.len(),
        0 <= j < declaration.fields.len(),
        i != j,
        has_type(value_i, declaration.fields[i].ty()),
        has_type(value_j, declaration.fields[j].ty()),
    ensures
        ({
            let setter_i = setter_at(items, declaration.fields, i);
            let setter_j = setter_at(items, declaration.fields, j);
            &&& call_setter(setter_i, data, value_i) matches Some(after_i)
            &&& call_setter(setter_j, data, value_j) matches Some(after_j)
            &&& call_setter(setter_j, after_i, value_j) is Some
            &&& call_setter(setter_j, after_i, value_j) == call_setter(setter_i, after_j, value_i)
        }),
{
    let fields = declaration.fields;
    let setter_i = setter_at(items, fields, i);
    let setter_j = setter_at(items, fields, j);
    let start_i = field_start(fields, i);
    let start_j = field_start(fields, j);
    law_set(declaration, items, i, data, value_i);
    law_set(declaration, items, j, data, value_j);
    let after_i = call_setter(setter_i, data, value_i).unwrap();
    let after_j = call_setter(setter_j, data, value_j).unwrap();
    law_set(declaration, items, j, after_i, value_j);
    law_set(declaration, items, i, after_j, value_i);
    let a = call_setter(setter_j, after_i, value_j).unwrap();
    let b = call_setter(setter_i, after_j, value_i).unwrap();
    assert forall|k: int| 0 <= k < 8 * a.len() implies #[trigger] bit(a, k) == bit(b, k) by {
        let in_i = start_i <= k < start_i + fields[i].bit_len();
        let in_j = start_j <= k < start_j + fields[j].bit_len();
        if in_i {
            law_fields_disjoint(declaration, i, j, k);
            lemma_written_bit(fields[i], start_i, data, after_i, value_i, k);
            lemma_written_bit(fields[i], start_i, after_j, b, value_i, k);
            assert(bit(a, k) == bit(after_i, k));
        } else if in_j {
            lemma_written_bit(fields[j], start_j, data, after_j, value_j, k);
            lemma_written_bit(fields[j], start_j, after_i, a, value_j, k);
            assert(bit(b, k) == bit(after_j, k));
        } else {
            assert(bit(a, k) == bit(after_i, k));
            assert(bit(b, k) == bit(after_j, k));
            assert(bit(after_i, k) == bit(data, k));
            assert(bit(after_j, k) == bit(data, k));
        }
    }
    lemma_same_bits_equal(a, b);
}

} // verus!

//! Fields of a declaration and the accessors generated for them.

use vstd::arithmetic::power2::*;
use vstd::prelude::*;

use crate::access::{
    flag_stmt, is_get_expr, is_set_stmt, join_expr, joined_expr, lemma_flag_stmt, lemma_join,
    lemma_merge_stmt, lemma_piece, lemma_test, lemma_writes_join, merge_stmt, merge_stmts,
    piece_expr, piece_length, test_expr, writes,
};
use crate::ast::{Attribute, BinOp, Expr, ImplItem, Item, Keyword, Method, Scalar, Stmt, Ty};
use crate::bits::{
    bit, bits, byte_mask, has_bits, lemma_bits_of_value, lemma_bits_same, same_outside,
};
use crate::items::{impl_items_of, set_attrs_method};
use crate::layout::{
    holds_bits, is_addressable, is_getter, is_getter_body, is_setter, is_setter_body,
    is_single_impl, read_elements, read_scalar, takes, wrote_scalar, FieldView,
};
use crate::semantics::{
    eval, eval_all, has_type, is_scalar, lemma_eval_all_push, lemma_run_all_push, number, run,
    run_all, width, Value,
};
use crate::types::{make_array_ty, make_maybe_pub, scalar_for, size_to_ty};

verus! {

/// An element of an array lies inside the array.
pub proof fn lemma_element_fits(i: int, count: int, length: int)
    requires
        0 <= i < count,
        0 <= length,
    ensures
        0 <= i * length,
        i * length + length <= count * length,
        (i + 1) * length == i * length + length,
{
    assert(0 <= i * length) by (nonlinear_arith)
        requires
            0 <= i,
            0 <= length,
    ;
    assert((i + 1) * length == i * length + length) by (nonlinear_arith);
    assert((i + 1) * length <= count * length) by (nonlinear_arith)
        requires
            i + 1 <= count,
            0 <= length,
    ;
}

/// Element `i` of an array that begins at bit `start` of `data` holds the low digits of its value.
spec fn wrote_element(
    data: Seq<u8>,
    start: int,
    length: u8,
    elements: Seq<Value>,
    i: int,
) -> bool {
    bits(data, start + i * length, length as nat) == number(elements[i]) % pow2(length as nat)
}

/// `after` is `before` with the first `n` elements of an array written, and nothing else changed.
spec fn wrote_elements(
    before: Seq<u8>,
    after: Seq<u8>,
    start: int,
    length: u8,
    elements: Seq<Value>,
    n: int,
) -> bool {
    &&& same_outside(before, after, start, n * length)
    &&& forall|i: int|
        0 <= i < n ==> #[trigger] wrote_element(after, start, length, elements, i)
}

/// Writing one more element of an array.
proof fn lemma_wrote_next(
    before: Seq<u8>,
    between: Seq<u8>,
    after: Seq<u8>,
    start: int,
    length: u8,
    elements: Seq<Value>,
    n: int,
)
    requires
        0 <= start,
        0 <= n,
        start + (n + 1) * length <= 8 * before.len(),
        wrote_elements(before, between, start, length, elements, n),
        wrote_scalar(between, after, start + n * length, length, elements[n]),
    ensures
        wrote_elements(before, after, start, length, elements, n + 1),
{
    lemma_element_fits(n, n + 1, length as int);
    assert forall|k: int|
        0 <= k < 8 * before.len() && !(start <= k < start + (n + 1) * length) implies #[trigger] bit(
        after,
        k,
    ) == bit(before, k) by {
        assert(bit(between, k) == bit(before, k));
    }
    assert forall|i: int| 0 <= i < n + 1 implies #[trigger] wrote_element(
        after,
        start,
        length,
        elements,
        i,
    ) by {
        if i < n {
            lemma_element_fits(i, n, length as int);
            assert(wrote_element(between, start, length, elements, i));
            lemma_bits_same(between, after, start + i * length, length as nat);
        }
    }
}

/// Returns an `impl` block for `struct_ident` that holds one inlined method.
fn single_impl(
    struct_ident: &String,
    visibility: Option<Keyword>,
    name: String,
    method: Method,
) -> (item: Item)
    ensures
        is_single_impl(item, struct_ident@),
        impl_items_of(item)[0].visibility == visibility,
        impl_items_of(item)[0].name == name,
        impl_items_of(item)[0].method == method,
        impl_items_of(item)[0].attrs@ == seq![Attribute::Inline],
{
    let attrs: Vec<Attribute> = vec![Attribute::Inline];
    let impl_items: Vec<ImplItem> = vec![ImplItem { attrs, visibility, name, method }];
    Item::Impl { name: struct_ident.clone(), impl_items }
}

/// A field of a declaration.
#[derive(Debug, PartialEq, Eq)]
pub enum Field {
    /// `name: [element_length; count]`
    Array {
        name: String,
        count: usize,
        element_length: u8,
        is_pub: bool,
        attrs: Vec<Attribute>,
    },
    /// `name: length`
    Scalar { name: String, length: u8, is_pub: bool, attrs: Vec<Attribute> },
}

impl View for Field {
    type V = FieldView;

    open spec fn view(&self) -> FieldView {
        match self {
            Field::Array { name, count, element_length, is_pub, attrs } => FieldView {
                name: name@,
                count: Some(*count),
                length: *element_length,
                is_pub: *is_pub,
                attrs: attrs@,
            },
            Field::Scalar { name, length, is_pub, attrs } => FieldView {
                name: name@,
                count: None,
                length: *length,
                is_pub: *is_pub,
                attrs: attrs@,
            },
        }
    }
}

impl Field {
    /// Returns the number of bits that the field takes.
    pub fn bit_len(&self) -> (len: u64)
        requires
            self@.bit_len() <= u64::MAX,
        ensures
            len == self@.bit_len(),
    {
        match self {
            Field::Array { count, element_length, .. } => (*count as u64) * (*element_length
                as u64),
            Field::Scalar { length, .. } => *length as u64,
        }
    }

    /// Returns the expression that reads the `length` bits at bit `start` as a value of type
    /// `value_type`, where that type holds so many bits.
    pub fn gen_single_value_get_expr(value_type: &Scalar, start: u64, length: u8) -> (expr: Expr)
        requires
            1 <= length,
            length == 1 || start + length <= u64::MAX,
        ensures
            is_get_expr(expr, *value_type, start as int, length),
            holds_bits(*value_type, length) ==> forall|data: Seq<u8>, value: Value|
                has_bits(data, start as int, length as int) ==> #[trigger] eval(expr, data, value)
                    == Some(read_scalar(*value_type, data, start as int, length)),
    {
        if length == 1 {
            let byte_shift: u64 = 7 - start % 8;
            let expr = Expr::Binary(
                BinOp::Ne,
                Box::new(
                    Expr::Binary(
                        BinOp::BitAnd,
                        Box::new(
                            Expr::Byte(
                                Box::new(
                                    Expr::Cast(
                                        Box::new(
                                            Expr::Binary(
                                                BinOp::Div,
                                                Box::new(Expr::Lit(start, Scalar::U64)),
                                                Box::new(Expr::Lit(8, Scalar::U64)),
                                            ),
                                        ),
                                        Scalar::Usize,
                                    ),
                                ),
                            ),
                        ),
                        Box::new(
                            Expr::Binary(
                                BinOp::Shl,
                                Box::new(Expr::Lit(1, Scalar::U8)),
                                Box::new(Expr::Lit(byte_shift, Scalar::Usize)),
                            ),
                        ),
                    ),
                ),
                Box::new(Expr::Lit(0, Scalar::U8)),
            );
            proof {
                assert(expr == test_expr(start, byte_shift));
                assert forall|data: Seq<u8>, value: Value|
                    has_bits(data, start as int, 1) implies #[trigger] eval(expr, data, value)
                    == Some(Value::Bool(bit(data, start as int))) by {
                    lemma_test(start, byte_shift, data, value);
                }
            }
            expr
        } else {
            let mut value_expr: Option<Expr> = None;
            let mut bits_to_get: u8 = length;
            let mut bit_offset: u64 = start;
            while bits_to_get > 0
                invariant
                    1 < length,
                    start + length <= u64::MAX,
                    bits_to_get <= length,
                    bit_offset == start + (length - bits_to_get),
                    value_expr is None <==> bits_to_get == length,
                    joined_expr(*value_type, value_expr, bit_offset as int, bits_to_get as int)
                        == joined_expr(*value_type, None, start as int, length as int),
                    holds_bits(*value_type, length) ==> (value_expr matches Some(expr) ==> forall|
                        data: Seq<u8>,
                        value: Value,
                    |
                        has_bits(data, start as int, length as int) ==> #[trigger] eval(
                            expr,
                            data,
                            value,
                        ) == Some(
                            Value::Int(
                                *value_type,
                                bits(data, start as int, (length - bits_to_get) as nat),
                            ),
                        )),
                decreases bits_to_get,
            {
                let in_byte: u8 = 8 - (bit_offset % 8) as u8;
                let can_get: u8 = if bits_to_get < in_byte {
                    bits_to_get
                } else {
                    in_byte
                };
                let index: usize = (bit_offset / 8) as usize;
                let mask: u8 = 0xFFu8 >> (8 - can_get);
                let byte_shift: usize = (8 - can_get - (bit_offset % 8) as u8) as usize;
                let bits_expr = Expr::Cast(
                    Box::new(
                        Expr::Binary(
                            BinOp::BitAnd,
                            Box::new(
                                Expr::Binary(
                                    BinOp::Shr,
                                    Box::new(
                                        Expr::Byte(
                                            Box::new(Expr::Lit(index as u64, Scalar::Usize)),
                                        ),
                                    ),
                                    Box::new(Expr::Lit(byte_shift as u64, Scalar::Usize)),
                                ),
                            ),
                            Box::new(Expr::Lit(mask as u64, Scalar::U8)),
                        ),
                    ),
                    *value_type,
                );
                let ghost done = (length - bits_to_get) as nat;
                proof {
                    assert(piece_length(bit_offset as int, bits_to_get as int) == can_get);
                    assert(bits_expr == piece_expr(
                        index as u64,
                        byte_shift as u64,
                        mask as u64,
                        *value_type,
                    ));
                    assert forall|data: Seq<u8>, value: Value|
                        holds_bits(*value_type, length) && has_bits(
                            data,
                            start as int,
                            length as int,
                        ) implies #[trigger] eval(
                        bits_expr,
                        data,
                        value,
                    ) == Some(
                        Value::Int(*value_type, bits(data, bit_offset as int, can_get as nat)),
                    ) by {
                        lemma_piece(
                            *value_type,
                            bit_offset as int,
                            can_get,
                            index as u64,
                            byte_shift as u64,
                            mask as u64,
                            data,
                            value,
                        );
                    }
                }
                value_expr = match value_expr {
                    Some(expr) => {
                        let shifted = Expr::Binary(
                            BinOp::Shl,
                            Box::new(expr),
                            Box::new(Expr::Lit(can_get as u64, Scalar::Usize)),
                        );
                        let joined = Expr::Binary(
                            BinOp::BitOr,
                            Box::new(shifted),
                            Box::new(bits_expr),
                        );
                        proof {
                            assert(joined == join_expr(expr, can_get as u64, bits_expr));
                            assert forall|data: Seq<u8>, value: Value|
                                holds_bits(*value_type, length) && has_bits(
                                    data,
                                    start as int,
                                    length as int,
                                ) implies #[trigger] eval(
                                joined,
                                data,
                                value,
                            ) == Some(
                                Value::Int(
                                    *value_type,
                                    bits(data, start as int, done + can_get as nat),
                                ),
                            ) by {
                                lemma_join(
                                    *value_type,
                                    start as int,
                                    done,
                                    expr,
                                    can_get,
                                    bits_expr,
                                    data,
                                    value,
                                );
                            }
                        }
                        Some(joined)
                    },
                    None => Some(bits_expr),
                };
                bits_to_get = bits_to_get - can_get;
                bit_offset = bit_offset + can_get as u64;
            }
            value_expr.unwrap()
        }
    }

    /// Returns the statement that writes `value`, of a type of `type_length` bits, to the
    /// `length` bits at bit `start`.
    pub fn gen_single_value_set_stmt(type_length: u8, start: u64, length: u8) -> (stmt: Stmt)
        requires
            length == 1 || start + length <= u64::MAX,
            length != 1 ==> length <= type_length && (type_length == 8 || type_length == 16
                || type_length == 32 || type_length == 64),
        ensures
            is_set_stmt(stmt, start as int, length),
            forall|data: Seq<u8>, value: Value|
                has_bits(data, start as int, length as int) && takes(type_length, length, value)
                    ==> (#[trigger] run(stmt, data, value) matches Some(after) && wrote_scalar(
                    data,
                    after,
                    start as int,
                    length,
                    value,
                )),
    {
        if length == 1 {
            let mask: u8 = 0x1u8 << ((7 - start % 8) as u8);
            let index: usize = (start / 8) as usize;
            let stmt = Stmt::If(
                Expr::Value,
                Box::new(
                    Stmt::AssignOp(
                        BinOp::BitOr,
                        Expr::Lit(index as u64, Scalar::Usize),
                        Expr::Lit(mask as u64, Scalar::U8),
                    ),
                ),
                Box::new(
                    Stmt::AssignOp(
                        BinOp::BitAnd,
                        Expr::Lit(index as u64, Scalar::Usize),
                        Expr::Not(Box::new(Expr::Lit(mask as u64, Scalar::U8))),
                    ),
                ),
            );
            proof {
                assert(stmt == flag_stmt(index as u64, mask as u64));
                assert forall|data: Seq<u8>, value: Value|
                    has_bits(data, start as int, 1) && value is Bool implies (#[trigger] run(
                    stmt,
                    data,
                    value,
                ) matches Some(after) && wrote_scalar(
                    data,
                    after,
                    start as int,
                    length,
                    value,
                )) by {
                    lemma_flag_stmt(start as int, index as u64, mask, data, value->Bool_0);
                    let after = run(stmt, data, value).unwrap();
                    lemma_bits_of_value(after, start as int, 1, number(value));
                }
            }
            stmt
        } else {
            let mut stmts: Vec<Stmt> = Vec::new();
            let mut bits_to_set: u8 = length;
            let mut bit_offset: u64 = start;
            let mut value_shift: isize = (start % 8) as isize - (type_length - length) as isize
                + 8 * (type_length / 8 - 1) as isize;
            let ghost end = start + length;
            while bits_to_set > 0
                invariant
                    length <= type_length,
                    type_length == 8 || type_length == 16 || type_length == 32 || type_length
                        == 64,
                    length != 1,
                    end == start + length,
                    end <= u64::MAX,
                    bits_to_set <= length,
                    bit_offset == start + (length - bits_to_set),
                    bits_to_set > 0 ==> value_shift == end - 8 * (bit_offset / 8 + 1),
                    -16 <= value_shift < 64,
                    stmts@ + merge_stmts(end, bit_offset as int, bits_to_set as int)
                        == merge_stmts(end, start as int, length as int),
                    forall|data: Seq<u8>, value: Value|
                        has_bits(data, start as int, length as int) && takes(
                            type_length,
                            length,
                            value,
                        ) ==> (#[trigger] run_all(stmts@, data, value) matches Some(after)
                            && writes(
                            data,
                            after,
                            start as int,
                            length - bits_to_set,
                            end,
                            number(value),
                        )),
                decreases bits_to_set,
            {
                let in_byte: u8 = 8 - (bit_offset % 8) as u8;
                let can_set: u8 = if bits_to_set < in_byte {
                    bits_to_set
                } else {
                    in_byte
                };
                let index: usize = (bit_offset / 8) as usize;
                // only bits set to 1 in the mask are modified
                let mask: u8 = (0xFFu8 >> (8 - can_set)) << (8 - can_set - (bit_offset % 8) as u8);
                // a positive value of value_shift shifts to the right, a negative one to the left
                let op = if value_shift > 0 {
                    BinOp::Shr
                } else {
                    BinOp::Shl
                };
                let shift: usize = if value_shift > 0 {
                    value_shift as usize
                } else {
                    (-value_shift) as usize
                };
                let stmt = Stmt::Assign(
                    Expr::Lit(index as u64, Scalar::Usize),
                    Expr::Binary(
                        BinOp::BitOr,
                        Box::new(
                            Expr::Binary(
                                BinOp::BitAnd,
                                Box::new(
                                    Expr::Byte(Box::new(Expr::Lit(index as u64, Scalar::Usize))),
                                ),
                                Box::new(
                                    Expr::Not(Box::new(Expr::Lit(mask as u64, Scalar::U8))),
                                ),
                            ),
                        ),
                        Box::new(
                            Expr::Binary(
                                BinOp::BitAnd,
                                Box::new(
                                    Expr::Cast(
                                        Box::new(
                                            Expr::Binary(
                                                op,
                                                Box::new(Expr::Value),
                                                Box::new(
                                                    Expr::Lit(shift as u64, Scalar::Usize),
                                                ),
                                            ),
                                        ),
                                        Scalar::U8,
                                    ),
                                ),
                                Box::new(Expr::Lit(mask as u64, Scalar::U8)),
                            ),
                        ),
                    ),
                );
                proof {
                    let done = length - bits_to_set;
                    assert(piece_length(bit_offset as int, bits_to_set as int) == can_set);
                    assert(mask == byte_mask((bit_offset % 8) as u8, can_set));
                    assert(stmt == merge_stmt(index as u64, mask as u64, op, shift as u64));
                    assert forall|data: Seq<u8>, value: Value|
                        has_bits(data, start as int, length as int) && takes(
                            type_length,
                            length,
                            value,
                        ) implies (#[trigger] run_all(
                        stmts@.push(stmt),
                        data,
                        value,
                    ) matches Some(after) && writes(
                        data,
                        after,
                        start as int,
                        done + can_set,
                        end,
                        number(value),
                    )) by {
                        let between = run_all(stmts@, data, value).unwrap();
                        let ty = value->Int_0;
                        lemma_run_all_push(stmts@, stmt, data, value);
                        lemma_merge_stmt(
                            ty,
                            bit_offset as int,
                            can_set,
                            end,
                            index as u64,
                            op,
                            shift as u64,
                            between,
                            number(value),
                        );
                        let after = run(stmt, between, value).unwrap();
                        lemma_writes_join(
                            data,
                            between,
                            after,
                            start as int,
                            done,
                            can_set as int,
                            end,
                            number(value),
                        );
                    }
                }
                proof {
                    let rest = merge_stmts(
                        end,
                        bit_offset + can_set,
                        bits_to_set - can_set,
                    );
                    assert(merge_stmts(end, bit_offset as int, bits_to_set as int) == seq![stmt]
                        + rest);
                    assert(stmts@.push(stmt) + rest =~= stmts@ + (seq![stmt] + rest));
                }
                stmts.push(stmt);
                bits_to_set = bits_to_set - can_set;
                bit_offset = bit_offset + can_set as u64;
                value_shift = value_shift - 8;
            }
            proof {
                assert forall|data: Seq<u8>, value: Value|
                    has_bits(data, start as int, length as int) && takes(
                        type_length,
                        length,
                        value,
                    ) implies (#[trigger] run(Stmt::Block(stmts), data, value) matches Some(after)
                    && wrote_scalar(data, after, start as int, length, value)) by {
                    let after = run_all(stmts@, data, value).unwrap();
                    lemma_bits_of_value(after, start as int, length as nat, number(value));
                }
            }
            Stmt::Block(stmts)
        }
    }

    /// Returns the expression that reads the `count` elements of `element_length` bits that begin
    /// at bit `start` as an array of elements of type `element_type`.
    fn gen_array_get_expr(
        element_type: &Scalar,
        start: u64,
        count: usize,
        element_length: u8,
    ) -> (expr: Expr)
        requires
            1 <= element_length <= 64,
            *element_type == scalar_for(element_length),
            is_addressable(start as int, count * element_length, element_length),
        ensures
            forall|field: FieldView|
                field.count == Some(count) && field.length == element_length
                    ==> #[trigger] is_getter_body(expr, field, start as int),
            forall|field: FieldView, data: Seq<u8>, value: Value|
                field.count == Some(count) && field.length == element_length && has_bits(
                    data,
                    start as int,
                    count * element_length,
                ) ==> #[trigger] eval(expr, data, value) == Some(
                    #[trigger] field.read(data, start as int),
                ),
    {
        let mut element_getter_exprs: Vec<Expr> = Vec::new();
        for i in 0..count
            invariant
                1 <= element_length <= 64,
                *element_type == scalar_for(element_length),
                is_addressable(start as int, count * element_length, element_length),
                element_getter_exprs.len() == i,
                forall|j: int|
                    0 <= j < i ==> is_get_expr(
                        #[trigger] element_getter_exprs[j],
                        *element_type,
                        start + j * element_length,
                        element_length,
                    ),
                forall|data: Seq<u8>, value: Value|
                    has_bits(data, start as int, count * element_length) ==> #[trigger] eval_all(
                        element_getter_exprs@,
                        data,
                        value,
                    ) == Some(
                        read_elements(
                            *element_type,
                            data,
                            start as int,
                            element_length,
                            i as nat,
                        ),
                    ),
        {
            proof {
                lemma_element_fits(i as int, count as int, element_length as int);
            }
            let element_start: u64 = start + (i as u64) * (element_length as u64);
            let expr = Field::gen_single_value_get_expr(
                element_type,
                element_start,
                element_length,
            );
            proof {
                let exprs = element_getter_exprs@;
                assert forall|data: Seq<u8>, value: Value|
                    has_bits(data, start as int, count * element_length) implies #[trigger] eval_all(
                    exprs.push(expr),
                    data,
                    value,
                ) == Some(
                    read_elements(
                        *element_type,
                        data,
                        start as int,
                        element_length,
                        (i + 1) as nat,
                    ),
                ) by {
                    lemma_eval_all_push(exprs, expr, data, value);
                    assert(has_bits(data, element_start as int, element_length as int));
                    let read = read_elements(
                        *element_type,
                        data,
                        start as int,
                        element_length,
                        i as nat,
                    );
                    let next = read_scalar(
                        *element_type,
                        data,
                        element_start as int,
                        element_length,
                    );
                    assert(eval_all(exprs, data, value) == Some(read));
                    assert(eval(expr, data, value) == Some(next));
                    assert(read.push(next) =~= read_elements(
                        *element_type,
                        data,
                        start as int,
                        element_length,
                        (i + 1) as nat,
                    ));
                }
            }
            element_getter_exprs.push(expr);
        }
        let expr = Expr::Array(element_getter_exprs);
        proof {
            assert forall|field: FieldView, data: Seq<u8>, value: Value|
                field.count == Some(count) && field.length == element_length && has_bits(
                    data,
                    start as int,
                    count * element_length,
                ) implies #[trigger] eval(expr, data, value) == Some(
                #[trigger] field.read(data, start as int),
            ) by {
                assert(eval_all(element_getter_exprs@, data, value) is Some);
            }
        }
        expr
    }

    /// Returns the statement that writes the elements of the array `value`, of a type of
    /// `type_length` bits each, to the `count` runs of `element_length` bits that begin at bit
    /// `start`.
    fn gen_array_set_stmt(
        type_length: u8,
        start: u64,
        count: usize,
        element_length: u8,
    ) -> (stmt: Stmt)
        requires
            1 <= element_length <= 64,
            type_length == width(scalar_for(element_length)),
            is_addressable(start as int, count * element_length, element_length),
        ensures
            forall|field: FieldView|
                field.count == Some(count) && field.length == element_length
                    ==> #[trigger] is_setter_body(stmt, field, start as int),
            forall|field: FieldView, data: Seq<u8>, value: Value|
                field.count == Some(count) && field.length == element_length && has_bits(
                    data,
                    start as int,
                    count * element_length,
                ) && #[trigger] has_type(value, field.ty()) ==> (#[trigger] run(
                    stmt,
                    data,
                    value,
                ) matches Some(after) && field.wrote(data, after, start as int, value)),
    {
        let ty = Ghost(Ty::Array(scalar_for(element_length), count));
        let mut element_setter_stmts: Vec<Stmt> = Vec::new();
        for i in 0..count
            invariant
                1 <= element_length <= 64,
                type_length == width(scalar_for(element_length)),
                is_addressable(start as int, count * element_length, element_length),
                ty@ == Ty::Array(scalar_for(element_length), count),
                element_setter_stmts.len() == i,
                forall|j: int|
                    0 <= j < i ==> {
                        &&& #[trigger] element_setter_stmts[j] matches Stmt::WithElement(
                            number,
                            body,
                        )
                        &&& number == j
                        &&& is_set_stmt(*body, start + j * element_length, element_length)
                    },
                forall|data: Seq<u8>, value: Value|
                    has_bits(data, start as int, count * element_length) && has_type(value, ty@)
                        ==> (#[trigger] run_all(
                        element_setter_stmts@,
                        data,
                        value,
                    ) matches Some(after) && wrote_elements(
                        data,
                        after,
                        start as int,
                        element_length,
                        value->Array_0,
                        i as int,
                    )),
        {
            proof {
                lemma_element_fits(i as int, count as int, element_length as int);
            }
            let element_start: u64 = start + (i as u64) * (element_length as u64);
            let stmt = Field::gen_single_value_set_stmt(
                type_length,
                element_start,
                element_length,
            );
            let stmt = Stmt::WithElement(i, Box::new(stmt));
            proof {
                let stmts = element_setter_stmts@;
                assert forall|data: Seq<u8>, value: Value|
                    has_bits(data, start as int, count * element_length) && has_type(
                        value,
                        ty@,
                    ) implies (#[trigger] run_all(
                    stmts.push(stmt),
                    data,
                    value,
                ) matches Some(after) && wrote_elements(
                    data,
                    after,
                    start as int,
                    element_length,
                    value->Array_0,
                    i + 1,
                )) by {
                    lemma_run_all_push(stmts, stmt, data, value);
                    let between = run_all(stmts, data, value).unwrap();
                    let elements = value->Array_0;
                    let element = elements[i as int];
                    assert(has_bits(between, element_start as int, element_length as int));
                    assert(is_scalar(element, scalar_for(element_length)));
                    assert(takes(type_length, element_length, element));
                    assert(run(stmt, between, value) == run(
                        *stmt->WithElement_1,
                        between,
                        element,
                    ));
                    let after = run(stmt, between, value).unwrap();
                    lemma_wrote_next(
                        data,
                        between,
                        after,
                        start as int,
                        element_length,
                        elements,
                        i as int,
                    );
                }
            }
            element_setter_stmts.push(stmt);
        }
        let stmt = Stmt::Block(element_setter_stmts);
        proof {
            assert forall|field: FieldView, data: Seq<u8>, value: Value|
                field.count == Some(count) && field.length == element_length && has_bits(
                    data,
                    start as int,
                    count * element_length,
                ) && #[trigger] has_type(value, field.ty()) implies (#[trigger] run(
                stmt,
                data,
                value,
            ) matches Some(after) && field.wrote(data, after, start as int, value)) by {
                assert(field.ty() == ty@);
                let after = run_all(element_setter_stmts@, data, value).unwrap();
                assert(run(stmt, data, value) == Some(after));
                assert forall|i: int| 0 <= i < count implies bits(
                    after,
                    #[trigger] field.element_start(start as int, i),
                    element_length as nat,
                ) == number(value->Array_0[i]) % pow2(element_length as nat) by {
                    assert(wrote_element(
                        after,
                        start as int,
                        element_length,
                        value->Array_0,
                        i,
                    ));
                }
            }
        }
        stmt
    }

    /// Returns `impl` blocks for the getter and the setter of the field, where the field begins
    /// at bit `start` of the struct `struct_ident`.
    pub fn to_methods(&self, struct_ident: &String, start: u64) -> (methods: Vec<Item>)
        requires
            self@.wf(),
            is_addressable(start as int, self@.bit_len() as int, self@.length),
        ensures
            methods.len() == 2,
            is_single_impl(methods[0], struct_ident@),
            is_single_impl(methods[1], struct_ident@),
            is_getter(impl_items_of(methods[0])[0], self@, start as int),
            is_setter(impl_items_of(methods[1])[0], self@, start as int),
    {
        let mut methods: Vec<Item> = Vec::new();
        match self {
            Field::Array { name, count, element_length, is_pub, attrs } => {
                let maybe_pub = make_maybe_pub(*is_pub);
                let (element_type, value_type_length) = size_to_ty(*element_length).unwrap();
                let value_type = make_array_ty(&element_type, *count);
                let getter_ident = "get_".to_owned().concat(name.as_str());

                let getter_expr = Field::gen_array_get_expr(
                    &element_type,
                    start,
                    *count,
                    *element_length,
                );
                let getter = single_impl(
                    struct_ident,
                    maybe_pub,
                    getter_ident,
                    Method::Getter(value_type, getter_expr),
                );
                let getter = set_attrs_method(getter, attrs);
                methods.push(getter);

                let setter_ident = "set_".to_owned().concat(name.as_str());
                let setter_stmt = Field::gen_array_set_stmt(
                    value_type_length,
                    start,
                    *count,
                    *element_length,
                );
                let setter = single_impl(
                    struct_ident,
                    maybe_pub,
                    setter_ident,
                    Method::Setter(value_type, setter_stmt),
                );
                let setter = set_attrs_method(setter, attrs);
                methods.push(setter);
            },
            Field::Scalar { name, length, is_pub, attrs } => {
                let maybe_pub = make_maybe_pub(*is_pub);
                let (value_type, value_type_length) = size_to_ty(*length).unwrap();
                let getter_ident = "get_".to_owned().concat(name.as_str());
                let getter_expr = Field::gen_single_value_get_expr(&value_type, start, *length);
                let getter = single_impl(
                    struct_ident,
                    maybe_pub,
                    getter_ident,
                    Method::Getter(Ty::Scalar(value_type), getter_expr),
                );
                let getter = set_attrs_method(getter, attrs);
                methods.push(getter);

                let setter_ident = "set_".to_owned().concat(name.as_str());
                let setter_stmt = Field::gen_single_value_set_stmt(
                    value_type_length,
                    start,
                    *length,
                );
                let setter = single_impl(
                    struct_ident,
                    maybe_pub,
                    setter_ident,
                    Method::Setter(Ty::Scalar(value_type), setter_stmt),
                );
                let setter = set_attrs_method(setter, attrs);
                methods.push(setter);
            },
        }
        methods
    }
}

} // verus!

//! Laws of the forms of the generated expressions and statements.

use vstd::arithmetic::power2::*;
use vstd::prelude::*;

use crate::access::{
    is_get_expr, is_set_stmt, join_expr, joined_expr, lemma_low_mask, merge_stmt, merge_stmts,
    piece_expr,
};
use crate::ast::{BinOp, Expr, Scalar, Stmt};
use crate::bits::byte_mask;
use crate::layout::{is_getter_body, is_setter_body, FieldView};

verus! {

/// One bit is read as `self.data[(start / 8) as usize] & (1 << shift) != 0`, where the bit that
/// comes first in a byte is its most significant one.
pub proof fn law_get_one_bit(expr: Expr, ty: Scalar, start: u64)
    requires
        is_get_expr(expr, ty, start as int, 1),
    ensures
        expr == Expr::Binary(
            BinOp::Ne,
            Box::new(
                Expr::Binary(
                    BinOp::BitAnd,
                    Box::new(
                        Expr::Byte(
                            Box::new(
                                Expr::Cast(
                                    Box::new(
                                        Expr::Binary(
                                            BinOp::Div,
                                            Box::new(Expr::Lit(start, Scalar::U64)),
                                            Box::new(Expr::Lit(8, Scalar::U64)),
                                        ),
                                    ),
                                    Scalar::Usize,
                                ),
                            ),
                        ),
                    ),
                    Box::new(
                        Expr::Binary(
                            BinOp::Shl,
                            Box::new(Expr::Lit(1, Scalar::U8)),
                            Box::new(Expr::Lit((7 - start % 8) as u64, Scalar::Usize)),
                        ),
                    ),
                ),
            ),
            Box::new(Expr::Lit(0, Scalar::U8)),
        ),
{
}

/// The mask of the low bits of a byte as a number.
proof fn lemma_mask_number(len: u8)
    requires
        1 <= len <= 8,
    ensures
        (0xFFu8 >> ((8 - len) as u8)) as u64 == (pow2(len as nat) - 1) as u64,
{
    lemma_low_mask(len);
    lemma_pow2_pos(len as nat);
}

/// Bits of one byte are read as `((self.data[index] >> shift) & mask) as ty`, where the mask has
/// as many digits as there are bits.
pub proof fn law_get_one_byte(expr: Expr, ty: Scalar, start: int, length: u8)
    requires
        is_get_expr(expr, ty, start, length),
        0 <= start,
        2 <= length,
        start % 8 + length <= 8,
    ensures
        expr == Expr::Cast(
            Box::new(
                Expr::Binary(
                    BinOp::BitAnd,
                    Box::new(
                        Expr::Binary(
                            BinOp::Shr,
                            Box::new(
                                Expr::Byte(
                                    Box::new(
                                        Expr::Lit((start / 8) as usize as u64, Scalar::Usize),
                                    ),
                                ),
                            ),
                            Box::new(
                                Expr::Lit((8 - start % 8 - length) as u64, Scalar::Usize),
                            ),
                        ),
                    ),
                    Box::new(Expr::Lit((pow2(length as nat) - 1) as u64, Scalar::U8)),
                ),
            ),
            ty,
        ),
{
    reveal_with_fuel(joined_expr, 3);
    lemma_mask_number(length);
}

/// The pieces of several bytes are joined by shifting what was read before to the left and adding
/// the piece of the last byte.
proof fn lemma_joined_last(ty: Scalar, high: Option<Expr>, offset: int, remaining: int)
    requires
        0 <= offset,
        offset % 8 + remaining > 8,
    ensures
        ({
            let end = offset + remaining;
            let last = if end % 8 == 0 {
                8
            } else {
                end % 8
            };
            &&& joined_expr(ty, high, offset, remaining - last) matches Some(front)
            &&& joined_expr(ty, high, offset, remaining) == Some(
                join_expr(
                    front,
                    last as u64,
                    piece_expr(
                        ((end - 1) / 8) as usize as u64,
                        (8 - last) as u64,
                        (0xFFu8 >> ((8 - last) as u8)) as u64,
                        ty,
                    ),
                ),
            )
        }),
    decreases remaining,
{
    let len = 8 - offset % 8;
    let end = offset + remaining;
    let last = if end % 8 == 0 {
        8
    } else {
        end % 8
    };
    let low = piece_expr(
        ((offset / 8) as usize) as u64,
        (8 - len - offset % 8) as u64,
        (0xFFu8 >> ((8 - len) as u8)) as u64,
        ty,
    );
    let joined = match high {
        Some(expr) => join_expr(expr, len as u64, low),
        None => low,
    };
    let next = offset + len;
    assert(next % 8 == 0);
    assert(joined_expr(ty, high, offset, remaining) == joined_expr(
        ty,
        Some(joined),
        next,
        remaining - len,
    ));
    assert(remaining - last >= len);
    assert(joined_expr(ty, high, offset, remaining - last) == joined_expr(
        ty,
        Some(joined),
        next,
        remaining - last - len,
    ));
    if remaining - len > 8 {
        lemma_joined_last(ty, Some(joined), next, remaining - len);
    } else {
        assert(last == remaining - len);
        assert(next / 8 == (end - 1) / 8);
        let piece = piece_expr(
            ((end - 1) / 8) as usize as u64,
            (8 - last) as u64,
            (0xFFu8 >> ((8 - last) as u8)) as u64,
            ty,
        );
        assert(joined_expr(ty, Some(joined), next, last) == joined_expr(
            ty,
            Some(join_expr(joined, last as u64, piece)),
            end,
            0,
        ));
    }
}

/// Bits of several bytes are read as `(high << shift) | low`, where `high` reads the bits in front
/// of the last byte, and `low` the bits in that byte.
pub proof fn law_get_more_bytes(expr: Expr, ty: Scalar, start: int, length: u8)
    requires
        is_get_expr(expr, ty, start, length),
        0 <= start,
        2 <= length,
        start % 8 + length > 8,
    ensures
        ({
            let last = if (start + length) % 8 == 0 {
                8
            } else {
                (start + length) % 8
            };
            &&& expr matches Expr::Binary(op, left, low)
            &&& op == BinOp::BitOr
            &&& *left matches Expr::Binary(shift, high, distance)
            &&& shift == BinOp::Shl
            &&& *distance == Expr::Lit(last as u64, Scalar::Usize)
            &&& *low == Expr::Cast(
                Box::new(
                    Expr::Binary(
                        BinOp::BitAnd,
                        Box::new(
                            Expr::Binary(
                                BinOp::Shr,
                                Box::new(
                                    Expr::Byte(
                                        Box::new(
                                            Expr::Lit(
                                                ((start + length - 1) / 8) as usize as u64,
                                                Scalar::Usize,
                                            ),
                                        ),
                                    ),
                                ),
                                Box::new(Expr::Lit((8 - last) as u64, Scalar::Usize)),
                            ),
                        ),
                        Box::new(Expr::Lit((pow2(last as nat) - 1) as u64, Scalar::U8)),
                    ),
                ),
                ty,
            )
            &&& if length - last == 1 {
                *high == Expr::Cast(
                    Box::new(
                        Expr::Binary(
                            BinOp::BitAnd,
                            Box::new(
                                Expr::Binary(
                                    BinOp::Shr,
                                    Box::new(
                                        Expr::Byte(
                                            Box::new(
                                                Expr::Lit(
                                                    (start / 8) as usize as u64,
                                                    Scalar::Usize,
                                                ),
                                            ),
                                        ),
                                    ),
                                    Box::new(Expr::Lit(0, Scalar::Usize)),
                                ),
                            ),
                            Box::new(Expr::Lit(1, Scalar::U8)),
                        ),
                    ),
                    ty,
                )
            } else {
                is_get_expr(*high, ty, start, (length - last) as u8)
            }
        }),
{
    let last = if (start + length) % 8 == 0 {
        8
    } else {
        (start + length) % 8
    };
    lemma_joined_last(ty, None, start, length as int);
    lemma_mask_number(last as u8);
    if length - last == 1 {
        reveal_with_fuel(joined_expr, 3);
        lemma_mask_number(1);
        lemma2_to64();
    }
}

/// One bit is set by `self.data[index] |= mask` or cleared by `self.data[index] &= !mask`.
pub proof fn law_set_one_bit(stmt: Stmt, start: int)
    requires
        is_set_stmt(stmt, start, 1),
        0 <= start,
    ensures
        ({
            let index = Expr::Lit((start / 8) as usize as u64, Scalar::Usize);
            let mask = Expr::Lit((1u8 << ((7 - start % 8) as u8)) as u64, Scalar::U8);
            stmt == Stmt::If(
                Expr::Value,
                Box::new(Stmt::AssignOp(BinOp::BitOr, index, mask)),
                Box::new(Stmt::AssignOp(BinOp::BitAnd, index, Expr::Not(Box::new(mask)))),
            )
        }),
{
}

/// Statement `j` of those that write bits byte by byte writes to byte `j`.
proof fn lemma_merge_at(end: int, offset: int, j: int)
    requires
        0 <= offset < end,
        0 <= j < merge_stmts(end, offset, end - offset).len(),
    ensures
        ({
            let byte = offset / 8 + j;
            let lo = if j == 0 {
                offset
            } else {
                8 * byte
            };
            let hi = if end < 8 * (byte + 1) {
                end
            } else {
                8 * (byte + 1)
            };
            let shift = end - 8 * (byte + 1);
            merge_stmts(end, offset, end - offset)[j] == merge_stmt(
                byte as usize as u64,
                byte_mask((lo % 8) as u8, (hi - lo) as u8) as u64,
                if shift > 0 {
                    BinOp::Shr
                } else {
                    BinOp::Shl
                },
                if shift > 0 {
                    shift as u64
                } else {
                    (-shift) as u64
                },
            )
        }),
    decreases j,
{
    reveal_with_fuel(merge_stmts, 2);
    if j > 0 {
        let next = 8 * (offset / 8 + 1);
        assert(offset + (8 - offset % 8) == next);
        lemma_merge_at(end, next, j - 1);
    }
}

proof fn lemma_merge_len(end: int, offset: int)
    requires
        0 <= offset <= end,
    ensures
        merge_stmts(end, offset, end - offset).len() == if offset == end {
            0
        } else {
            (end - 1) / 8 - offset / 8 + 1
        },
    decreases end - offset,
{
    reveal_with_fuel(merge_stmts, 2);
    if offset < end {
        let next = 8 * (offset / 8 + 1);
        if next <= end {
            assert(offset + (8 - offset % 8) == next);
            lemma_merge_len(end, next);
        }
    }
}

/// More than one bit is written byte by byte, in order: there is one statement for each byte that
/// has a bit of the run, `self.data[index] = (self.data[index] & !mask) | (((value >> shift) as u8)
/// & mask)`. The mask covers the bits of the run in that byte. The value is shifted by the distance
/// of the end of the byte from the end of the run, to the left where the run ends inside the byte.
pub proof fn law_set_bytes(stmt: Stmt, start: int, length: u8)
    requires
        is_set_stmt(stmt, start, length),
        0 <= start,
        length != 1,
    ensures
        ({
            let end = start + length;
            &&& stmt matches Stmt::Block(stmts)
            &&& stmts.len() == if length == 0 {
                0
            } else {
                (end - 1) / 8 - start / 8 + 1
            }
            &&& forall|j: int|
                #![trigger stmts[j]]
                0 <= j < stmts.len() ==> {
                    let byte = start / 8 + j;
                    let lo = if j == 0 {
                        start % 8
                    } else {
                        0
                    };
                    let hi = if end < 8 * (byte + 1) {
                        end - 8 * byte
                    } else {
                        8
                    };
                    let shift = end - 8 * (byte + 1);
                    let index = Expr::Lit(byte as usize as u64, Scalar::Usize);
                    let mask = Expr::Lit(
                        ((0xFFu8 >> ((8 - (hi - lo)) as u8)) << ((8 - hi) as u8)) as u64,
                        Scalar::U8,
                    );
                    let shifted = if shift > 0 {
                        Expr::Binary(
                            BinOp::Shr,
                            Box::new(Expr::Value),
                            Box::new(Expr::Lit(shift as u64, Scalar::Usize)),
                        )
                    } else {
                        Expr::Binary(
                            BinOp::Shl,
                            Box::new(Expr::Value),
                            Box::new(Expr::Lit((-shift) as u64, Scalar::Usize)),
                        )
                    };
                    stmts[j] == Stmt::Assign(
                        index,
                        Expr::Binary(
                            BinOp::BitOr,
                            Box::new(
                                Expr::Binary(
                                    BinOp::BitAnd,
                                    Box::new(Expr::Byte(Box::new(index))),
                                    Box::new(Expr::Not(Box::new(mask))),
                                ),
                            ),
                            Box::new(
                                Expr::Binary(
                                    BinOp::BitAnd,
                                    Box::new(Expr::Cast(Box::new(shifted), Scalar::U8)),
                                    Box::new(mask),
                                ),
                            ),
                        ),
                    )
                }
        }),
{
    let end = start + length;
    let stmts = stmt->Block_0;
    lemma_merge_len(end, start);
    assert forall|j: int| 0 <= j < stmts.len() implies #[trigger] stmts[j] == merge_stmts(
        end,
        start,
        end - start,
    )[j] by {
        lemma_merge_at(end, start, j);
    }
    assert forall|j: int| 0 <= j < stmts.len() implies {
        let byte = start / 8 + j;
        let lo = if j == 0 {
            start % 8
        } else {
            0
        };
        let hi = if end < 8 * (byte + 1) {
            end - 8 * byte
        } else {
            8
        };
        let shift = end - 8 * (byte + 1);
        #[trigger] stmts[j] == merge_stmt(
            byte as usize as u64,
            byte_mask(lo as u8, (hi - lo) as u8) as u64,
            if shift > 0 {
                BinOp::Shr
            } else {
                BinOp::Shl
            },
            if shift > 0 {
                shift as u64
            } else {
                (-shift) as u64
            },
        )
    } by {
        lemma_merge_at(end, start, j);
    }
}

/// A single value is read and written at the place of the field. An array is read and written
/// element by element, in order, each element behind the one before.
pub proof fn law_bodies(expr: Expr, stmt: Stmt, field: FieldView, start: int)
    requires
        is_getter_body(expr, field, start),
        is_setter_body(stmt, field, start),
        1 <= field.length <= 64,
    ensures
        ({
            let ty = if field.length == 1 {
                Scalar::Bool
            } else if field.length <= 8 {
                Scalar::U8
            } else if field.length <= 16 {
                Scalar::U16
            } else if field.length <= 32 {
                Scalar::U32
            } else {
                Scalar::U64
            };
            match field.count {
                None => is_get_expr(expr, ty, start, field.length) && is_set_stmt(
                    stmt,
                    start,
                    field.length,
                ),
                Some(count) => {
                    &&& expr matches Expr::Array(elements)
                    &&& elements.len() == count
                    &&& forall|i: int|
                        0 <= i < count ==> is_get_expr(
                            #[trigger] elements[i],
                            ty,
                            start + i * field.length,
                            field.length,
                        )
                    &&& stmt matches Stmt::Block(stmts)
                    &&& stmts.len() == count
                    &&& forall|i: int|
                        #![trigger stmts[i]]
                        0 <= i < count ==> {
                            &&& stmts[i] matches Stmt::WithElement(number, body)
                            &&& number == i
                            &&& is_set_stmt(*body, start + i * field.length, field.length)
                        }
                },
            }
        }),
{
    if let Some(count) = field.count {
        assert forall|i: int| 0 <= i < count implies #[trigger] field.element_start(start, i)
            == start + i * field.length by {}
    }
}

} // verus!

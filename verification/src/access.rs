//! What the parts of generated accessors read and write.

use vstd::arithmetic::power2::*;
use vstd::bits::*;
use vstd::prelude::*;

use crate::ast::{BinOp, Expr, Scalar, Stmt};
use crate::bits::{
    bit, bits, byte_mask, has_bits, lemma_bits_bound, lemma_bits_in_byte, lemma_bits_split,
    lemma_merged_byte, lemma_value_bit_mod, lemma_value_bit_shl, lemma_value_bit_shr,
    lemma_value_bit_u64, merged_byte, same_outside, value_bit,
};
use crate::semantics::{apply, eval, run, width, Value};

verus! {

/// The mask of the low `len` bits of a byte.
pub proof fn lemma_low_mask(len: u8)
    requires
        1 <= len <= 8,
    ensures
        0xFFu8 >> ((8 - len) as u8) == low_bits_mask(len as nat),
{
    let shift = (8 - len) as u8;
    assert(0xFFu8 >> shift == (1u16 << (len as u16)) - 1) by (bit_vector)
        requires
            1 <= len <= 8,
            shift == 8 - len,
    ;
    lemma2_to64();
    lemma_pow2_strictly_increases(len as nat, 9);
    lemma_u16_shl_is_mul(1u16, len as u16);
}

/// Shifting and masking a byte gives the run of bits.
proof fn lemma_piece_value(data: Seq<u8>, offset: int, len: u8)
    requires
        1 <= len,
        offset % 8 + len <= 8,
        has_bits(data, offset, len as int),
    ensures
        ((data[offset / 8] as nat / pow2((8 - len - offset % 8) as nat)) as u64) & ((0xFFu8 >> ((8
            - len) as u8)) as u64) == bits(data, offset, len as nat),
        data[offset / 8] as nat / pow2((8 - len - offset % 8) as nat) < 256,
{
    let byte = data[offset / 8] as nat;
    let shift = (8 - len - offset % 8) as nat;
    let x = byte / pow2(shift);
    lemma_low_mask(len);
    lemma_bits_in_byte(data, offset, len as nat);
    lemma_pow2_pos(shift);
    assert(x <= byte) by (nonlinear_arith)
        requires
            x == byte / pow2(shift),
            pow2(shift) > 0,
    ;
    lemma_u64_low_bits_mask_is_mod(x as u64, len as nat);
    lemma_u64_pow2_no_overflow(len as nat);
}

/// `((self.data[index] >> shift) & mask) as ty`
pub open spec fn piece_expr(index: u64, shift: u64, mask: u64, ty: Scalar) -> Expr {
    Expr::Cast(
        Box::new(
            Expr::Binary(
                BinOp::BitAnd,
                Box::new(
                    Expr::Binary(
                        BinOp::Shr,
                        Box::new(Expr::Byte(Box::new(Expr::Lit(index, Scalar::Usize)))),
                        Box::new(Expr::Lit(shift, Scalar::Usize)),
                    ),
                ),
                Box::new(Expr::Lit(mask, Scalar::U8)),
            ),
        ),
        ty,
    )
}

proof fn lemma_pow2_widths()
    ensures
        pow2(8) == 0x100,
        pow2(64) == 0x1_0000_0000_0000_0000,
        usize::MAX < pow2(width(Scalar::Usize)),
{
    lemma2_to64();
    lemma2_to64_rest();
}

/// The expression that reads the bits of one byte reads those bits.
pub proof fn lemma_piece(
    ty: Scalar,
    offset: int,
    len: u8,
    index: u64,
    shift: u64,
    mask: u64,
    data: Seq<u8>,
    value: Value,
)
    requires
        1 <= len,
        offset % 8 + len <= 8,
        has_bits(data, offset, len as int),
        ty != Scalar::Bool,
        len <= width(ty),
        index == offset / 8,
        shift == 8 - len - offset % 8,
        mask == (0xFFu8 >> ((8 - len) as u8)) as u64,
    ensures
        eval(piece_expr(index, shift, mask, ty), data, value) == Some(
            Value::Int(ty, bits(data, offset, len as nat)),
        ),
{
    lemma_piece_value(data, offset, len);
    lemma_pow2_widths();
    let n = bits(data, offset, len as nat);
    let byte = Expr::Byte(Box::new(Expr::Lit(index, Scalar::Usize)));
    let shifted = Expr::Binary(
        BinOp::Shr,
        Box::new(byte),
        Box::new(Expr::Lit(shift, Scalar::Usize)),
    );
    let masked = Expr::Binary(
        BinOp::BitAnd,
        Box::new(shifted),
        Box::new(Expr::Lit(mask, Scalar::U8)),
    );
    let x = data[offset / 8] as nat;
    assert(eval(Expr::Lit(index, Scalar::Usize), data, value) == Some(
        Value::Int(Scalar::Usize, index as nat),
    ));
    assert(eval(Expr::Lit(shift, Scalar::Usize), data, value) == Some(
        Value::Int(Scalar::Usize, shift as nat),
    ));
    assert(eval(Expr::Lit(mask, Scalar::U8), data, value) == Some(
        Value::Int(Scalar::U8, mask as nat),
    ));
    assert(eval(byte, data, value) == Some(Value::Int(Scalar::U8, x)));
    assert(eval(shifted, data, value) == Some(Value::Int(Scalar::U8, x / pow2(shift as nat))));
    assert(eval(masked, data, value) == Some(Value::Int(Scalar::U8, n)));
    lemma_bits_bound(data, offset, len as nat);
    if len < width(ty) {
        lemma_pow2_strictly_increases(len as nat, width(ty));
    }
    assert(n % pow2(width(ty)) == n) by (nonlinear_arith)
        requires
            n < pow2(width(ty)),
    ;
    assert(piece_expr(index, shift, mask, ty) == Expr::Cast(Box::new(masked), ty));
}

/// `(self.data[(start / 8) as usize] & (0x1 << shift)) != 0`
pub open spec fn test_expr(start: u64, shift: u64) -> Expr {
    Expr::Binary(
        BinOp::Ne,
        Box::new(
            Expr::Binary(
                BinOp::BitAnd,
                Box::new(
                    Expr::Byte(
                        Box::new(
                            Expr::Cast(
                                Box::new(
                                    Expr::Binary(
                                        BinOp::Div,
                                        Box::new(Expr::Lit(start, Scalar::U64)),
                                        Box::new(Expr::Lit(8, Scalar::U64)),
                                    ),
                                ),
                                Scalar::Usize,
                            ),
                        ),
                    ),
                ),
                Box::new(
                    Expr::Binary(
                        BinOp::Shl,
                        Box::new(Expr::Lit(1, Scalar::U8)),
                        Box::new(Expr::Lit(shift, Scalar::Usize)),
                    ),
                ),
            ),
        ),
        Box::new(Expr::Lit(0, Scalar::U8)),
    )
}

/// The expression that tests one bit gives that bit.
pub proof fn lemma_test(start: u64, shift: u64, data: Seq<u8>, value: Value)
    requires
        has_bits(data, start as int, 1),
        shift == 7 - start % 8,
    ensures
        eval(test_expr(start, shift), data, value) == Some(Value::Bool(bit(data, start as int))),
{
    lemma_pow2_widths();
    let div = Expr::Binary(
        BinOp::Div,
        Box::new(Expr::Lit(start, Scalar::U64)),
        Box::new(Expr::Lit(8, Scalar::U64)),
    );
    let index = Expr::Cast(Box::new(div), Scalar::Usize);
    let byte = Expr::Byte(Box::new(index));
    let mask = Expr::Binary(
        BinOp::Shl,
        Box::new(Expr::Lit(1, Scalar::U8)),
        Box::new(Expr::Lit(shift, Scalar::Usize)),
    );
    let masked = Expr::Binary(BinOp::BitAnd, Box::new(byte), Box::new(mask));
    let x = data[(start / 8) as int];
    let m = pow2(shift as nat);
    assert(eval(Expr::Lit(start, Scalar::U64), data, value) == Some(
        Value::Int(Scalar::U64, start as nat),
    ));
    assert(eval(Expr::Lit(8, Scalar::U64), data, value) == Some(Value::Int(Scalar::U64, 8)));
    assert(eval(div, data, value) == Some(Value::Int(Scalar::U64, (start / 8) as nat)));
    assert((start / 8) as nat % pow2(width(Scalar::Usize)) == (start / 8) as nat) by {
        vstd::arithmetic::div_mod::lemma_small_mod(
            (start / 8) as nat,
            pow2(width(Scalar::Usize)),
        );
    }
    assert(eval(index, data, value) == Some(Value::Int(Scalar::Usize, (start / 8) as nat)));
    assert(eval(byte, data, value) == Some(Value::Int(Scalar::U8, x as nat)));
    assert(eval(Expr::Lit(1, Scalar::U8), data, value) == Some(Value::Int(Scalar::U8, 1)));
    assert(eval(Expr::Lit(0, Scalar::U8), data, value) == Some(Value::Int(Scalar::U8, 0)));
    assert(eval(Expr::Lit(shift, Scalar::Usize), data, value) == Some(
        Value::Int(Scalar::Usize, shift as nat),
    ));
    lemma_pow2_strictly_increases(shift as nat, 8);
    assert((1 * m) % pow2(8) == m) by {
        vstd::arithmetic::div_mod::lemma_small_mod(m, pow2(8));
    }
    assert(eval(mask, data, value) == Some(Value::Int(Scalar::U8, m)));
    assert(eval(masked, data, value) == Some(
        Value::Int(Scalar::U8, ((x as u64) & (m as u64)) as nat),
    ));
    lemma_u64_shl_is_mul(1u64, shift);
    lemma_value_bit_u64(x as u64, shift);
    assert(((x as u64) & (1u64 << shift) != 0) == (((x as u64) >> shift) & 1 == 1)) by (bit_vector)
        requires
            shift < 8,
    ;
    assert(test_expr(start, shift) == Expr::Binary(
        BinOp::Ne,
        Box::new(masked),
        Box::new(Expr::Lit(0, Scalar::U8)),
    ));
}

/// `(high << shift) | low`
pub open spec fn join_expr(high: Expr, shift: u64, low: Expr) -> Expr {
    Expr::Binary(
        BinOp::BitOr,
        Box::new(
            Expr::Binary(BinOp::Shl, Box::new(high), Box::new(Expr::Lit(shift, Scalar::Usize))),
        ),
        Box::new(low),
    )
}

/// Or-ing a number below `2^shift` into a number shifted left by `shift` adds the two.
proof fn lemma_or_is_sum(high: u64, shift: u64, low: u64)
    requires
        shift <= 8,
        high * pow2(shift as nat) + low <= u64::MAX,
        low < pow2(shift as nat),
    ensures
        ((high * pow2(shift as nat)) as u64) | low == high * pow2(shift as nat) + low,
{
    lemma_u64_shl_is_mul(high, shift);
    lemma_u64_pow2_no_overflow(shift as nat);
    lemma_u64_shl_is_mul(1u64, shift);
    let h = high << shift;
    assert(h | low == h + low) by (bit_vector)
        requires
            h == high << shift,
            shift <= 8,
            low < 1u64 << shift,
    ;
}

/// The expression that joins two adjacent runs of bits reads the whole run.
pub proof fn lemma_join(
    ty: Scalar,
    start: int,
    high_len: nat,
    high: Expr,
    low_len: u8,
    low: Expr,
    data: Seq<u8>,
    value: Value,
)
    requires
        1 <= low_len <= 8,
        ty != Scalar::Bool,
        high_len + low_len <= width(ty),
        0 < high_len,
        eval(high, data, value) == Some(Value::Int(ty, bits(data, start, high_len))),
        eval(low, data, value) == Some(
            Value::Int(ty, bits(data, start + high_len, low_len as nat)),
        ),
    ensures
        eval(join_expr(high, low_len as u64, low), data, value) == Some(
            Value::Int(ty, bits(data, start, high_len + low_len as nat)),
        ),
{
    lemma_pow2_widths();
    let h = bits(data, start, high_len);
    let l = bits(data, start + high_len, low_len as nat);
    let total = bits(data, start, high_len + low_len as nat);
    let p = pow2(low_len as nat);
    lemma_bits_split(data, start, high_len, low_len as nat);
    lemma_bits_bound(data, start, high_len + low_len as nat);
    lemma_bits_bound(data, start + high_len, low_len as nat);
    if high_len + low_len < width(ty) {
        lemma_pow2_strictly_increases(high_len + low_len as nat, width(ty));
    }
    if width(ty) < 64 {
        lemma_pow2_strictly_increases(width(ty), 64);
    }
    assert(h <= h * p) by (nonlinear_arith)
        requires
            p >= 1,
            h >= 0,
    ;
    vstd::arithmetic::div_mod::lemma_small_mod(h * p, pow2(width(ty)));
    lemma_or_is_sum(h as u64, low_len as u64, l as u64);
    let shifted = Expr::Binary(
        BinOp::Shl,
        Box::new(high),
        Box::new(Expr::Lit(low_len as u64, Scalar::Usize)),
    );
    assert(eval(Expr::Lit(low_len as u64, Scalar::Usize), data, value) == Some(
        Value::Int(Scalar::Usize, low_len as nat),
    ));
    assert(eval(shifted, data, value) == Some(Value::Int(ty, h * p)));
    assert(join_expr(high, low_len as u64, low) == Expr::Binary(
        BinOp::BitOr,
        Box::new(shifted),
        Box::new(low),
    ));
}

/// `after` is `before` with the `len` bits at bit `start` replaced by digits of `v`; the bit just
/// before `end` is the lowest digit of `v`.
pub open spec fn writes(
    before: Seq<u8>,
    after: Seq<u8>,
    start: int,
    len: int,
    end: int,
    v: nat,
) -> bool {
    &&& same_outside(before, after, start, len)
    &&& forall|k: int|
        start <= k < start + len ==> #[trigger] bit(after, k) == value_bit(
            v,
            (end - 1 - k) as nat,
        )
}

/// Merging one byte writes the run of bits under the mask.
proof fn lemma_merge_writes(data: Seq<u8>, offset: int, len: u8, source: u8, end: int, v: nat)
    requires
        1 <= len,
        offset % 8 + len <= 8,
        has_bits(data, offset, len as int),
        forall|k: int|
            offset <= k < offset + len ==> #[trigger] value_bit(
                source as nat,
                (7 - k % 8) as nat,
            ) == value_bit(v, (end - 1 - k) as nat),
    ensures
        writes(
            data,
            data.update(
                offset / 8,
                merged_byte(data[offset / 8], byte_mask((offset % 8) as u8, len), source),
            ),
            offset,
            len as int,
            end,
            v,
        ),
{
    let byte = data[offset / 8];
    let off = (offset % 8) as u8;
    let merged = merged_byte(byte, byte_mask(off, len), source);
    let after = data.update(offset / 8, merged);
    assert forall|k: int|
        0 <= k < 8 * data.len() && !(offset <= k < offset + len) implies #[trigger] bit(after, k)
        == bit(data, k) by {
        if k / 8 == offset / 8 {
            lemma_merged_byte(byte, off, len, source, (7 - k % 8) as u8);
        }
    }
    assert forall|k: int| offset <= k < offset + len implies #[trigger] bit(after, k) == value_bit(
        v,
        (end - 1 - k) as nat,
    ) by {
        assert(k / 8 == offset / 8);
        lemma_merged_byte(byte, off, len, source, (7 - k % 8) as u8);
        assert(value_bit(source as nat, (7 - k % 8) as nat) == value_bit(
            v,
            (end - 1 - k) as nat,
        ));
    }
}

/// The merge of a byte, computed on wider numbers.
proof fn lemma_merged_wide(byte: u8, mask: u8, source: u8)
    ensures
        (((byte as u64) & ((255 - mask) as u64)) | ((source as u64) & (mask as u64)))
            == merged_byte(byte, mask, source),
{
    assert((((byte as u64) & ((255 - mask) as u64)) | ((source as u64) & (mask as u64))) == ((byte
        & !mask) | (source & mask)) as u64) by (bit_vector);
}

/// `(self.data[index] & !mask) | (((value op shift) as u8) & mask)`
pub open spec fn merge_expr(index: u64, mask: u64, op: BinOp, shift: u64) -> Expr {
    Expr::Binary(
        BinOp::BitOr,
        Box::new(
            Expr::Binary(
                BinOp::BitAnd,
                Box::new(Expr::Byte(Box::new(Expr::Lit(index, Scalar::Usize)))),
                Box::new(Expr::Not(Box::new(Expr::Lit(mask, Scalar::U8)))),
            ),
        ),
        Box::new(
            Expr::Binary(
                BinOp::BitAnd,
                Box::new(
                    Expr::Cast(
                        Box::new(
                            Expr::Binary(
                                op,
                                Box::new(Expr::Value),
                                Box::new(Expr::Lit(shift, Scalar::Usize)),
                            ),
                        ),
                        Scalar::U8,
                    ),
                ),
                Box::new(Expr::Lit(mask, Scalar::U8)),
            ),
        ),
    )
}

/// The expression that merges a shifted value into a byte gives the merged byte.
proof fn lemma_merge_expr(
    index: u64,
    mask: u8,
    op: BinOp,
    shift: u64,
    data: Seq<u8>,
    ty: Scalar,
    v: nat,
    shifted: nat,
)
    requires
        index < data.len() <= usize::MAX,
        shift < 64,
        apply(op, Value::Int(ty, v), Value::Int(Scalar::Usize, shift as nat)) == Some(
            Value::Int(ty, shifted),
        ),
    ensures
        eval(merge_expr(index, mask as u64, op, shift), data, Value::Int(ty, v)) == Some(
            Value::Int(
                Scalar::U8,
                merged_byte(data[index as int], mask, (shifted % 256) as u8) as nat,
            ),
        ),
{
    lemma_pow2_widths();
    let value = Value::Int(ty, v);
    let source = (shifted % 256) as u8;
    let x = data[index as int];
    let index_lit = Expr::Lit(index, Scalar::Usize);
    let mask_lit = Expr::Lit(mask as u64, Scalar::U8);
    let shift_lit = Expr::Lit(shift, Scalar::Usize);
    let byte = Expr::Byte(Box::new(index_lit));
    let not_mask = Expr::Not(Box::new(mask_lit));
    let kept = Expr::Binary(BinOp::BitAnd, Box::new(byte), Box::new(not_mask));
    let moved = Expr::Binary(op, Box::new(Expr::Value), Box::new(shift_lit));
    let cast = Expr::Cast(Box::new(moved), Scalar::U8);
    let taken = Expr::Binary(BinOp::BitAnd, Box::new(cast), Box::new(mask_lit));
    assert(eval(index_lit, data, value) == Some(Value::Int(Scalar::Usize, index as nat)));
    assert(eval(mask_lit, data, value) == Some(Value::Int(Scalar::U8, mask as nat)));
    assert(eval(shift_lit, data, value) == Some(Value::Int(Scalar::Usize, shift as nat)));
    assert(eval(byte, data, value) == Some(Value::Int(Scalar::U8, x as nat)));
    assert(eval(not_mask, data, value) == Some(Value::Int(Scalar::U8, (255 - mask) as nat)));
    assert(eval(kept, data, value) == Some(
        Value::Int(Scalar::U8, ((x as u64) & ((255 - mask) as u64)) as nat),
    ));
    assert(eval(Expr::Value, data, value) == Some(value));
    assert(eval(moved, data, value) == Some(Value::Int(ty, shifted)));
    assert(eval(cast, data, value) == Some(Value::Int(Scalar::U8, source as nat)));
    assert(eval(taken, data, value) == Some(
        Value::Int(Scalar::U8, ((source as u64) & (mask as u64)) as nat),
    ));
    lemma_merged_wide(x, mask, source);
    assert(merge_expr(index, mask as u64, op, shift) == Expr::Binary(
        BinOp::BitOr,
        Box::new(kept),
        Box::new(taken),
    ));
}

/// `self.data[index] = (self.data[index] & !mask) | (((value op shift) as u8) & mask);`
pub open spec fn merge_stmt(index: u64, mask: u64, op: BinOp, shift: u64) -> Stmt {
    Stmt::Assign(Expr::Lit(index, Scalar::Usize), merge_expr(index, mask, op, shift))
}

/// The statement that writes the bits of one byte writes the digits of the value that belong
/// there.
pub proof fn lemma_merge_stmt(
    ty: Scalar,
    offset: int,
    len: u8,
    end: int,
    index: u64,
    op: BinOp,
    shift: u64,
    data: Seq<u8>,
    v: nat,
)
    requires
        1 <= len,
        offset % 8 + len <= 8,
        has_bits(data, offset, len as int),
        offset + len == end || (offset + len < end && (offset + len) % 8 == 0),
        8 <= width(ty),
        end - offset <= width(ty),
        index == offset / 8,
        op == BinOp::Shr || op == BinOp::Shl,
        op == BinOp::Shr ==> shift == end - 8 * (offset / 8 + 1),
        op == BinOp::Shl ==> shift == 8 * (offset / 8 + 1) - end,
    ensures
        run(
            merge_stmt(index, byte_mask((offset % 8) as u8, len) as u64, op, shift),
            data,
            Value::Int(ty, v),
        ) matches Some(after) && writes(data, after, offset, len as int, end, v),
{
    lemma_pow2_widths();
    let mask = byte_mask((offset % 8) as u8, len);
    let w = width(ty);
    let p = pow2(shift as nat);
    let shifted = if op == BinOp::Shr {
        v / p
    } else {
        (v * p) % pow2(w)
    };
    let source = (shifted % 256) as u8;
    lemma_merge_expr(index, mask, op, shift, data, ty, v, shifted);
    assert forall|k: int| offset <= k < offset + len implies #[trigger] value_bit(
        source as nat,
        (7 - k % 8) as nat,
    ) == value_bit(v, (end - 1 - k) as nat) by {
        let i = (7 - k % 8) as nat;
        lemma_value_bit_mod(shifted, 8, i);
        if op == BinOp::Shr {
            lemma_value_bit_shr(v, shift as nat, i);
            assert(i + shift as nat == (end - 1 - k) as nat);
        } else {
            lemma_value_bit_mod(v * p, w, i);
            lemma_value_bit_shl(v, shift as nat, i);
            assert((i - shift) as nat == (end - 1 - k) as nat);
        }
    }
    lemma_merge_writes(data, offset, len, source, end, v);
    assert(eval(Expr::Lit(index, Scalar::Usize), data, Value::Int(ty, v)) == Some(
        Value::Int(Scalar::Usize, index as nat),
    ));
}

/// Writing a run of bits and then the run that follows it writes both.
pub proof fn lemma_writes_join(
    before: Seq<u8>,
    between: Seq<u8>,
    after: Seq<u8>,
    start: int,
    a: int,
    b: int,
    end: int,
    v: nat,
)
    requires
        0 <= a,
        0 <= b,
        0 <= start,
        start + a <= 8 * before.len(),
        writes(before, between, start, a, end, v),
        writes(between, after, start + a, b, end, v),
    ensures
        writes(before, after, start, a + b, end, v),
{
    assert forall|k: int|
        0 <= k < 8 * before.len() && !(start <= k < start + a + b) implies #[trigger] bit(after, k)
        == bit(before, k) by {
        assert(bit(between, k) == bit(before, k));
    }
    assert forall|k: int| start <= k < start + a + b implies #[trigger] bit(after, k) == value_bit(
        v,
        (end - 1 - k) as nat,
    ) by {
        if k < start + a {
            assert(bit(between, k) == value_bit(v, (end - 1 - k) as nat));
        }
    }
}

/// `if value { self.data[index] |= mask } else { self.data[index] &= !mask }`
pub open spec fn flag_stmt(index: u64, mask: u64) -> Stmt {
    Stmt::If(
        Expr::Value,
        Box::new(
            Stmt::AssignOp(
                BinOp::BitOr,
                Expr::Lit(index, Scalar::Usize),
                Expr::Lit(mask, Scalar::U8),
            ),
        ),
        Box::new(
            Stmt::AssignOp(
                BinOp::BitAnd,
                Expr::Lit(index, Scalar::Usize),
                Expr::Not(Box::new(Expr::Lit(mask, Scalar::U8))),
            ),
        ),
    )
}

/// The statement that sets or clears one bit writes that bit.
pub proof fn lemma_flag_stmt(start: int, index: u64, mask: u8, data: Seq<u8>, flag: bool)
    requires
        has_bits(data, start, 1),
        index == start / 8,
        mask == 0x1u8 << ((7 - start % 8) as u8),
    ensures
        run(flag_stmt(index, mask as u64), data, Value::Bool(flag)) matches Some(after) && writes(
            data,
            after,
            start,
            1,
            start + 1,
            if flag {
                1
            } else {
                0
            },
        ),
{
    reveal_with_fuel(run, 3);
    lemma_pow2_widths();
    let value = Value::Bool(flag);
    let v: nat = if flag {
        1
    } else {
        0
    };
    let source: u8 = if flag {
        0xFF
    } else {
        0
    };
    let off = (start % 8) as u8;
    let down = (7 - start % 8) as u8;
    let x = data[start / 8];
    let index_lit = Expr::Lit(index, Scalar::Usize);
    let mask_lit = Expr::Lit(mask as u64, Scalar::U8);
    let not_mask = Expr::Not(Box::new(mask_lit));
    assert(eval(Expr::Value, data, value) == Some(value));
    assert(eval(index_lit, data, value) == Some(Value::Int(Scalar::Usize, index as nat)));
    assert(eval(mask_lit, data, value) == Some(Value::Int(Scalar::U8, mask as nat)));
    assert(eval(not_mask, data, value) == Some(Value::Int(Scalar::U8, (255 - mask) as nat)));
    assert(byte_mask(off, 1) == mask) by {
        assert((0xFFu8 >> 7u8) << down == 0x1u8 << down) by (bit_vector);
    }
    assert((x as u64) | (mask as u64) == ((x & !mask) | (0xFFu8 & mask)) as u64) by (bit_vector);
    assert((x as u64) & ((255 - mask) as u64) == ((x & !mask) | (0u8 & mask)) as u64)
        by (bit_vector);
    let merged = merged_byte(x, mask, source);
    assert(run(flag_stmt(index, mask as u64), data, value) == Some(data.update(start / 8, merged)));
    assert forall|k: int| start <= k < start + 1 implies #[trigger] value_bit(
        source as nat,
        (7 - k % 8) as nat,
    ) == value_bit(v, (start + 1 - 1 - k) as nat) by {
        lemma_value_bit_u64(source as u64, down as u64);
        lemma_value_bit_u64(v as u64, 0);
        let d = down as u64;
        assert((0xFFu64 >> d) & 1 == 1) by (bit_vector)
            requires
                d < 8,
        ;
        assert((0u64 >> d) & 1 == 0) by (bit_vector);
        assert((1u64 >> 0u64) & 1 == 1) by (bit_vector);
        assert((0u64 >> 0u64) & 1 == 0) by (bit_vector);
    }
    lemma_merge_writes(data, start, 1, source, start + 1, v);
}

/// How many of the `remaining` bits from bit `offset` on lie in the byte that holds bit `offset`.
pub open spec fn piece_length(offset: int, remaining: int) -> int {
    if remaining < 8 - offset % 8 {
        remaining
    } else {
        8 - offset % 8
    }
}

/// The expression that joins the pieces of the `remaining` bits from bit `offset` on, byte by
/// byte, to the bits that `high` reads, if there are any.
pub open spec fn joined_expr(
    ty: Scalar,
    high: Option<Expr>,
    offset: int,
    remaining: int,
) -> Option<Expr>
    decreases remaining,
{
    if remaining <= 0 {
        high
    } else {
        let len = piece_length(offset, remaining);
        let low = piece_expr(
            ((offset / 8) as usize) as u64,
            (8 - len - offset % 8) as u64,
            (0xFFu8 >> ((8 - len) as u8)) as u64,
            ty,
        );
        let joined = match high {
            Some(expr) => join_expr(expr, len as u64, low),
            None => low,
        };
        joined_expr(ty, Some(joined), offset + len, remaining - len)
    }
}

/// `expr` has the form of the expression that reads `length` bits from bit `start` on: one bit is
/// tested, and more are joined byte by byte.
pub open spec fn is_get_expr(expr: Expr, ty: Scalar, start: int, length: u8) -> bool {
    if length == 1 {
        expr == test_expr(start as u64, (7 - start % 8) as u64)
    } else {
        joined_expr(ty, None, start, length as int) == Some(expr)
    }
}

/// The statements that write the `remaining` bits from bit `offset` on, byte by byte, where the
/// bit just before `end` takes the lowest digit of the value.
pub open spec fn merge_stmts(end: int, offset: int, remaining: int) -> Seq<Stmt>
    decreases remaining,
{
    if remaining <= 0 {
        Seq::empty()
    } else {
        let len = piece_length(offset, remaining);
        let shift = end - 8 * (offset / 8 + 1);
        let stmt = merge_stmt(
            ((offset / 8) as usize) as u64,
            byte_mask((offset % 8) as u8, len as u8) as u64,
            if shift > 0 {
                BinOp::Shr
            } else {
                BinOp::Shl
            },
            if shift > 0 {
                shift as u64
            } else {
                (-shift) as u64
            },
        );
        seq![stmt] + merge_stmts(end, offset + len, remaining - len)
    }
}

/// `stmt` has the form of the statement that writes `length` bits from bit `start` on: one bit is
/// set or cleared, and more are merged byte by byte.
pub open spec fn is_set_stmt(stmt: Stmt, start: int, length: u8) -> bool {
    if length == 1 {
        stmt == flag_stmt(
            ((start / 8) as usize) as u64,
            (0x1u8 << ((7 - start % 8) as u8)) as u64,
        )
    } else {
        &&& stmt matches Stmt::Block(stmts)
        &&& stmts@ == merge_stmts(start + length, start, length as int)
    }
}

} // verus!

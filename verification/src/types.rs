//! The types and modifiers of generated accessors.

use vstd::prelude::*;

use crate::ast::{Keyword, Scalar, Ty};
use crate::semantics::width;

verus! {

/// The smallest type that holds `size` bits; `bool` holds one.
pub open spec fn scalar_for(size: u8) -> Scalar {
    if size <= 1 {
        Scalar::Bool
    } else if size <= 8 {
        Scalar::U8
    } else if size <= 16 {
        Scalar::U16
    } else if size <= 32 {
        Scalar::U32
    } else {
        Scalar::U64
    }
}

/// Returns the smallest `bool` or unsigned integer type that can hold an amount of bits, and the
/// size of that type in bits.
pub fn size_to_ty(size: u8) -> (result: Option<(Scalar, u8)>)
    ensures
        result is Some <==> 1 <= size <= 64,
        result matches Some((ty, length)) ==> {
            &&& ty == scalar_for(size)
            &&& ty != Scalar::Usize
            &&& length == width(ty)
            &&& size <= length
            &&& forall|other: Scalar|
                other != Scalar::Usize && size <= #[trigger] width(other) ==> length <= width(
                    other,
                )
        },
{
    if size == 0 {
        None
    } else if size == 1 {
        Some((Scalar::Bool, 1))
    } else if size <= 8 {
        Some((Scalar::U8, 8))
    } else if size <= 16 {
        Some((Scalar::U16, 16))
    } else if size <= 32 {
        Some((Scalar::U32, 32))
    } else if size <= 64 {
        Some((Scalar::U64, 64))
    } else {
        None
    }
}

/// Returns the type of arrays of `length` elements.
pub fn make_array_ty(elements_type: &Scalar, length: usize) -> (ty: Ty)
    ensures
        ty == Ty::Array(*elements_type, length),
{
    Ty::Array(*elements_type, length)
}

/// The keyword in front of an item: `pub`, or none for an item that is not public.
pub open spec fn visibility_of(is_pub: bool) -> Option<Keyword> {
    if is_pub {
        Some(Keyword::Pub)
    } else {
        None
    }
}

/// Returns the keyword in front of an item: `pub`, or none for an item that is not public.
pub fn make_maybe_pub(is_pub: bool) -> (keyword: Option<Keyword>)
    ensures
        keyword == visibility_of(is_pub),
{
    if is_pub {
        Some(Keyword::Pub)
    } else {
        None
    }
}

} // verus!

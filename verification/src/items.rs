//! Handling of generated `impl` blocks.

use vstd::prelude::*;

use crate::ast::{Attribute, ImplItem, Item};

verus! {

/// The methods of an `impl` block; none for a struct.
pub open spec fn impl_items_of(item: Item) -> Seq<ImplItem> {
    match item {
        Item::Struct { .. } => Seq::empty(),
        Item::Impl { impl_items, .. } => impl_items@,
    }
}

/// The methods of `impl` blocks, in order.
pub open spec fn all_impl_items(items: Seq<Item>) -> Seq<ImplItem>
    decreases items.len(),
{
    if items.len() == 0 {
        Seq::empty()
    } else {
        all_impl_items(items.drop_last()) + impl_items_of(items.last())
    }
}

/// Gives the first method of an `impl` block the attributes `attrs` in place of its own.
pub fn set_attrs_method(method: Item, attrs: &Vec<Attribute>) -> (result: Item)
    requires
        method is Impl,
        impl_items_of(method).len() > 0,
    ensures
        result is Impl,
        result->Impl_name == method->Impl_name,
        impl_items_of(result).len() == impl_items_of(method).len(),
        impl_items_of(result)[0].attrs@ == attrs@,
        impl_items_of(result)[0].visibility == impl_items_of(method)[0].visibility,
        impl_items_of(result)[0].name == impl_items_of(method)[0].name,
        impl_items_of(result)[0].method == impl_items_of(method)[0].method,
        forall|i: int|
            1 <= i < impl_items_of(method).len() ==> #[trigger] impl_items_of(result)[i]
                == impl_items_of(method)[i],
{
    match method {
        Item::Impl { name, mut impl_items } => {
            impl_items[0].attrs = attrs.clone();
            Item::Impl { name, impl_items }
        },
        item => item,
    }
}

/// Takes the methods out of an `impl` block.
pub fn get_impl_items(item: Item) -> (result: Vec<ImplItem>)
    requires
        item is Impl,
    ensures
        result@ == impl_items_of(item),
{
    match item {
        Item::Impl { impl_items, .. } => impl_items,
        Item::Struct { .. } => Vec::new(),
    }
}

/// Merges `impl` blocks into the last of them: its own methods come first, and those of the
/// others follow in order.
pub fn merge_impls(methods: Vec<Item>) -> (merged: Item)
    requires
        methods.len() > 0,
        forall|i: int| 0 <= i < methods.len() ==> #[trigger] methods[i] is Impl,
    ensures
        merged is Impl,
        merged->Impl_name == methods@.last()->Impl_name,
        impl_items_of(merged) == impl_items_of(methods@.last()) + all_impl_items(
            methods@.drop_last(),
        ),
{
    let mut methods = methods;
    let ghost all = methods@;
    let impl_block = methods.pop().unwrap();
    let mut methods_impl_items: Vec<ImplItem> = Vec::new();
    for method in iter: methods
        invariant
            all.len() > 0,
            iter.seq() == all.drop_last(),
            forall|i: int| 0 <= i < all.len() ==> #[trigger] all[i] is Impl,
            methods_impl_items@ == all_impl_items(iter.seq().take(iter.index() as int)),
    {
        proof {
            let i = iter.index() as int;
            assert(method == all[i]);
            assert(all.drop_last().take(i + 1).drop_last() =~= all.drop_last().take(i));
        }
        let mut items = get_impl_items(method);
        methods_impl_items.append(&mut items);
    }
    proof {
        assert(all.drop_last().take(all.len() - 1) =~= all.drop_last());
    }
    match impl_block {
        Item::Impl { name, mut impl_items } => {
            impl_items.append(&mut methods_impl_items);
            Item::Impl { name, impl_items }
        },
        item => item,
    }
}

} // verus!

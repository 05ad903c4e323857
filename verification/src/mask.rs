//! Item sets as 128-bit masks, one bit per item.

use vstd::prelude::*;

verus! {

/// The number of items a mask can tell apart.
pub const MAX_ITEMS: usize = 128;

/// The mask of the single item `i`.
pub open spec fn item_mask(i: usize) -> u128 {
    1u128 << i
}

/// The mask of a list of items: the bitwise or of the masks of its members.
pub open spec fn mask_of(items: Seq<usize>) -> u128
    decreases items.len(),
{
    if items.len() == 0 {
        0
    } else {
        mask_of(items.drop_last()) | item_mask(items.last())
    }
}

/// Every member of the list is an item that a mask can hold.
pub open spec fn items_fit(items: Seq<usize>) -> bool {
    forall|j: int| 0 <= j < items.len() ==> items[j] < MAX_ITEMS
}

/// The number of one bits of `x`.
pub open spec fn popcount(x: u128) -> nat
    decreases x,
{
    if x == 0 {
        0
    } else {
        (x % 2) as nat + popcount(x / 2)
    }
}

/// The number of zero bits below the lowest one bit of `x`, and 128 for 0.
pub open spec fn low_zeros(x: u128) -> nat
    decreases x,
{
    if x == 0 {
        128
    } else if x % 2 == 1 {
        0
    } else {
        1 + low_zeros(x / 2)
    }
}

/// `x` is the mask of exactly one item.
pub open spec fn is_single(x: u128) -> bool {
    popcount(x) == 1
}

/// `u128::count_ones` of std returns the number of ones in the binary
/// representation of its argument.
pub assume_specification[ u128::count_ones ](x: u128) -> (r: u32)
    ensures
        r == popcount(x),
;

/// `u128::trailing_zeros` of std returns the number of trailing zeros in the
/// binary representation of its argument, which is 128 for 0.
pub assume_specification[ u128::trailing_zeros ](x: u128) -> (r: u32)
    ensures
        r == low_zeros(x),
;

proof fn lemma_shift_step(j: u32, i: u32)
    by (bit_vector)
    requires
        i < 128,
        i == j + 1,
    ensures
        (1u128 << i) / 2 == 1u128 << j,
        (1u128 << i) % 2 == 0,
        (1u128 << i) != 0,
        (1u128 << j) != 0,
{
}

proof fn lemma_double_single(x: u128, t: u32, t1: u32)
    by (bit_vector)
    requires
        x % 2 == 0,
        x / 2 == 1u128 << t,
        t < 128,
        t1 == t + 1,
    ensures
        t < 127,
        x == 1u128 << t1,
{
}

/// The mask of an item is the same whether its place is counted in machine
/// words or in 32 bits.
pub proof fn lemma_shift_width(i: usize)
    by (bit_vector)
    requires
        i < 128,
    ensures
        1u128 << (i as u32) == 1u128 << i,
{
}

/// The mask of one item has one bit, at the item's place.
pub proof fn lemma_item_mask_single(i: usize)
    requires
        i < MAX_ITEMS,
    ensures
        popcount(item_mask(i)) == 1,
        low_zeros(item_mask(i)) == i,
        item_mask(i) != 0,
    decreases i,
{
    if i == 0 {
        assert(1u128 << 0usize == 1) by (bit_vector);
        assert(popcount(1) == 1 + popcount(0));
    } else {
        let j = (i - 1) as usize;
        lemma_item_mask_single(j);
        lemma_shift_step(j as u32, i as u32);
        lemma_shift_width(i);
        lemma_shift_width(j);
    }
}

proof fn lemma_popcount_zero(x: u128)
    ensures
        popcount(x) == 0 <==> x == 0,
    decreases x,
{
    if x != 0 {
        lemma_popcount_zero(x / 2);
    }
}

/// A mask with one bit is the mask of the item that `low_zeros` names.
pub proof fn lemma_single_is_item(x: u128)
    requires
        is_single(x),
    ensures
        low_zeros(x) < MAX_ITEMS,
        x == item_mask(low_zeros(x) as usize),
    decreases x,
{
    if x % 2 == 1 {
        lemma_popcount_zero(x / 2);
        assert(x == 1);
        assert(1u128 << 0usize == 1) by (bit_vector);
    } else {
        lemma_single_is_item(x / 2);
        let t = low_zeros(x / 2) as u32;
        let t1 = (t + 1) as u32;
        lemma_shift_width(t as usize);
        lemma_double_single(x, t, t1);
        lemma_shift_width(t1 as usize);
    }
}

proof fn lemma_or_with_bit(a: u128, b: u128, c: u128)
    by (bit_vector)
    ensures
        ((a | b) & c != 0) <==> (a & c != 0 || b & c != 0),
        (a | b) | c == (a | c) | b,
        (a | b) | b == a | b,
        0u128 & c == 0,
{
}

/// The common part of two masks does not depend on their order.
pub proof fn lemma_and_commutes(a: u128, b: u128)
    by (bit_vector)
    ensures
        a & b == b & a,
{
}

proof fn lemma_distinct_bits(i: usize, j: usize)
    by (bit_vector)
    requires
        i < 128,
        j < 128,
    ensures
        ((1u128 << i) & (1u128 << j) != 0) <==> i == j,
{
}

/// Different items have different masks.
pub proof fn lemma_masks_differ(i: usize, j: usize)
    requires
        i < MAX_ITEMS,
        j < MAX_ITEMS,
        i != j,
    ensures
        item_mask(i) != item_mask(j),
{
    lemma_distinct_bits(i, j);
    lemma_distinct_bits(i, i);
}

/// A mask has the bit of item `i` exactly if the list holds `i`.
pub proof fn lemma_mask_contains(items: Seq<usize>, i: usize)
    requires
        items_fit(items),
        i < MAX_ITEMS,
    ensures
        (mask_of(items) & item_mask(i) != 0) <==> items.contains(i),
        (item_mask(i) & mask_of(items) != 0) <==> items.contains(i),
    decreases items.len(),
{
    lemma_and_commutes(mask_of(items), item_mask(i));
    if items.len() == 0 {
        lemma_or_with_bit(0, 0, item_mask(i));
    } else {
        let rest = items.drop_last();
        lemma_mask_contains(rest, i);
        lemma_or_with_bit(mask_of(rest), item_mask(items.last()), item_mask(i));
        lemma_distinct_bits(items.last(), i);
        if items.contains(i) {
            let j = choose|j: int| 0 <= j < items.len() && items[j] == i;
            if j < rest.len() {
                assert(rest[j] == i);
            }
        }
        if rest.contains(i) {
            let j = choose|j: int| 0 <= j < rest.len() && rest[j] == i;
            assert(items[j] == i);
        }
        if items.last() == i {
            assert(items[items.len() - 1] == i);
        }
    }
}

/// Adding an item to the end of a list sets its bit.
pub proof fn lemma_mask_push(items: Seq<usize>, x: usize)
    ensures
        mask_of(items.push(x)) == mask_of(items) | item_mask(x),
{
    assert(items.push(x).drop_last() =~= items);
}

/// Taking one member out and setting its bit again gives the mask back.
pub proof fn lemma_mask_remove(items: Seq<usize>, i: int)
    requires
        0 <= i < items.len(),
    ensures
        mask_of(items.remove(i)) | item_mask(items[i]) == mask_of(items),
    decreases items.len(),
{
    let rest = items.drop_last();
    if i == items.len() - 1 {
        assert(items.remove(i) =~= rest);
    } else {
        lemma_mask_remove(rest, i);
        assert(items.remove(i).drop_last() =~= rest.remove(i));
        assert(items.remove(i).last() == items.last());
        lemma_or_with_bit(mask_of(rest.remove(i)), item_mask(items[i]), item_mask(items.last()));
    }
}

/// Lists with the same members, each as often, have the same mask.
pub proof fn lemma_mask_of_multiset(a: Seq<usize>, b: Seq<usize>)
    requires
        a.to_multiset() == b.to_multiset(),
    ensures
        mask_of(a) == mask_of(b),
    decreases a.len(),
{
    broadcast use vstd::seq_lib::group_to_multiset_ensures;

    if a.len() == 0 {
        assert(b.to_multiset().len() == 0);
        assert(b.len() == 0);
    } else {
        let x = a.last();
        assert(a =~= a.drop_last().push(x));
        assert(a.to_multiset().count(x) > 0);
        assert(b.to_multiset().count(x) > 0);
        assert(b.contains(x));
        let i = choose|i: int| 0 <= i < b.len() && b[i] == x;
        assert(a.drop_last().to_multiset() =~= a.to_multiset().remove(x));
        assert(b.remove(i).to_multiset() =~= b.to_multiset().remove(x));
        lemma_mask_of_multiset(a.drop_last(), b.remove(i));
        lemma_mask_remove(b, i);
    }
}

} // verus!

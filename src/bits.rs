//! Sets of cell indices, held in `bit_set::BitSet`.
use vstd::prelude::*;

verus! {

#[verifier::external_type_specification]
#[verifier::external_body]
#[verifier::reject_recursive_types(B)]
pub struct ExBitSet<B>(bit_set::BitSet<B>);

/// The indices that a bit set holds.
pub uninterp spec fn bit_set_items(s: bit_set::BitSet) -> Set<usize>;

/// Relies on `BitSet::new`: the new set holds nothing.
#[verifier::external_body]
pub(crate) fn empty_set() -> (r: bit_set::BitSet)
    ensures
        bit_set_items(r) == Set::<usize>::empty(),
{
    bit_set::BitSet::new()
}

/// Relies on `BitSet::insert`: adds `value`, and tells whether it was absent.
/// It grows the bit vector to `value + 1` bits, so `value` stays below `usize::MAX`.
#[verifier::external_body]
pub(crate) fn set_insert(s: &mut bit_set::BitSet, value: usize) -> (r: bool)
    requires
        value < usize::MAX,
    ensures
        bit_set_items(*final(s)) == bit_set_items(*old(s)).insert(value),
        r == !bit_set_items(*old(s)).contains(value),
{
    s.insert(value)
}

/// Relies on `BitSet::contains`: membership of `value`.
#[verifier::external_body]
pub(crate) fn set_contains(s: &bit_set::BitSet, value: usize) -> (r: bool)
    ensures
        r == bit_set_items(*s).contains(value),
{
    s.contains(value)
}

/// Relies on `BitSet::len`: the number of set bits, that is of indices held.
#[verifier::external_body]
pub(crate) fn set_len(s: &bit_set::BitSet) -> (r: usize)
    ensures
        r == bit_set_items(*s).len(),
{
    s.len()
}

/// Relies on `BitSet::iter`: each index held, once, in increasing order.
#[verifier::external_body]
pub(crate) fn set_to_vec(s: &bit_set::BitSet) -> (r: Vec<usize>)
    ensures
        r@.no_duplicates(),
        r@.to_set() == bit_set_items(*s),
{
    s.iter().collect()
}

} // verus!

//! Bitset wrappers over the `bit-set` and `hibitset` crates.
//!
//! [`ComponentMask`] is a set of component type indices (an archetype's
//! signature), backed by `bit_set::BitSet`. [`MembershipMask`] is a set of
//! entity identifiers (a storage's membership bitset), backed by
//! `hibitset::BitSet`. The contents of each backing set are named by an
//! uninterpreted set-valued function; each operation on the backing set is
//! a trusted function whose contract states what that crate's source
//! shows, and the mask types are verified against those contracts.

use vstd::prelude::*;

verus! {

#[verifier::external_type_specification]
#[verifier::external_body]
pub struct ExHiBitSet(hibitset::BitSet);

/// The set of indices held by a [`ComponentMask`]'s backing
/// `bit_set::BitSet`.
pub uninterp spec fn mask_bits(m: ComponentMask) -> Set<usize>;

/// A set of component type indices, as an archetype's signature. Verus
/// refuses to declare `bit_set::BitSet` itself (its generic parameter is
/// bounded by that crate's `BitBlock` trait), so the collection lives in
/// an opaque struct and every operation is a trusted wrapper.
#[verifier::external_body]
pub struct ComponentMask {
    bits: bit_set::BitSet,
}

/// The set of indices held by a `hibitset::BitSet`.
pub uninterp spec fn live_bits(m: hibitset::BitSet) -> Set<u32>;

/// The largest index the component-mask wrappers accept; keeps
/// `bit_set::BitSet::insert` from growing its bit vector beyond reason.
pub const COMPONENT_INDEX_LIMIT: usize = 0x1000000;

/// The largest identifier the membership-mask wrappers accept:
/// `hibitset::BitSet` holds `usize**4` indices, which is `2.pow(20)` on
/// 32-bit hosts.
pub const MEMBER_ID_LIMIT: u32 = 0x100000;

/// Relies on `hibitset::BitSet::new`: a fresh set holds nothing.
#[verifier::external_body]
fn hibitset_new() -> (r: hibitset::BitSet)
    ensures
        live_bits(r) == Set::<u32>::empty(),
{
    hibitset::BitSet::new()
}

/// Relies on `hibitset::BitSet::add`: sets the bit, reports whether it
/// was already set.
#[verifier::external_body]
fn hibitset_add(m: &mut hibitset::BitSet, id: u32) -> (r: bool)
    requires
        id < MEMBER_ID_LIMIT,
    ensures
        live_bits(*final(m)) == live_bits(*old(m)).insert(id),
        r == live_bits(*old(m)).contains(id),
{
    m.add(id)
}

/// Relies on `hibitset::BitSet::remove`: clears the bit, reports whether
/// it was set.
#[verifier::external_body]
fn hibitset_remove(m: &mut hibitset::BitSet, id: u32) -> (r: bool)
    ensures
        live_bits(*final(m)) == live_bits(*old(m)).remove(id),
        r == live_bits(*old(m)).contains(id),
{
    m.remove(id)
}

/// Relies on `hibitset::BitSet::contains`.
#[verifier::external_body]
fn hibitset_contains(m: &hibitset::BitSet, id: u32) -> (r: bool)
    ensures
        r == live_bits(*m).contains(id),
{
    m.contains(id)
}

/// Relies on `hibitset::BitSet::clear`: wipes every bit.
#[verifier::external_body]
fn hibitset_clear(m: &mut hibitset::BitSet)
    ensures
        live_bits(*final(m)) == Set::<u32>::empty(),
{
    m.clear()
}

impl ComponentMask {
    /// The indices the mask holds.
    pub open spec fn view(&self) -> Set<usize> {
        mask_bits(*self)
    }

    /// Relies on `bit_set::BitSet::new`: a fresh set holds nothing.
    #[verifier::external_body]
    pub fn new() -> (r: Self)
        ensures
            mask_bits(r) == Set::<usize>::empty(),
    {
        ComponentMask { bits: bit_set::BitSet::new() }
    }

    /// Relies on `bit_set::BitSet::insert`: adds the index, reports
    /// whether it was absent.
    #[verifier::external_body]
    pub fn insert(&mut self, value: usize) -> (r: bool)
        requires
            value < COMPONENT_INDEX_LIMIT,
        ensures
            mask_bits(*final(self)) == mask_bits(*old(self)).insert(value),
            r == !mask_bits(*old(self)).contains(value),
    {
        self.bits.insert(value)
    }

    /// Relies on `bit_set::BitSet::contains`.
    #[verifier::external_body]
    pub fn contains(&self, value: usize) -> (r: bool)
        ensures
            r == mask_bits(*self).contains(value),
    {
        self.bits.contains(value)
    }

    /// Relies on `bit_set::BitSet::is_subset`.
    #[verifier::external_body]
    pub fn is_subset(&self, other: &ComponentMask) -> (r: bool)
        ensures
            r == mask_bits(*self).subset_of(mask_bits(*other)),
    {
        self.bits.is_subset(&other.bits)
    }

    /// Relies on `bit_set::BitSet::is_disjoint`: no index in common.
    #[verifier::external_body]
    pub fn is_disjoint(&self, other: &ComponentMask) -> (r: bool)
        ensures
            r == mask_bits(*self).intersect(mask_bits(*other)).is_empty(),
    {
        self.bits.is_disjoint(&other.bits)
    }

    /// Relies on `bit_set::BitSet`'s `PartialEq`, which compares the set
    /// bits and ignores capacity.
    #[verifier::external_body]
    pub fn set_eq(&self, other: &ComponentMask) -> (r: bool)
        ensures
            r == (mask_bits(*self) == mask_bits(*other)),
    {
        self.bits == other.bits
    }

    /// Relies on `bit_set::BitSet`'s `Clone`.
    #[verifier::external_body]
    pub fn clone_mask(&self) -> (r: Self)
        ensures
            mask_bits(r) == mask_bits(*self),
    {
        ComponentMask { bits: self.bits.clone() }
    }

    /// Relies on `bit_set::BitSet::iter`: the set bits, in increasing
    /// order.
    #[verifier::external_body]
    pub fn iter_indices(&self) -> (r: Vec<usize>)
        ensures
            r@.to_set() == mask_bits(*self),
            forall|i: int, j: int| 0 <= i < j < r@.len() ==> r@[i] < r@[j],
    {
        let mut out: Vec<usize> = Vec::new();
        for value in self.bits.iter() {
            out.push(value);
        }
        out
    }
}

/// A set of entity identifiers, as a storage's membership bitset.
pub struct MembershipMask {
    bits: hibitset::BitSet,
}

impl MembershipMask {
    /// The identifiers the mask holds.
    pub closed spec fn view(&self) -> Set<u32> {
        live_bits(self.bits)
    }

    pub fn new() -> (r: Self)
        ensures
            r.view() == Set::<u32>::empty(),
    {
        MembershipMask { bits: hibitset_new() }
    }

    /// Set the bit; reports whether it was already set.
    pub fn add(&mut self, id: u32) -> (r: bool)
        requires
            id < MEMBER_ID_LIMIT,
        ensures
            final(self).view() == old(self).view().insert(id),
            r == old(self).view().contains(id),
    {
        hibitset_add(&mut self.bits, id)
    }

    /// Clear the bit; reports whether it was set.
    pub fn remove(&mut self, id: u32) -> (r: bool)
        ensures
            final(self).view() == old(self).view().remove(id),
            r == old(self).view().contains(id),
    {
        hibitset_remove(&mut self.bits, id)
    }

    pub fn contains(&self, id: u32) -> (r: bool)
        ensures
            r == self.view().contains(id),
    {
        hibitset_contains(&self.bits, id)
    }

    /// Wipe every bit.
    pub fn clear(&mut self)
        ensures
            final(self).view() == Set::<u32>::empty(),
    {
        hibitset_clear(&mut self.bits)
    }
}

} // verus!

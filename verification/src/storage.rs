//! The component storage engine.
//!
//! A [`Storage`] pairs a membership bitset with a backing [`StorageItems`]
//! implementation: the bitset says which identifiers hold data, the items
//! say what the data is. The invariant every operation keeps is that an
//! identifier is in the bitset exactly when its data is present in the
//! items. Four backings with different trade-offs implement the same
//! contract: dense parallel vectors, a sparse vector, a hash map, and a
//! data-free marker store.

use vstd::prelude::*;

pub mod dense_storage;
pub mod hash_map_storage;
pub mod tag_storage;
pub mod vec_storage;

verus! {

/// An identifier a storage keys its data by.
#[derive(Copy, Clone, PartialEq, Eq, Structural, Debug, Hash)]
pub struct Id {
    value: u32,
}

impl Id {
    pub closed spec fn spec_index(self) -> u32 {
        self.value
    }

    pub fn new(value: u32) -> (r: Self)
        ensures
            r.spec_index() == value,
    {
        Id { value }
    }

    pub fn index(self) -> (r: u32)
        ensures
            r == self.spec_index(),
    {
        self.value
    }
}

/// A backing store mapping identifiers to data. The membership set is
/// tracked outside (by [`Storage`]'s bitset) and handed in as a ghost
/// argument.
pub trait StorageItems: Sized {
    type Data;

    /// Which data types the backing accepts: the marker backing keeps no
    /// data and so takes only zero-sized types, where the others take
    /// anything.
    spec fn spec_accepts() -> bool;

    /// Whether the backing is consistent with the given membership set.
    spec fn inv(&self, present: Set<u32>) -> bool;

    /// The stored data, keyed by identifier.
    spec fn view(&self) -> Map<u32, Self::Data>;

    /// Whether this backing faithfully stores each inserted value (the
    /// marker backing does not: it keeps no data at all).
    spec fn models_data() -> bool;

    /// With a consistent backing that models data, the stored keys are
    /// exactly the membership set.
    proof fn inv_implies_dom(&self, present: Set<u32>)
        requires
            self.inv(present),
        ensures
            Self::models_data() ==> self.view().dom() == present,
    ;

    fn empty() -> (r: Self)
        requires
            Self::spec_accepts(),
        ensures
            r.inv(Set::empty()),
            r.view() == Map::<u32, Self::Data>::empty(),
    ;

    /// Store data for an identifier that holds none.
    fn insert(&mut self, id: Id, data: Self::Data, present: Ghost<Set<u32>>)
        requires
            old(self).inv(present@),
            !present@.contains(id.spec_index()),
            id.spec_index() < crate::mask::MEMBER_ID_LIMIT,
        ensures
            final(self).inv(present@.insert(id.spec_index())),
            Self::models_data() ==> final(self).view() == old(self).view().insert(
                id.spec_index(),
                data,
            ),
    ;

    /// Drop the data of an identifier that holds some.
    fn remove(&mut self, id: Id, present: Ghost<Set<u32>>)
        requires
            old(self).inv(present@),
            present@.contains(id.spec_index()),
        ensures
            final(self).inv(present@.remove(id.spec_index())),
            Self::models_data() ==> final(self).view() == old(self).view().remove(
                id.spec_index(),
            ),
    ;

    fn get(&self, id: Id, present: Ghost<Set<u32>>) -> (r: &Self::Data)
        requires
            self.inv(present@),
            present@.contains(id.spec_index()),
        ensures
            Self::models_data() ==> *r == self.view()[id.spec_index()],
    ;

    fn get_mut(&mut self, id: Id, present: Ghost<Set<u32>>) -> (r: &mut Self::Data)
        requires
            old(self).inv(present@),
            present@.contains(id.spec_index()),
        ensures
            Self::models_data() ==> *r == old(self).view()[id.spec_index()],
            final(self).inv(present@),
            Self::models_data() ==> final(self).view() == old(self).view().insert(
                id.spec_index(),
                *final(r),
            ),
    ;

    /// Drop every stored value.
    fn clear(&mut self, present: Ghost<Set<u32>>)
        requires
            old(self).inv(present@),
        ensures
            final(self).inv(Set::empty()),
            final(self).view() == Map::<u32, Self::Data>::empty(),
    ;
}

/// A membership bitset plus a backing store, kept in step.
pub struct Storage<I: StorageItems> {
    mask: crate::mask::MembershipMask,
    items: I,
}

impl<I: StorageItems> Storage<I> {
    /// The identifiers that hold data.
    pub closed spec fn present(&self) -> Set<u32> {
        self.mask.view()
    }

    /// The stored data, keyed by identifier.
    pub closed spec fn view(&self) -> Map<u32, I::Data> {
        self.items.view()
    }

    pub closed spec fn wf(&self) -> bool {
        self.items.inv(self.mask.view())
    }

    /// An identifier holds data exactly when its bit is set, and (for a
    /// data-modeling backing) exactly when the data map has its key.
    pub proof fn lemma_mask_matches_items(&self)
        requires
            self.wf(),
        ensures
            I::models_data() ==> self.view().dom() == self.present(),
    {
        self.items.inv_implies_dom(self.mask.view());
    }

    pub fn new() -> (r: Self)
        requires
            I::spec_accepts(),
        ensures
            r.wf(),
            r.present() == Set::<u32>::empty(),
            r.view() == Map::<u32, I::Data>::empty(),
    {
        Storage { mask: crate::mask::MembershipMask::new(), items: I::empty() }
    }

    /// The membership bitset and the backing, for read access.
    pub fn open(&self) -> (r: (&crate::mask::MembershipMask, &I))
        ensures
            r.0.view() == self.present(),
            *r.1 == self.items_ref(),
    {
        (&self.mask, &self.items)
    }

    pub closed spec fn items_ref(&self) -> I {
        self.items
    }

    /// The membership bitset and the backing, for write access to the
    /// backing. The caller is on its own to leave the backing consistent
    /// with the bitset: later operations require the invariant again.
    pub fn open_mut(&mut self) -> (r: (&crate::mask::MembershipMask, &mut I))
        ensures
            r.0.view() == old(self).present(),
            *r.1 == old(self).items_ref(),
            final(self).items_ref() == *final(r.1),
            final(self).present() == old(self).present(),
    {
        (&self.mask, &mut self.items)
    }

    /// The membership bitset.
    pub fn mask(&self) -> (r: &crate::mask::MembershipMask)
        ensures
            r.view() == self.present(),
    {
        &self.mask
    }

    pub fn contains(&self, id: Id) -> (r: bool)
        ensures
            r == self.present().contains(id.spec_index()),
    {
        self.mask.contains(id.index())
    }

    /// Store data for an identifier that holds none.
    pub fn insert(&mut self, id: Id, data: I::Data)
        requires
            old(self).wf(),
            !old(self).present().contains(id.spec_index()),
            id.spec_index() < crate::mask::MEMBER_ID_LIMIT,
        ensures
            final(self).wf(),
            final(self).present() == old(self).present().insert(id.spec_index()),
            I::models_data() ==> final(self).view() == old(self).view().insert(
                id.spec_index(),
                data,
            ),
    {
        let ghost present = self.mask.view();
        let was_set = self.mask.add(id.index());
        self.items.insert(id, data, Ghost(present));
    }

    /// Drop the data of an identifier that holds some.
    pub fn remove(&mut self, id: Id)
        requires
            old(self).wf(),
            old(self).present().contains(id.spec_index()),
        ensures
            final(self).wf(),
            final(self).present() == old(self).present().remove(id.spec_index()),
            I::models_data() ==> final(self).view() == old(self).view().remove(
                id.spec_index(),
            ),
    {
        let ghost present = self.mask.view();
        let was_set = self.mask.remove(id.index());
        self.items.remove(id, Ghost(present));
    }

    pub fn get(&self, id: Id) -> (r: &I::Data)
        requires
            self.wf(),
            self.present().contains(id.spec_index()),
        ensures
            I::models_data() ==> *r == self.view()[id.spec_index()],
    {
        self.items.get(id, Ghost(self.mask.view()))
    }

    pub fn get_mut(&mut self, id: Id) -> (r: &mut I::Data)
        requires
            old(self).wf(),
            old(self).present().contains(id.spec_index()),
        ensures
            I::models_data() ==> *r == old(self).view()[id.spec_index()],
            final(self).wf(),
            final(self).present() == old(self).present(),
            I::models_data() ==> final(self).view() == old(self).view().insert(
                id.spec_index(),
                *final(r),
            ),
    {
        self.items.get_mut(id, Ghost(self.mask.view()))
    }

    /// Drop every stored value and clear the bitset; safe in any state.
    pub fn clear(&mut self)
        requires
            old(self).wf(),
        ensures
            final(self).wf(),
            final(self).present() == Set::<u32>::empty(),
            final(self).view() == Map::<u32, I::Data>::empty(),
    {
        self.items.clear(Ghost(self.mask.view()));
        self.mask.clear();
    }
}

/// Storing a value and then removing it leaves the data map as it was:
/// an insert/remove round trip on a well-formed storage is a no-op on the
/// view.
pub proof fn lemma_insert_remove_round_trip<K, V>(m: Map<K, V>, k: K, v: V)
    requires
        !m.dom().contains(k),
    ensures
        m.insert(k, v).remove(k) == m,
{
    assert(m.insert(k, v).remove(k) =~= m);
}

} // verus!

//! The marker backing: membership only, no per-identifier data.
//!
//! A tag component carries no information beyond its presence, so this
//! backing keeps a single shared value and lets the bitset do all the
//! work. Construction accepts only zero-sized types (`spec_accepts`);
//! it reports `models_data() == false`: nothing can be said about the
//! value a `get` returns beyond its type.

use vstd::prelude::*;

use crate::storage::StorageItems;

verus! {

pub struct TagStorageItems<T> {
    data: T,
}

pub type TagStorage<D> = crate::storage::Storage<TagStorageItems<D>>;

impl<T: Default> crate::storage::StorageItems for TagStorageItems<T> {
    type Data = T;

    /// The marker backing stores no data, so it takes only zero-sized
    /// types, as the single shared value it hands out then carries no
    /// information. A non-zero-sized type is rejected at construction.
    open spec fn spec_accepts() -> bool {
        vstd::layout::size_of::<T>() == 0
    }

    closed spec fn inv(&self, present: Set<u32>) -> bool {
        true
    }

    closed spec fn view(&self) -> Map<u32, T> {
        Map::empty()
    }

    closed spec fn models_data() -> bool {
        false
    }

    proof fn inv_implies_dom(&self, present: Set<u32>) {
    }

    fn empty() -> (r: Self) {
        TagStorageItems { data: T::default() }
    }

    fn insert(&mut self, id: crate::storage::Id, data: T, present: Ghost<Set<u32>>) {
    }

    fn remove(&mut self, id: crate::storage::Id, present: Ghost<Set<u32>>) {
    }

    fn get(&self, id: crate::storage::Id, present: Ghost<Set<u32>>) -> (r: &T) {
        &self.data
    }

    fn get_mut(&mut self, id: crate::storage::Id, present: Ghost<Set<u32>>) -> (r: &mut T) {
        &mut self.data
    }

    fn clear(&mut self, present: Ghost<Set<u32>>) {
    }
}

} // verus!

//! The hash-map backing: the generic fallback with no layout
//! assumptions about identifiers.

use std::collections::HashMap;

use vstd::prelude::*;

use crate::storage::StorageItems;

verus! {

broadcast use vstd::std_specs::hash::group_hash_axioms;

pub struct HashMapStorageItems<D> {
    data: HashMap<u32, D>,
}

pub type HashMapStorage<D> = crate::storage::Storage<HashMapStorageItems<D>>;

/// Relies on std's `HashMap::get_mut` (which vstd does not specify):
/// exclusive access to the value stored under a present key.
#[verifier::external_body]
fn hash_map_get_mut<V>(m: &mut HashMap<u32, V>, k: u32) -> (r: &mut V)
    requires
        old(m)@.contains_key(k),
    ensures
        *r == old(m)@[k],
        final(m)@ == old(m)@.insert(k, *final(r)),
{
    m.get_mut(&k).unwrap()
}

impl<D> crate::storage::StorageItems for HashMapStorageItems<D> {
    type Data = D;

    open spec fn spec_accepts() -> bool {
        true
    }

    closed spec fn inv(&self, present: Set<u32>) -> bool {
        self.data@.dom() == present
    }

    closed spec fn view(&self) -> Map<u32, D> {
        self.data@
    }

    closed spec fn models_data() -> bool {
        true
    }

    proof fn inv_implies_dom(&self, present: Set<u32>) {
    }

    fn empty() -> (r: Self) {
        let r = HashMapStorageItems { data: HashMap::new() };
        proof {
            assert(r.data@.dom() =~= Set::<u32>::empty());
        }
        r
    }

    fn insert(&mut self, id: crate::storage::Id, data: D, present: Ghost<Set<u32>>) {
        let _ = self.data.insert(id.index(), data);
        proof {
            assert(self.data@.dom() =~= present@.insert(id.spec_index()));
        }
    }

    fn remove(&mut self, id: crate::storage::Id, present: Ghost<Set<u32>>) {
        let _ = self.data.remove(&id.index());
        proof {
            assert(self.data@.dom() =~= present@.remove(id.spec_index()));
        }
    }

    fn get(&self, id: crate::storage::Id, present: Ghost<Set<u32>>) -> (r: &D) {
        match self.data.get(&id.index()) {
            Some(v) => v,
            None => {
                proof {
                    assert(false);
                }
                unreached()
            },
        }
    }

    fn get_mut(&mut self, id: crate::storage::Id, present: Ghost<Set<u32>>) -> (r: &mut D) {
        let ghost m0 = self.data@;
        let ghost kk = id.spec_index();
        proof {
            assert forall|v: D| (#[trigger] m0.insert(kk, v)).dom() == present@ by {
                assert(m0.insert(kk, v).dom() =~= m0.dom());
            }
        }
        hash_map_get_mut(&mut self.data, id.index())
    }

    fn clear(&mut self, present: Ghost<Set<u32>>) {
        self.data.clear();
        proof {
            assert(self.data@.dom() =~= Set::<u32>::empty());
            assert(self.data@ =~= Map::<u32, D>::empty());
        }
    }
}

} // verus!

//! The sparse-vector backing: data at offset `identifier - base`, the
//! base sliding down when a smaller identifier arrives, with every
//! existing payload moving up by the gap.

use vstd::prelude::*;

use crate::storage::StorageItems;

verus! {

pub struct VecStorageItems<D> {
    base_id: Option<u32>,
    data: Vec<Option<D>>,
}

pub type VecStorage<D> = crate::storage::Storage<VecStorageItems<D>>;

impl<D> VecStorageItems<D> {
    /// Rebase to a smaller base: slide every payload up by the gap, so
    /// offset zero now means the new base identifier.
    fn rebase_to(&mut self, new_base: u32, present: Ghost<Set<u32>>)
        requires
            old(self).inv(present@),
            (old(self).base_id matches Some(b) && new_base < b),
        ensures
            final(self).inv(present@),
            final(self).view() == old(self).view(),
            final(self).base_id == Some(new_base),
            final(self).data@.len() >= old(self).data@.len(),
    {
        let b = match self.base_id {
            Some(b) => b,
            None => 0,
        };
        let delta = b - new_base;
        let mut slid: Vec<Option<D>> = Vec::new();
        let mut k: u32 = 0;
        while k < delta
            invariant
                k <= delta,
                slid@.len() == k,
                forall|j: int| 0 <= j < k ==> (#[trigger] slid@[j]) is None,
            decreases delta - k,
        {
            slid.push(None);
            k = k + 1;
        }
        let ghost padding = slid@;
        slid.append(&mut self.data);
        self.data = slid;
        self.base_id = Some(new_base);
        proof {
            let pre = *old(self);
            assert(self.data@ =~= padding + pre.data@);
            assert forall|j: int|
                0 <= j < self.data@.len() && (#[trigger] self.data@[j]) is Some implies new_base
                + j <= u32::MAX && present@.contains((new_base + j) as u32) by {
                assert(j >= delta);
                assert(self.data@[j] == pre.data@[j - delta]);
            }
            assert forall|id: u32| #[trigger] present@.contains(id) implies (new_base <= id && id
                - new_base < self.data@.len() && self.data@[id - new_base] is Some) by {
                assert(self.data@[id - new_base] == pre.data@[id - b]);
            }
            assert forall|id: u32|
                self.view().dom().contains(id) == pre.view().dom().contains(id) && (
                self.view().dom().contains(id) ==> self.view()[id] == pre.view()[id]) by {
                if new_base <= id && id - new_base < self.data@.len() {
                    if id >= b {
                        assert(self.data@[id - new_base] == pre.data@[id - b]);
                    } else {
                        assert(id - new_base < delta);
                        assert(self.data@[id - new_base] is None);
                    }
                }
            }
            assert(self.view() =~= pre.view());
        }
    }

    /// Grow the payload vector with empty slots until it covers `offset`.
    fn grow_to(&mut self, offset: usize, present: Ghost<Set<u32>>)
        requires
            old(self).inv(present@),
            offset < usize::MAX,
        ensures
            final(self).inv(present@),
            final(self).view() == old(self).view(),
            final(self).base_id == old(self).base_id,
            final(self).data@.len() > offset,
    {
        let ghost pre = *old(self);
        while self.data.len() <= offset
            invariant
                offset < usize::MAX,
                self.base_id == pre.base_id,
                pre.data@.len() <= self.data@.len(),
                self.data@ =~= pre.data@ + Seq::new(
                    (self.data@.len() - pre.data@.len()) as nat,
                    |j: int| Option::<D>::None,
                ),
            decreases offset + 1 - self.data@.len(),
        {
            self.data.push(None);
            proof {
                assert(self.data@ =~= pre.data@ + Seq::new(
                    (self.data@.len() - pre.data@.len()) as nat,
                    |j: int| Option::<D>::None,
                ));
            }
        }
        proof {
            assert forall|j: int|
                0 <= j < self.data@.len() && (#[trigger] self.data@[j]) is Some implies (
            self.base_id matches Some(b) && b + j <= u32::MAX && present@.contains(
                (b + j) as u32,
            )) by {
                assert(j < pre.data@.len());
                assert(self.data@[j] == pre.data@[j]);
            }
            assert forall|id: u32|
                self.view().dom().contains(id) == pre.view().dom().contains(id) && (
                self.view().dom().contains(id) ==> self.view()[id] == pre.view()[id]) by {
                let b = self.base_id->Some_0;
                if self.base_id is Some && b <= id && id - b < self.data@.len() && id - b
                    >= pre.data@.len() {
                    assert(self.data@[id - b] is None);
                }
            }
            assert(self.view() =~= pre.view());
        }
    }
}

impl<D> crate::storage::StorageItems for VecStorageItems<D> {
    type Data = D;

    open spec fn spec_accepts() -> bool {
        true
    }

    closed spec fn inv(&self, present: Set<u32>) -> bool {
        &&& forall|id: u32|
            #[trigger] present.contains(id) ==> (self.base_id matches Some(b) && b <= id && id - b
                < self.data@.len() && self.data@[id - b] is Some)
        &&& forall|j: int|
            0 <= j < self.data@.len() && (#[trigger] self.data@[j]) is Some ==> (
            self.base_id matches Some(b) && b + j <= u32::MAX && present.contains((b + j) as u32))
    }

    closed spec fn view(&self) -> Map<u32, D> {
        Map::new(
            |id: u32|
                self.base_id matches Some(b) && b <= id && id - b < self.data@.len()
                    && self.data@[id - b] is Some,
            |id: u32| self.data@[id - self.base_id->Some_0]->Some_0,
        )
    }

    closed spec fn models_data() -> bool {
        true
    }

    proof fn inv_implies_dom(&self, present: Set<u32>) {
        assert forall|id: u32| #[trigger]
            self.view().dom().contains(id) implies present.contains(id) by {
            let b = self.base_id->Some_0;
            assert(self.data@[id - b] is Some);
        }
        assert(self.view().dom() =~= present);
    }

    fn empty() -> (r: Self) {
        let r = VecStorageItems { base_id: None, data: Vec::new() };
        proof {
            assert(r.view() =~= Map::<u32, D>::empty());
        }
        r
    }

    fn insert(&mut self, id: crate::storage::Id, data: D, present: Ghost<Set<u32>>) {
        let idv = id.index();
        match self.base_id {
            None => {
                // Without a base nothing is stored: every slot is empty.
                proof {
                    assert forall|j: int|
                        0 <= j < self.data@.len() implies !((#[trigger] self.data@[j])
                        is Some) by {}
                }
                self.base_id = Some(idv);
            },
            Some(b) => {
                if idv < b {
                    self.rebase_to(idv, present);
                }
            },
        };
        let ghost mid = *self;
        let base = match self.base_id {
            Some(b) => b,
            None => 0,
        };
        let offset = (idv - base) as usize;
        self.grow_to(offset, present);
        let ghost grown = *self;
        let slot = &mut self.data[offset];
        *slot = Some(data);
        proof {
            assert(self.data@ =~= grown.data@.update(offset as int, Some(data)));
            assert forall|id2: u32| #[trigger]
                present@.insert(idv).contains(id2) implies (self.base_id matches Some(b2) && b2
                <= id2 && id2 - b2 < self.data@.len() && self.data@[id2 - b2] is Some) by {
                if id2 != idv {
                    assert(present@.contains(id2));
                    assert(grown.data@[id2 - base] is Some);
                }
            }
            assert forall|j: int|
                0 <= j < self.data@.len() && (#[trigger] self.data@[j]) is Some implies (base + j
                <= u32::MAX && present@.insert(idv).contains((base + j) as u32)) by {
                if j != offset {
                    assert(self.data@[j] == grown.data@[j]);
                }
            }
            assert forall|id2: u32|
                self.view().dom().contains(id2) == grown.view().insert(idv, data).dom().contains(
                    id2,
                ) && (self.view().dom().contains(id2) ==> self.view()[id2] == grown.view().insert(
                    idv,
                    data,
                )[id2]) by {
                if id2 != idv {
                    if grown.base_id is Some && base <= id2 && id2 - base < self.data@.len() {
                        assert(self.data@[id2 - base] == grown.data@[id2 - base]);
                    }
                }
            }
            assert(self.view() =~= grown.view().insert(idv, data));
        }
    }

    fn remove(&mut self, id: crate::storage::Id, present: Ghost<Set<u32>>) {
        let ghost pre = *self;
        let idv = id.index();
        let base = match self.base_id {
            Some(b) => b,
            None => 0,
        };
        let offset = (idv - base) as usize;
        let slot = &mut self.data[offset];
        *slot = None;
        proof {
            assert(self.data@ =~= pre.data@.update(offset as int, Option::<D>::None));
            assert forall|id2: u32| #[trigger]
                present@.remove(idv).contains(id2) implies (self.base_id matches Some(b2) && b2
                <= id2 && id2 - b2 < self.data@.len() && self.data@[id2 - b2] is Some) by {
                assert(self.data@[id2 - base] == pre.data@[id2 - base]);
            }
            assert forall|j: int|
                0 <= j < self.data@.len() && (#[trigger] self.data@[j]) is Some implies (base + j
                <= u32::MAX && present@.remove(idv).contains((base + j) as u32)) by {
                assert(j != offset);
                assert(self.data@[j] == pre.data@[j]);
            }
            assert forall|id2: u32|
                self.view().dom().contains(id2) == pre.view().remove(idv).dom().contains(id2) && (
                self.view().dom().contains(id2) ==> self.view()[id2] == pre.view().remove(
                    idv,
                )[id2]) by {
                if id2 != idv && pre.base_id is Some && base <= id2 && id2 - base
                    < self.data@.len() {
                    assert(self.data@[id2 - base] == pre.data@[id2 - base]);
                }
            }
            assert(self.view() =~= pre.view().remove(idv));
        }
    }

    fn get(&self, id: crate::storage::Id, present: Ghost<Set<u32>>) -> (r: &D) {
        let base = match self.base_id {
            Some(b) => b,
            None => 0,
        };
        let offset = (id.index() - base) as usize;
        match &self.data[offset] {
            Some(v) => v,
            None => unreached(),
        }
    }

    fn get_mut(&mut self, id: crate::storage::Id, present: Ghost<Set<u32>>) -> (r: &mut D) {
        let ghost pre = *self;
        let base = match self.base_id {
            Some(b) => b,
            None => 0,
        };
        let idv = id.index();
        let offset = (idv - base) as usize;
        let slot = &mut self.data[offset];
        match slot {
            Some(v) => {
                proof {
                    assert(pre.view()[idv] == pre.data@[offset as int]->Some_0);
                }
                v
            },
            None => unreached(),
        }
    }

    fn clear(&mut self, present: Ghost<Set<u32>>) {
        self.base_id = None;
        self.data = Vec::new();
        proof {
            assert(self.view() =~= Map::<u32, D>::empty());
        }
    }
}

} // verus!

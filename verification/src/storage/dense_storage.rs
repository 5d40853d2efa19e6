//! The dense backing: values packed in a contiguous vector, a parallel
//! vector of their identifiers, and an identifier-to-position table at
//! offset `identifier - base`. Removal swap-removes and repoints the
//! table entry of the displaced last element.

use vstd::map::*;
use vstd::prelude::*;

use crate::storage::StorageItems;

verus! {

pub struct DenseStorageItems<D> {
    pub base_id: Option<u32>,
    pub indices: Vec<usize>,
    pub data: Vec<D>,
    pub data_id: Vec<u32>,
}

pub type DenseStorage<D> = crate::storage::Storage<DenseStorageItems<D>>;

/// An element of a duplicate-free sequence sits at its `index_of`.
proof fn lemma_index_of_unique(s: Seq<u32>, j: int)
    requires
        s.no_duplicates(),
        0 <= j < s.len(),
    ensures
        s.index_of(s[j]) == j,
{
    let x = s[j];
    assert(s.contains(x));
    let j2 = s.index_of(x);
    assert(0 <= j2 < s.len() && s[j2] == x);
    if j != j2 {
        assert(s[j] == s[j2]);
    }
}

impl<D> DenseStorageItems<D> {
    /// The packed position an identifier's value sits at.
    pub open spec fn pos_of(&self, id: u32) -> int {
        self.data_id@.index_of(id)
    }
}

impl<D> crate::storage::StorageItems for DenseStorageItems<D> {
    type Data = D;

    open spec fn spec_accepts() -> bool {
        true
    }

    open spec fn inv(&self, present: Set<u32>) -> bool {
        &&& self.data@.len() == self.data_id@.len()
        &&& self.data_id@.no_duplicates()
        &&& forall|i: int|
            0 <= i < self.data_id@.len() ==> present.contains(#[trigger] self.data_id@[i])
        &&& forall|id: u32| #[trigger] present.contains(id) ==> self.data_id@.contains(id)
        &&& forall|i: int|
            0 <= i < self.data_id@.len() ==> (self.base_id matches Some(b) && b <= (
            #[trigger] self.data_id@[i]) && self.data_id@[i] - b < self.indices@.len()
                && self.indices@[self.data_id@[i] - b] == i)
    }

    open spec fn view(&self) -> Map<u32, D> {
        Map::new(
            |id: u32| self.data_id@.contains(id),
            |id: u32| self.data@[self.data_id@.index_of(id)],
        )
    }

    open spec fn models_data() -> bool {
        true
    }

    proof fn inv_implies_dom(&self, present: Set<u32>) {
        assert(self.view().dom() =~= present);
    }

    fn empty() -> (r: Self) {
        let r = DenseStorageItems {
            base_id: None,
            indices: Vec::new(),
            data: Vec::new(),
            data_id: Vec::new(),
        };
        proof {
            assert(r.view() =~= Map::<u32, D>::empty());
        }
        r
    }

    fn insert(&mut self, id: crate::storage::Id, data: D, present: Ghost<Set<u32>>) {
        let ghost pre = *self;
        let ghost dv = data;
        let idv = id.index();
        let index_in_data = self.data.len();
        self.data.push(data);
        self.data_id.push(idv);
        // Choose the base, sliding the position table up when a smaller
        // identifier arrives.
        let base = match self.base_id {
            None => {
                self.base_id = Some(idv);
                idv
            },
            Some(b) => {
                if idv < b {
                    let delta = b - idv;
                    let mut slid: Vec<usize> = Vec::new();
                    let mut k: u32 = 0;
                    while k < delta
                        invariant
                            k <= delta,
                            slid@.len() == k,
                        decreases delta - k,
                    {
                        slid.push(0);
                        k = k + 1;
                    }
                    let ghost padding = slid@;
                    slid.append(&mut self.indices);
                    proof {
                        assert(slid@ =~= padding + pre.indices@);
                    }
                    self.indices = slid;
                    self.base_id = Some(idv);
                    idv
                } else {
                    b
                }
            },
        };
        let ghost mid_indices = self.indices@;
        let ghost mid_data = self.data@;
        let ghost mid_data_id = self.data_id@;
        let ghost delta: int = if base == idv && pre.base_id is Some && idv < pre.base_id->Some_0 {
            pre.base_id->Some_0 - base
        } else {
            0
        };
        let offset = (idv - base) as usize;
        while self.indices.len() <= offset
            invariant
                offset < 0x100000,
                self.data@ == mid_data,
                self.data_id@ == mid_data_id,
                self.base_id == Some(base),
                mid_indices.len() <= self.indices@.len(),
                mid_indices =~= self.indices@.take(mid_indices.len() as int),
            decreases offset + 1 - self.indices@.len(),
        {
            self.indices.push(0);
            proof {
                assert(mid_indices =~= self.indices@.take(mid_indices.len() as int));
            }
        }
        self.indices[offset] = index_in_data;
        proof {
            let psep = present@;
            assert(self.data_id@ == pre.data_id@.push(idv));
            assert(!pre.data_id@.contains(idv));
            assert(self.data_id@.no_duplicates()) by {
                assert forall|i: int, j: int|
                    0 <= i < self.data_id@.len() && 0 <= j < self.data_id@.len() && i
                        != j implies self.data_id@[i] != self.data_id@[j] by {
                    if i < pre.data_id@.len() && j < pre.data_id@.len() {
                    } else if i < pre.data_id@.len() {
                        assert(pre.data_id@.contains(pre.data_id@[i]));
                    } else if j < pre.data_id@.len() {
                        assert(pre.data_id@.contains(pre.data_id@[j]));
                    }
                }
            };
            // Every old table entry is reachable at its shifted offset.
            assert forall|i: int|
                0 <= i < self.data_id@.len() implies (self.base_id matches Some(b2) && b2 <= (
            #[trigger] self.data_id@[i]) && self.data_id@[i] - b2 < self.indices@.len()
                && self.indices@[self.data_id@[i] - b2] == i) by {
                if i < pre.data_id@.len() {
                    let id2 = pre.data_id@[i];
                    assert(self.data_id@[i] == id2);
                    assert(pre.indices@[id2 - pre.base_id->Some_0] == i);
                    assert(id2 - base == id2 - pre.base_id->Some_0 + delta);
                    assert(mid_indices[id2 - base] == pre.indices@[id2 - pre.base_id->Some_0]);
                    assert(id2 - base != offset);
                    assert(self.indices@[id2 - base] == mid_indices[id2 - base]);
                } else {
                    assert(self.data_id@[i] == idv && i == index_in_data);
                    assert(self.indices@[offset as int] == index_in_data);
                }
            }
            assert forall|id2: u32| #[trigger]
                psep.insert(idv).contains(id2) implies self.data_id@.contains(id2) by {
                if id2 == idv {
                    assert(self.data_id@[self.data_id@.len() - 1] == idv);
                } else {
                    let i = choose|i: int|
                        0 <= i < pre.data_id@.len() && pre.data_id@[i] == id2;
                    assert(self.data_id@[i] == id2);
                }
            }
            assert(self.inv(psep.insert(idv)));
            // The data map gains exactly the new pair.
            let mv = self.view();
            let tv = pre.view().insert(idv, dv);
            assert_maps_equal!(mv, tv, id2 => {
                if self.data_id@.contains(id2) {
                    let j = choose|j: int|
                        0 <= j < self.data_id@.len() && self.data_id@[j] == id2;
                    lemma_index_of_unique(self.data_id@, j);
                    if j < pre.data_id@.len() {
                        assert(pre.data_id@[j] == id2);
                        lemma_index_of_unique(pre.data_id@, j);
                        assert(self.data@[j] == pre.data@[j]);
                    } else {
                        assert(id2 == idv);
                        assert(j == self.data_id@.len() - 1);
                        assert(self.data@[j] == dv);
                    }
                } else if pre.data_id@.contains(id2) {
                    let j = choose|j: int|
                        0 <= j < pre.data_id@.len() && pre.data_id@[j] == id2;
                    assert(self.data_id@[j] == id2);
                } else if id2 == idv {
                    assert(self.data_id@[self.data_id@.len() - 1] == idv);
                }
            });
        }
    }

    fn remove(&mut self, id: crate::storage::Id, present: Ghost<Set<u32>>) {
        let ghost pre = *self;
        let idv = id.index();
        proof {
            assert(pre.data_id@.contains(idv));
            let i0 = choose|i: int| 0 <= i < pre.data_id@.len() && pre.data_id@[i] == idv;
            lemma_index_of_unique(pre.data_id@, i0);
        }
        let base = match self.base_id {
            Some(b) => b,
            None => 0,
        };
        let offset = (idv - base) as usize;
        let index_in_data = self.indices[offset];
        proof {
            lemma_index_of_unique(pre.data_id@, pre.pos_of(idv));
            assert(pre.indices@[idv - base] == pre.pos_of(idv)) by {
                assert(pre.data_id@[pre.pos_of(idv)] == idv);
            };
        }
        let last_id = self.data_id[self.data_id.len() - 1];
        let _ = self.data.swap_remove(index_in_data);
        let _ = self.data_id.swap_remove(index_in_data);
        self.indices[(last_id - base) as usize] = index_in_data;
        proof {
            let psep = present@;
            let n = pre.data_id@.len();
            let i = index_in_data as int;
            assert(pre.data_id@[i] == idv);
            assert(self.data_id@ == pre.data_id@.update(i, pre.data_id@[n - 1]).drop_last());
            assert(self.data@ == pre.data@.update(i, pre.data@[n - 1]).drop_last());
            assert(pre.data_id@[n - 1] == last_id);
            // Pairs after the removal: position i holds the displaced
            // last pair, every other position is unchanged.
            assert forall|j: int| 0 <= j < n - 1 implies self.data_id@[j] == (if j == i {
                last_id
            } else {
                pre.data_id@[j]
            }) && self.data@[j] == (if j == i {
                pre.data@[n - 1]
            } else {
                pre.data@[j]
            }) by {}
            assert(self.data_id@.no_duplicates()) by {
                assert forall|j: int, k: int|
                    0 <= j < self.data_id@.len() && 0 <= k < self.data_id@.len() && j
                        != k implies self.data_id@[j] != self.data_id@[k] by {
                    if self.data_id@[j] == self.data_id@[k] {
                        if j == i {
                            assert(pre.data_id@[n - 1] == pre.data_id@[k]);
                        } else if k == i {
                            assert(pre.data_id@[n - 1] == pre.data_id@[j]);
                        } else {
                            assert(pre.data_id@[j] == pre.data_id@[k]);
                        }
                    }
                }
            };
            assert forall|id2: u32| #[trigger]
                psep.remove(idv).contains(id2) implies self.data_id@.contains(id2) by {
                let j = choose|j: int| 0 <= j < n && pre.data_id@[j] == id2;
                if j == n - 1 {
                    if i < n - 1 {
                        assert(self.data_id@[i] == id2);
                    } else {
                        assert(pre.data_id@[i] == idv);
                    }
                } else if j == i {
                    assert(pre.data_id@[j] == idv);
                } else {
                    assert(self.data_id@[j] == id2);
                }
            }
            assert forall|j: int|
                0 <= j < self.data_id@.len() implies psep.remove(idv).contains(
                #[trigger] self.data_id@[j]) by {
                if j == i {
                    assert(pre.data_id@.contains(last_id));
                    if last_id == idv {
                        assert(pre.data_id@[n - 1] == idv && pre.data_id@[i] == idv);
                        assert(i == n - 1);
                    }
                } else {
                    assert(pre.data_id@.contains(pre.data_id@[j]));
                    if pre.data_id@[j] == idv {
                        assert(pre.data_id@[i] == idv);
                    }
                }
            }
            // Table entries: the displaced pair was repointed, the rest
            // kept their entries.
            assert forall|j: int|
                0 <= j < self.data_id@.len() implies (self.base_id matches Some(b2) && b2 <= (
            #[trigger] self.data_id@[j]) && self.data_id@[j] - b2 < self.indices@.len()
                && self.indices@[self.data_id@[j] - b2] == j) by {
                if j == i {
                    assert(self.data_id@[j] == last_id);
                    assert(pre.base_id->Some_0 <= last_id && last_id - base
                        < pre.indices@.len());
                } else {
                    let id2 = pre.data_id@[j];
                    assert(self.data_id@[j] == id2);
                    assert(pre.indices@[id2 - base] == j);
                    if id2 == last_id {
                        assert(pre.data_id@[n - 1] == id2);
                        assert(j == n - 1);
                        assert(j < self.data_id@.len());
                        assert(false);
                    }
                    assert(id2 - base != last_id - base);
                    assert(self.indices@[id2 - base] == pre.indices@[id2 - base]);
                }
            }
            assert(self.inv(psep.remove(idv)));
            assert forall|id2: u32|
                self.view().dom().contains(id2) == pre.view().remove(idv).dom().contains(id2)
                    && (self.view().dom().contains(id2) ==> self.view()[id2]
                    == pre.view().remove(idv)[id2]) by {
                if self.data_id@.contains(id2) {
                    let j = choose|j: int|
                        0 <= j < self.data_id@.len() && self.data_id@[j] == id2;
                    lemma_index_of_unique(self.data_id@, j);
                    if j == i {
                        assert(id2 == last_id);
                        lemma_index_of_unique(pre.data_id@, n - 1);
                        assert(self.data@[j] == pre.data@[n - 1]);
                        assert(id2 != idv) by {
                            if last_id == idv {
                                assert(i == n - 1);
                            }
                        };
                    } else {
                        assert(pre.data_id@[j] == id2);
                        lemma_index_of_unique(pre.data_id@, j);
                        assert(self.data@[j] == pre.data@[j]);
                        assert(id2 != idv) by {
                            if id2 == idv {
                                assert(pre.data_id@[i] == idv);
                            }
                        };
                    }
                } else if pre.data_id@.contains(id2) && id2 != idv {
                    let j = choose|j: int| 0 <= j < n && pre.data_id@[j] == id2;
                    if j == n - 1 {
                        if i < n - 1 {
                            assert(self.data_id@[i] == id2);
                        } else {
                            assert(pre.data_id@[i] == idv);
                        }
                    } else if j == i {
                        assert(pre.data_id@[j] == idv);
                    } else {
                        assert(self.data_id@[j] == id2);
                    }
                }
            }
            assert(self.view() =~= pre.view().remove(idv));
        }
    }

    fn get(&self, id: crate::storage::Id, present: Ghost<Set<u32>>) -> (r: &D) {
        proof {
            let i0 = choose|i: int|
                0 <= i < self.data_id@.len() && self.data_id@[i] == id.spec_index();
            lemma_index_of_unique(self.data_id@, i0);
        }
        let base = match self.base_id {
            Some(b) => b,
            None => 0,
        };
        let offset = (id.index() - base) as usize;
        let index_in_data = self.indices[offset];
        &self.data[index_in_data]
    }

    fn get_mut(&mut self, id: crate::storage::Id, present: Ghost<Set<u32>>) -> (r: &mut D) {
        let ghost pre = *self;
        proof {
            let i0 = choose|i: int|
                0 <= i < self.data_id@.len() && self.data_id@[i] == id.spec_index();
            lemma_index_of_unique(self.data_id@, i0);
        }
        let base = match self.base_id {
            Some(b) => b,
            None => 0,
        };
        let offset = (id.index() - base) as usize;
        let index_in_data = self.indices[offset];
        &mut self.data[index_in_data]
    }

    fn clear(&mut self, present: Ghost<Set<u32>>) {
        self.base_id = None;
        self.indices = Vec::new();
        self.data = Vec::new();
        self.data_id = Vec::new();
        proof {
            assert(self.view() =~= Map::<u32, D>::empty());
        }
    }
}

} // verus!

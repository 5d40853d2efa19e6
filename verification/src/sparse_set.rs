//! A sparse set: contiguous element and entity vectors plus an
//! entity-to-position map, for cache-friendly iteration with O(1)
//! insertion and swap-removal.

use std::collections::HashMap;

use vstd::prelude::*;

use crate::entity::Entity;

verus! {

broadcast use vstd::std_specs::hash::group_hash_axioms;

pub struct SparseSet<T> {
    data: Vec<T>,
    entities: Vec<Entity>,
    entity_to_index: HashMap<u64, usize>,
}

impl<T> SparseSet<T> {
    /// The stored elements, keyed by entity identifier.
    pub closed spec fn view(&self) -> Map<u64, T> {
        Map::new(
            |id: u64| self.entity_to_index@.dom().contains(id),
            |id: u64| self.data@[self.entity_to_index@[id] as int],
        )
    }

    pub closed spec fn wf(&self) -> bool {
        &&& self.data@.len() == self.entities@.len()
        &&& forall|id: u64|
            #[trigger] self.entity_to_index@.dom().contains(id) ==> {
                let p = self.entity_to_index@[id] as int;
                &&& 0 <= p < self.entities@.len()
                &&& self.entities@[p].spec_id() == id
            }
        &&& forall|p: int|
            0 <= p < self.entities@.len() ==> {
                let e = #[trigger] self.entities@[p];
                &&& self.entity_to_index@.dom().contains(e.spec_id())
                &&& self.entity_to_index@[e.spec_id()] == p
            }
    }

    pub fn new() -> (r: Self)
        ensures
            r.wf(),
            r.view() == Map::<u64, T>::empty(),
    {
        let r = SparseSet { data: Vec::new(), entities: Vec::new(), entity_to_index: HashMap::new() };
        proof {
            assert(r.view() =~= Map::<u64, T>::empty());
        }
        r
    }

    /// How many elements are stored.
    pub fn len(&self) -> (r: usize)
        requires
            self.wf(),
        ensures
            r == self.view().dom().len(),
    {
        proof {
            assert(self.view().dom() =~= self.entity_to_index@.dom());
        }
        self.entity_to_index.len()
    }

    pub fn contains(&self, entity: Entity) -> (r: bool)
        requires
            self.wf(),
        ensures
            r == self.view().dom().contains(entity.spec_id()),
    {
        self.entity_to_index.contains_key(&entity.id())
    }

    /// The stored entities, in iteration order.
    pub fn iter(&self) -> (r: Vec<Entity>)
        requires
            self.wf(),
        ensures
            r@ == self.entities_seq(),
            forall|e: Entity| r@.contains(e) <==> self.view().dom().contains(e.spec_id()),
    {
        let mut out: Vec<Entity> = Vec::new();
        let mut p: usize = 0;
        while p < self.entities.len()
            invariant
                self.wf(),
                0 <= p <= self.entities@.len(),
                out@ == self.entities@.take(p as int),
            decreases self.entities@.len() - p,
        {
            out.push(self.entities[p]);
            p = p + 1;
            proof {
                assert(out@ =~= self.entities@.take(p as int));
            }
        }
        proof {
            assert(out@ =~= self.entities@);
            assert forall|e: Entity|
                out@.contains(e) <==> self.view().dom().contains(e.spec_id()) by {
                if out@.contains(e) {
                    let p2 = choose|p2: int|
                        0 <= p2 < self.entities@.len() && self.entities@[p2] == e;
                    assert(self.entity_to_index@.dom().contains(e.spec_id()));
                }
                if self.view().dom().contains(e.spec_id()) {
                    let p2 = self.entity_to_index@[e.spec_id()] as int;
                    assert(self.entities@[p2].spec_id() == e.spec_id());
                    Entity::lemma_id_injective(self.entities@[p2], e);
                    assert(out@[p2] == e);
                }
            }
        }
        out
    }

    /// The stored entities as the spec sees them.
    pub closed spec fn entities_seq(&self) -> Seq<Entity> {
        self.entities@
    }

    /// The stored entities together with read access to the elements.
    pub fn open(&self) -> (r: (Vec<Entity>, &SparseSet<T>))
        requires
            self.wf(),
        ensures
            r.0@ == self.entities_seq(),
            r.1 == self,
    {
        (self.iter(), self)
    }

    /// The stored entities together with write access to the elements.
    pub fn open_mut(&mut self) -> (r: (Vec<Entity>, &mut SparseSet<T>))
        requires
            old(self).wf(),
        ensures
            r.0@ == old(self).entities_seq(),
            *r.1 == *old(self),
            *final(self) == *final(r.1),
    {
        let listed = self.iter();
        (listed, self)
    }

    /// The element an entity holds, if any.
    pub fn fetch_elem(&self, entity: Entity) -> (r: Option<&T>)
        requires
            self.wf(),
        ensures
            r is Some <==> self.view().dom().contains(entity.spec_id()),
            r matches Some(v) ==> *v == self.view()[entity.spec_id()],
    {
        match self.entity_to_index.get(&entity.id()) {
            Some(p) => Some(&self.data[*p]),
            None => None,
        }
    }

    /// Exclusive access to the element an entity holds, if any.
    pub fn fetch_elem_mut(&mut self, entity: Entity) -> (r: Option<&mut T>)
        requires
            old(self).wf(),
        ensures
            r is Some <==> old(self).view().dom().contains(entity.spec_id()),
            r matches Some(v) ==> {
                &&& *v == old(self).view()[entity.spec_id()]
                &&& final(self).wf()
                &&& final(self).view() == old(self).view().insert(
                    entity.spec_id(),
                    *final(v),
                )
                &&& final(self).entities_seq() == old(self).entities_seq()
            },
            r is None ==> *final(self) == *old(self),
    {
        let p = match self.entity_to_index.get(&entity.id()) {
            Some(p) => *p,
            None => {
                return None;
            },
        };
        let ghost pre = *self;
        let ghost id = entity.spec_id();
        proof {
            assert(pre.entity_to_index@.dom().contains(id));
            assert forall|v: T|
                Self::map_of(pre.data@.update(pre.entity_to_index@[id] as int, v), pre
                    .entities@, pre.entity_to_index@) == #[trigger] pre.view().insert(
                    id,
                    v,
                ) by {
                Self::lemma_update_elem(pre.data@, pre.entities@, pre.entity_to_index@, id, v);
            }
        }
        let slot = &mut self.data[p];
        Some(slot)
    }

    /// The stored elements of the raw parts.
    pub closed spec fn map_of(
        data: Seq<T>,
        entities: Seq<Entity>,
        index: Map<u64, usize>,
    ) -> Map<u64, T> {
        Map::new(|id: u64| index.dom().contains(id), |id: u64| data[index[id] as int])
    }

    proof fn lemma_update_elem(
        data: Seq<T>,
        entities: Seq<Entity>,
        index: Map<u64, usize>,
        id: u64,
        v: T,
    )
        requires
            index.dom().contains(id),
            0 <= index[id] < data.len(),
            forall|id2: u64|
                #[trigger] index.dom().contains(id2) ==> 0 <= index[id2] < entities.len()
                    && entities[index[id2] as int].spec_id() == id2,
            data.len() == entities.len(),
        ensures
            Self::map_of(data.update(index[id] as int, v), entities, index) == Self::map_of(
                data,
                entities,
                index,
            ).insert(id, v),
    {
        let m1 = Self::map_of(data.update(index[id] as int, v), entities, index);
        let m2 = Self::map_of(data, entities, index).insert(id, v);
        assert forall|id2: u64|
            m1.dom().contains(id2) == m2.dom().contains(id2) && (m1.dom().contains(id2)
                ==> m1[id2] == m2[id2]) by {
            if index.dom().contains(id2) && id2 != id {
                assert(entities[index[id2] as int].spec_id() == id2);
                assert(entities[index[id] as int].spec_id() == id);
                assert(index[id2] != index[id]);
            }
        }
        assert(m1 =~= m2);
    }

    /// Store an element for an entity; an entity already stored has its
    /// element replaced in place.
    pub fn insert(&mut self, entity: Entity, elem: T)
        requires
            old(self).wf(),
        ensures
            final(self).wf(),
            final(self).view() == old(self).view().insert(entity.spec_id(), elem),
    {
        let id = entity.id();
        let existing = match self.entity_to_index.get(&id) {
            Some(p) => Some(*p),
            None => None,
        };
        match existing {
            Some(p) => {
                let ghost pre = *self;
                proof {
                    Self::lemma_update_elem(
                        pre.data@,
                        pre.entities@,
                        pre.entity_to_index@,
                        entity.spec_id(),
                        elem,
                    );
                }
                self.data[p] = elem;
                proof {
                    assert(self.view() == pre.view().insert(entity.spec_id(), elem));
                }
            },
            None => {
                let ghost pre = *self;
                let index = self.entities.len();
                self.entities.push(entity);
                self.data.push(elem);
                self.entity_to_index.insert(id, index);
                proof {
                    assert forall|id2: u64|
                        #[trigger] self.entity_to_index@.dom().contains(id2) implies {
                        let p = self.entity_to_index@[id2] as int;
                        &&& 0 <= p < self.entities@.len()
                        &&& self.entities@[p].spec_id() == id2
                    } by {
                        if id2 != id {
                            assert(pre.entity_to_index@.dom().contains(id2));
                            assert(self.entities@[pre.entity_to_index@[id2] as int] == pre
                                .entities@[pre.entity_to_index@[id2] as int]);
                        } else {
                            assert(self.entities@[index as int] == entity);
                        }
                    }
                    assert forall|p: int| 0 <= p < self.entities@.len() implies {
                        let e = #[trigger] self.entities@[p];
                        &&& self.entity_to_index@.dom().contains(e.spec_id())
                        &&& self.entity_to_index@[e.spec_id()] == p
                    } by {
                        if p < pre.entities@.len() {
                            assert(self.entities@[p] == pre.entities@[p]);
                            let e = pre.entities@[p];
                            assert(pre.entity_to_index@.dom().contains(e.spec_id()));
                            assert(e.spec_id() != id);
                        } else {
                            assert(self.entities@[p] == entity);
                        }
                    }
                    assert(self.wf());
                    assert(self.view() =~= pre.view().insert(entity.spec_id(), elem));
                }
            },
        }
    }

    /// Drop an entity's element by swap-removal, repointing the displaced
    /// last entity; an absent entity is ignored.
    pub fn remove(&mut self, entity: Entity)
        requires
            old(self).wf(),
        ensures
            final(self).wf(),
            final(self).view() == old(self).view().remove(entity.spec_id()),
    {
        let id = entity.id();
        let remove_index = match self.entity_to_index.get(&id) {
            Some(p) => *p,
            None => {
                proof {
                    assert(self.view() =~= old(self).view().remove(entity.spec_id()));
                }
                return ;
            },
        };
        let ghost pre = *self;
        let last_entity = self.entities[self.entities.len() - 1];
        let _ = self.entities.swap_remove(remove_index);
        let _ = self.data.swap_remove(remove_index);
        self.entity_to_index.remove(&id);
        if last_entity.id() != id {
            self.entity_to_index.insert(last_entity.id(), remove_index);
        }
        proof {
            let n = pre.entities@.len();
            let ri = remove_index as int;
            assert(pre.entities@[ri].spec_id() == id);
            assert(last_entity == pre.entities@[n - 1]);
            if last_entity.spec_id() == id {
                assert(pre.entity_to_index@[last_entity.spec_id()] == pre.entity_to_index@[
                    id]);
                assert(ri == n - 1);
            }
            assert(self.entities@ == pre.entities@.update(ri, last_entity).drop_last());
            assert(self.data@ == pre.data@.update(ri, pre.data@[n - 1]).drop_last());
            assert forall|id2: u64|
                #[trigger] self.entity_to_index@.dom().contains(id2) implies {
                let p = self.entity_to_index@[id2] as int;
                &&& 0 <= p < self.entities@.len()
                &&& self.entities@[p].spec_id() == id2
            } by {
                if last_entity.spec_id() != id && id2 == last_entity.spec_id() {
                    assert(self.entity_to_index@[id2] == remove_index);
                    assert(pre.entity_to_index@[id2] == n - 1);
                    if ri < n - 1 {
                        assert(self.entities@[ri] == last_entity);
                    } else {
                        assert(pre.entities@[ri].spec_id() == id);
                    }
                } else {
                    assert(id2 != id);
                    assert(pre.entity_to_index@.dom().contains(id2));
                    assert(self.entity_to_index@[id2] == pre.entity_to_index@[id2]);
                    let p = pre.entity_to_index@[id2] as int;
                    assert(pre.entities@[p].spec_id() == id2);
                    assert(p != ri) by {
                        if p == ri {
                            assert(pre.entities@[ri].spec_id() == id2);
                        }
                    };
                    assert(p != n - 1) by {
                        if p == n - 1 {
                            assert(pre.entities@[n - 1].spec_id() == id2);
                            assert(id2 == last_entity.spec_id());
                        }
                    };
                    assert(self.entities@[p] == pre.entities@[p]);
                }
            }
            assert forall|p: int| 0 <= p < self.entities@.len() implies {
                let e = #[trigger] self.entities@[p];
                &&& self.entity_to_index@.dom().contains(e.spec_id())
                &&& self.entity_to_index@[e.spec_id()] == p
            } by {
                if p == ri && ri < n - 1 {
                    assert(self.entities@[p] == last_entity);
                    assert(last_entity.spec_id() != id) by {
                        if last_entity.spec_id() == id {
                            assert(ri == n - 1);
                        }
                    };
                    assert(self.entity_to_index@[last_entity.spec_id()] == remove_index);
                } else {
                    assert(self.entities@[p] == pre.entities@[p]);
                    let e = pre.entities@[p];
                    assert(pre.entity_to_index@.dom().contains(e.spec_id()));
                    assert(pre.entity_to_index@[e.spec_id()] == p);
                    assert(e.spec_id() != id) by {
                        if e.spec_id() == id {
                            assert(pre.entity_to_index@[id] == remove_index);
                        }
                    };
                    if last_entity.spec_id() != id && e.spec_id() == last_entity.spec_id() {
                        assert(p == n - 1);
                        assert(false);
                    }
                    assert(self.entity_to_index@[e.spec_id()] == pre.entity_to_index@[
                        e.spec_id()]);
                }
            }
            assert(self.wf());
            assert forall|id2: u64|
                self.view().dom().contains(id2) == pre.view().remove(id).dom().contains(id2)
                    && (self.view().dom().contains(id2) ==> self.view()[id2]
                    == pre.view().remove(id)[id2]) by {
                if self.view().dom().contains(id2) {
                    let p = self.entity_to_index@[id2] as int;
                    if last_entity.spec_id() != id && id2 == last_entity.spec_id() {
                        assert(self.data@[p] == pre.data@[n - 1]);
                        assert(pre.entity_to_index@[id2] == n - 1);
                    } else {
                        assert(p == pre.entity_to_index@[id2]);
                        assert(self.data@[p] == pre.data@[p]);
                    }
                }
            }
            assert(self.view() =~= pre.view().remove(id));
        }
    }
}

} // verus!

//! Component type descriptors and the registry that assigns each
//! component type its dense index.
//!
//! Component payloads are plain data the embedder defines; the registry
//! maps each component type's identity to the [`ComponentIndex`] that
//! archetype masks and the world's storage table use. Registration is
//! append-mostly: a repeated identity keeps its index, so indices stay
//! stable across plugin loads.

use vstd::prelude::*;

use crate::world::World;

verus! {

/// The dense index a registered component type owns; archetype masks and
/// the world's storage table are indexed by it.
#[derive(Copy, Clone, PartialEq, Eq, Structural, Hash, Debug)]
pub struct ComponentIndex {
    index: usize,
}

impl ComponentIndex {
    pub closed spec fn spec_index(self) -> usize {
        self.index
    }

    pub fn new(index: usize) -> (r: Self)
        ensures
            r.spec_index() == index,
    {
        ComponentIndex { index }
    }

    pub fn index(&self) -> (r: usize)
        ensures
            r == self.spec_index(),
    {
        self.index
    }
}

/// A component type descriptor: the type identity the embedder assigned.
pub struct ComponentInfo {
    type_id: u64,
}

impl ComponentInfo {
    pub closed spec fn spec_type_id(&self) -> u64 {
        self.type_id
    }

    pub fn new(type_id: u64) -> (r: Self)
        ensures
            r.spec_type_id() == type_id,
    {
        ComponentInfo { type_id }
    }

    pub fn type_id(&self) -> (r: u64)
        ensures
            r == self.spec_type_id(),
    {
        self.type_id
    }
}

/// The set of registered component types, each at the dense index its
/// first registration assigned.
pub struct ComponentRegistry {
    infos: Vec<ComponentInfo>,
}

impl ComponentRegistry {
    /// The registered type identities, by their indices.
    pub closed spec fn type_ids(&self) -> Seq<u64> {
        Seq::new(self.infos@.len(), |k: int| self.infos@[k].spec_type_id())
    }

    pub closed spec fn wf(&self) -> bool {
        forall|k1: int, k2: int|
            0 <= k1 < k2 < self.infos@.len() ==> (#[trigger] self.infos@[k1]).spec_type_id()
                != (#[trigger] self.infos@[k2]).spec_type_id()
    }

    pub fn new() -> (r: Self)
        ensures
            r.wf(),
            r.type_ids().len() == 0,
    {
        ComponentRegistry { infos: Vec::new() }
    }

    /// How many component types are registered.
    pub fn component_count(&self) -> (r: usize)
        ensures
            r == self.type_ids().len(),
    {
        self.infos.len()
    }

    /// Register descriptors: a fresh identity gets the next index, a
    /// known identity keeps the one it has.
    pub fn add_component_infos(&mut self, component_infos: Vec<ComponentInfo>)
        requires
            old(self).wf(),
        ensures
            final(self).wf(),
            forall|k: int|
                0 <= k < old(self).type_ids().len() ==> #[trigger] final(self).type_ids()[k]
                    == old(self).type_ids()[k],
            forall|m: int|
                0 <= m < component_infos@.len() ==> final(self).type_ids().contains(
                    (#[trigger] component_infos@[m]).spec_type_id(),
                ),
    {
        let mut staged = component_infos;
        let ghost all = staged@;
        let ghost pre = *old(self);
        while staged.len() > 0
            invariant
                staged@ == all.skip(all.len() - staged@.len()),
                staged@.len() <= all.len(),
                self.wf(),
                self.infos@.len() >= pre.infos@.len(),
                forall|k: int|
                    0 <= k < pre.infos@.len() ==> (#[trigger] self.infos@[k]).spec_type_id()
                        == pre.infos@[k].spec_type_id(),
                forall|m: int|
                    0 <= m < all.len() - staged@.len() ==> self.type_ids().contains(
                        (#[trigger] all[m]).spec_type_id(),
                    ),
            decreases staged@.len(),
        {
            let ghost m0 = all.len() - staged@.len();
            let info = staged.remove(0);
            proof {
                assert(all.skip(m0)[0] == all[m0]);
                assert(info == all[m0]);
                assert(staged@ =~= all.skip(m0 + 1));
            }
            let tid = info.type_id();
            match self.component_index_of(tid) {
                Some(_) => {
                    proof {
                        assert forall|m: int|
                            0 <= m < m0 + 1 implies self.type_ids().contains(
                            (#[trigger] all[m]).spec_type_id(),
                        ) by {}
                    }
                },
                None => {
                    let ghost before = self.infos@;
                    self.infos.push(info);
                    proof {
                        assert forall|k1: int, k2: int|
                            0 <= k1 < k2 < self.infos@.len() implies (#[trigger] self.infos@[
                                k1]).spec_type_id() != (#[trigger] self.infos@[
                            k2]).spec_type_id() by {
                            if k2 == self.infos@.len() - 1 {
                                assert(self.infos@[k1] == before[k1]);
                                assert(self.type_ids_of_prefix(before)[k1] == before[
                                    k1].spec_type_id());
                            }
                        }
                        assert forall|m: int|
                            0 <= m < m0 + 1 implies self.type_ids().contains(
                            (#[trigger] all[m]).spec_type_id(),
                        ) by {
                            if m == m0 {
                                assert(self.type_ids()[self.infos@.len() - 1] == all[
                                    m].spec_type_id());
                            } else {
                                let k = choose|k: int|
                                    0 <= k < before.len()
                                        && Self::spec_type_ids_of(before)[k] == all[
                                        m].spec_type_id();
                                assert(self.type_ids()[k] == all[m].spec_type_id());
                            }
                        }
                    }
                },
            }
        }
        proof {
            assert forall|m: int|
                0 <= m < component_infos@.len() implies self.type_ids().contains(
                (#[trigger] component_infos@[m]).spec_type_id(),
            ) by {
                assert(all[m] == component_infos@[m]);
                assert(self.type_ids().contains(all[m].spec_type_id()));
            }
        }
    }

    /// The type identities of a descriptor list.
    pub closed spec fn spec_type_ids_of(infos: Seq<ComponentInfo>) -> Seq<u64> {
        Seq::new(infos.len(), |k: int| infos[k].spec_type_id())
    }

    closed spec fn type_ids_of_prefix(&self, infos: Seq<ComponentInfo>) -> Seq<u64> {
        Self::spec_type_ids_of(infos)
    }

    /// The index a registered type identity owns.
    pub fn component_index_of(&self, type_id: u64) -> (r: Option<ComponentIndex>)
        requires
            self.wf(),
        ensures
            r is Some <==> self.type_ids().contains(type_id),
            r matches Some(ci) ==> 0 <= ci.spec_index() < self.type_ids().len()
                && self.type_ids()[ci.spec_index() as int] == type_id,
    {
        let mut k: usize = 0;
        while k < self.infos.len()
            invariant
                0 <= k <= self.infos@.len(),
                forall|k2: int| 0 <= k2 < k ==> (#[trigger] self.infos@[k2]).spec_type_id() != type_id,
            decreases self.infos@.len() - k,
        {
            if self.infos[k].type_id() == type_id {
                proof {
                    assert(self.type_ids()[k as int] == type_id);
                }
                return Some(ComponentIndex::new(k));
            }
            k = k + 1;
        }
        proof {
            if self.type_ids().contains(type_id) {
                let k2 = choose|k2: int|
                    0 <= k2 < self.type_ids().len() && self.type_ids()[k2] == type_id;
                assert(self.infos@[k2].spec_type_id() == type_id);
            }
        }
        None
    }

    /// The registered descriptors as the spec sees them.
    pub closed spec fn spec_infos(&self) -> Seq<ComponentInfo> {
        self.infos@
    }

    /// In a well-formed registry a type identity owns at most one index,
    /// so the index `component_index_of` reports is determined by the
    /// registry and the identity alone.
    pub proof fn lemma_component_index_unique(&self, i: int, j: int)
        requires
            self.wf(),
            0 <= i < self.type_ids().len(),
            0 <= j < self.type_ids().len(),
            self.type_ids()[i] == self.type_ids()[j],
        ensures
            i == j,
    {
        if i != j {
            assert(self.infos@[i].spec_type_id() == self.type_ids()[i]);
            assert(self.infos@[j].spec_type_id() == self.type_ids()[j]);
        }
    }

    /// The descriptors, for a caller that walks them all; kill paths use
    /// the indices to clear each storage the entity's archetype names.
    pub fn for_each(&self) -> (r: &Vec<ComponentInfo>)
        ensures
            r@ == self.spec_infos(),
    {
        &self.infos
    }

    /// Ensure the world has a storage for every registered component, so
    /// the indices this registry assigned are valid storage positions.
    pub fn ensure_storages<R, C>(&self, world: &mut World<R, C>)
        requires
            self.wf(),
            old(world).wf(),
            self.type_ids().len() < crate::mask::COMPONENT_INDEX_LIMIT,
        ensures
            final(world).wf(),
            final(world).storage_count() >= self.type_ids().len(),
            final(world).res_map() == old(world).res_map(),
            final(world).spec_entities() == old(world).spec_entities(),
    {
        proof {
            assert(self.type_ids().len() == self.infos@.len());
        }
        let count = self.infos.len();
        if count > 0 {
            world.insert_components(count - 1);
        }
        proof {
            world.lemma_storage_count_nonneg();
            assert(count == self.infos@.len());
            if count > 0 {
                assert(world.storage_count() > count - 1);
            }
            assert(world.storage_count() >= self.infos@.len());
            assert(world.storage_count() >= self.type_ids().len());
        }
    }
}

} // verus!

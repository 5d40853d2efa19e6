//! The resource container and the assembled ECS world.
//!
//! A [`World`] holds singleton resources keyed by [`ResourceId`], the
//! entity index, and one component storage per registered component type,
//! all kept in step: an entity is in a component's storage exactly when
//! the entity index records that component in the entity's archetype.
//! Resource insertion signals an internal event channel that the
//! scheduler watches to refresh its plan.

use vstd::map::*;
use vstd::prelude::*;

use crate::entity::Entities;
use crate::entity::Entity;
use crate::event_channel::EventChannel;
use crate::event_channel::ReaderHandle;
use crate::storage::dense_storage::DenseStorageItems;

verus! {

/// The key a resource is stored under; the embedder derives it from the
/// resource's type.
#[derive(Copy, Clone, PartialEq, Eq, Structural, Hash, Debug)]
pub struct ResourceId {
    id: u64,
}

impl ResourceId {
    pub closed spec fn spec_value(self) -> u64 {
        self.id
    }

    pub fn new(id: u64) -> (r: Self)
        ensures
            r.spec_value() == id,
    {
        ResourceId { id }
    }

    pub fn value(&self) -> (r: u64)
        ensures
            r == self.spec_value(),
    {
        self.id
    }
}

/// The event the world pushes when a resource is first inserted.
#[derive(Copy, Clone)]
pub struct ResourceChangeEvent {}

impl ResourceChangeEvent {
    pub fn new() -> Self {
        ResourceChangeEvent {  }
    }
}

/// The storage the world keeps per registered component type.
pub type ComponentStorage<C> = crate::storage::Storage<DenseStorageItems<C>>;

/// A world: resources, the entity index, and the component storages.
/// `R` is the embedder's resource payload type, `C` its component
/// payload type.
pub struct World<R, C> {
    resources: Vec<(u64, R)>,
    entities: Entities,
    storages: Vec<ComponentStorage<C>>,
    resource_change_events: EventChannel<ResourceChangeEvent>,
}

impl<R, C> World<R, C> {
    /// The stored resources, keyed by identifier.
    pub closed spec fn res_map(&self) -> Map<u64, R> {
        Self::res_map_of(self.resources@)
    }

    /// The entity index.
    pub closed spec fn spec_entities(&self) -> Entities {
        self.entities
    }

    /// How many component types have a storage.
    pub closed spec fn storage_count(&self) -> int {
        self.storages@.len() as int
    }

    /// The data of one component type's storage, keyed by entity
    /// identifier.
    pub closed spec fn storage_view(&self, ci: int) -> Map<u32, C> {
        self.storages@[ci].view()
    }

    /// Which entities one component type's storage holds.
    pub closed spec fn storage_present(&self, ci: int) -> Set<u32> {
        self.storages@[ci].present()
    }

    /// The internal resource-change channel.
    pub closed spec fn spec_change_events(&self) -> EventChannel<ResourceChangeEvent> {
        self.resource_change_events
    }

    /// A well-formed world carries a well-formed entity index, so a
    /// holder of the world may run the query path on `entities()`.
    pub proof fn lemma_entities_wf(&self)
        requires
            self.wf(),
        ensures
            self.spec_entities().wf(),
            self.spec_entities().archetype_count() >= 0,
    {
        self.entities.lemma_archetype_count_nonneg();
    }

    /// Storage counts are counts.
    pub proof fn lemma_storage_count_nonneg(&self)
        ensures
            self.storage_count() >= 0,
    {
    }

    /// Whether an alive entity has a component.
    pub open spec fn spec_has_component(&self, e: Entity, ci: usize) -> bool {
        self.spec_entities().spec_is_alive(e) && self.spec_entities().component_set(
            e.spec_id(),
        ).contains(ci as usize)
    }

    pub closed spec fn wf(&self) -> bool {
        &&& forall|k1: int, k2: int|
            0 <= k1 < k2 < self.resources@.len() ==> (#[trigger] self.resources@[k1]).0 != (
            #[trigger] self.resources@[k2]).0
        &&& self.entities.wf()
        &&& self.resource_change_events.wf()
        &&& forall|ci: int| 0 <= ci < self.storages@.len() ==> (#[trigger] self.storages@[ci]).wf()
        &&& forall|id: u64|
            #[trigger] self.entities.alive_ids().contains(id) ==> self.entities.component_set(
                id,
            ).subset_of(Set::new(|ci: usize| 0 <= ci < self.storages@.len()))
        &&& forall|ci: int, id: u32|
            0 <= ci < self.storages@.len() ==> ((#[trigger] self.storages@[ci].present().contains(
                id,
            )) <==> (self.entities.alive_ids().contains(id as u64)
                && self.entities.component_set(id as u64).contains(ci as usize)))
    }

    pub fn new() -> (r: Self)
        ensures
            r.wf(),
            r.res_map() == Map::<u64, R>::empty(),
            r.spec_entities().alive_ids() == Set::<u64>::empty(),
            r.spec_entities().spec_next_id() == 0,
            r.storage_count() == 0,
            r.spec_change_events().stream_end() == 0,
            r.spec_change_events().reader_count() == 0,
    {
        let r = World {
            resources: Vec::new(),
            entities: Entities::new(),
            storages: Vec::new(),
            resource_change_events: EventChannel::new(),
        };
        proof {
            assert(r.res_map() =~= Map::<u64, R>::empty());
        }
        r
    }

    /// Where a resource is stored, if it is.
    fn find_resource(&self, id: u64) -> (r: Option<usize>)
        requires
            self.wf(),
        ensures
            r is Some <==> self.res_map().dom().contains(id),
            r matches Some(k) ==> 0 <= k < self.resources@.len() && self.resources@[k as int].0
                == id && self.res_map()[id] == self.resources@[k as int].1,
    {
        let mut k: usize = 0;
        while k < self.resources.len()
            invariant
                self.wf(),
                0 <= k <= self.resources@.len(),
                forall|k2: int| 0 <= k2 < k ==> (#[trigger] self.resources@[k2]).0 != id,
            decreases self.resources@.len() - k,
        {
            if self.resources[k].0 == id {
                proof {
                    let kc = choose|kc: int|
                        0 <= kc < self.resources@.len() && self.resources@[kc].0 == id;
                    assert(kc == k as int);
                }
                return Some(k);
            }
            k = k + 1;
        }
        proof {
            if self.res_map().dom().contains(id) {
                let kc = choose|kc: int|
                    0 <= kc < self.resources@.len() && self.resources@[kc].0 == id;
                assert(self.resources@[kc].0 == id);
            }
        }
        None
    }

    pub fn contains_id(&self, id: &ResourceId) -> (r: bool)
        requires
            self.wf(),
        ensures
            r == self.res_map().dom().contains(id.spec_value()),
    {
        let found = self.find_resource(id.value());
        found.is_some()
    }

    pub fn contains(&self, id: ResourceId) -> (r: bool)
        requires
            self.wf(),
        ensures
            r == self.res_map().dom().contains(id.spec_value()),
    {
        self.contains_id(&id)
    }

    /// Store a resource if its identifier is free; an already-present
    /// resource is kept and the value handed in is dropped, so the first
    /// insertion wins. A fresh insertion pushes a change event.
    pub fn insert(&mut self, id: ResourceId, value: R) -> (inserted: bool)
        requires
            old(self).wf(),
            old(self).spec_change_events().stream_end() < u64::MAX,
        ensures
            final(self).wf(),
            inserted == !old(self).res_map().dom().contains(id.spec_value()),
            inserted ==> final(self).res_map() == old(self).res_map().insert(
                id.spec_value(),
                value,
            ),
            !inserted ==> final(self).res_map() == old(self).res_map(),
            final(self).spec_entities() == old(self).spec_entities(),
            final(self).storage_count() == old(self).storage_count(),
            forall|ci: int|
                0 <= ci < old(self).storage_count() ==> #[trigger] final(self).storage_view(ci)
                    == old(self).storage_view(ci),
            final(self).spec_change_events().reader_count() == old(self).spec_change_events().reader_count(),
            final(self).spec_change_events().stream_end() <= old(self).spec_change_events().stream_end() + 1,
            inserted ==> forall|i: int|
                #[trigger] old(self).spec_change_events().reader_live(i) ==> final(self).spec_change_events().pending(i).len() == old(self).spec_change_events().pending(i).len() + 1,
            forall|i: int|
                0 <= i < old(self).spec_change_events().reader_count() ==> #[trigger] final(self).spec_change_events().reader_live(i) == old(self).spec_change_events().reader_live(i),
            !inserted ==> final(self).spec_change_events() == old(self).spec_change_events(),
    {
        let found = self.find_resource(id.value());
        match found {
            Some(_) => false,
            None => {
                let ghost pre = *self;
                self.resource_change_events.push(ResourceChangeEvent::new());
                self.resources.push((id.value(), value));
                proof {
                    assert forall|k1: int, k2: int|
                        0 <= k1 < k2 < self.resources@.len() implies (
                    #[trigger] self.resources@[k1]).0 != (#[trigger] self.resources@[k2]).0 by {
                        if k2 == self.resources@.len() - 1 {
                            if self.resources@[k1].0 == id.spec_value() {
                                assert(pre.res_map().dom().contains(id.spec_value()));
                            }
                        }
                    }
                    let mv = self.res_map();
                    let tv = pre.res_map().insert(id.spec_value(), value);
                    assert_maps_equal!(mv, tv, id2 => {
                        if id2 == id.spec_value() {
                            assert(self.resources@[self.resources@.len() - 1].0 == id2);
                            let kc = choose|kc: int|
                                0 <= kc < self.resources@.len() && self.resources@[kc].0 == id2;
                            if kc < self.resources@.len() - 1 {
                                assert(pre.res_map().dom().contains(id2));
                            }
                        } else {
                            if self.res_map().dom().contains(id2) {
                                let kc = choose|kc: int|
                                    0 <= kc < self.resources@.len() && self.resources@[kc].0
                                        == id2;
                                assert(kc < self.resources@.len() - 1);
                                assert(pre.resources@[kc].0 == id2);
                                let kp = choose|kp: int|
                                    0 <= kp < pre.resources@.len() && pre.resources@[kp].0
                                        == id2;
                                assert(kp == kc);
                            }
                            if pre.res_map().dom().contains(id2) {
                                let kp = choose|kp: int|
                                    0 <= kp < pre.resources@.len() && pre.resources@[kp].0
                                        == id2;
                                assert(self.resources@[kp].0 == id2);
                                let kc = choose|kc: int|
                                    0 <= kc < self.resources@.len() && self.resources@[kc].0
                                        == id2;
                                assert(kc == kp);
                            }
                        }
                    });
                }
                true
            },
        }
    }

    /// Look a resource up. Resources are keyed by numeric identity
    /// alone, so absence is reported as `None` rather than as an error
    /// naming the missing resource's type: a caller that wants a named
    /// diagnostic maps the identifier back to a name on its own side.
    pub fn try_fetch(&self, id: ResourceId) -> (r: Option<&R>)
        requires
            self.wf(),
        ensures
            r is Some <==> self.res_map().dom().contains(id.spec_value()),
            r matches Some(v) ==> *v == self.res_map()[id.spec_value()],
    {
        match self.find_resource(id.value()) {
            Some(k) => Some(&self.resources[k].1),
            None => None,
        }
    }

    /// Look a resource up; absence is the caller's error.
    pub fn fetch(&self, id: ResourceId) -> (r: &R)
        requires
            self.wf(),
            self.res_map().dom().contains(id.spec_value()),
        ensures
            *r == self.res_map()[id.spec_value()],
    {
        match self.try_fetch(id) {
            Some(v) => v,
            None => unreached(),
        }
    }

    /// Exclusive access to a resource.
    pub fn try_fetch_mut(&mut self, id: ResourceId) -> (r: Option<&mut R>)
        requires
            old(self).wf(),
        ensures
            r is Some <==> old(self).res_map().dom().contains(id.spec_value()),
            r matches Some(v) ==> {
                &&& *v == old(self).res_map()[id.spec_value()]
                &&& final(self).res_map() == old(self).res_map().insert(
                    id.spec_value(),
                    *final(v),
                )
            },
            r is None ==> *final(self) == *old(self),
            final(self).wf(),
            final(self).spec_entities() == old(self).spec_entities(),
            final(self).storage_count() == old(self).storage_count(),
            forall|ci: int|
                0 <= ci < old(self).storage_count() ==> #[trigger] final(self).storage_view(ci)
                    == old(self).storage_view(ci),
            final(self).spec_change_events() == old(self).spec_change_events(),
    {
        let found = self.find_resource(id.value());
        match found {
            None => None,
            Some(k) => {
                let ghost pre = *self;
                let ghost idv = id.spec_value();
                proof {
                    assert forall|v: R|
                        Self::res_map_of(
                            pre.resources@.update(k as int, (idv, v)),
                        ) == #[trigger] pre.res_map().insert(idv, v) by {
                        Self::lemma_res_update(pre.resources@, k as int, idv, v);
                    }
                }
                let slot = &mut self.resources[k];
                Some(&mut slot.1)
            },
        }
    }

    /// The stored resources of an association list.
    pub closed spec fn res_map_of(resources: Seq<(u64, R)>) -> Map<u64, R> {
        Map::new(
            |id: u64| exists|k: int| 0 <= k < resources.len() && resources[k].0 == id,
            |id: u64|
                resources[choose|k: int| 0 <= k < resources.len() && resources[k].0 == id].1,
        )
    }

    proof fn lemma_res_update(resources: Seq<(u64, R)>, k: int, id: u64, v: R)
        requires
            0 <= k < resources.len(),
            resources[k].0 == id,
            forall|k1: int, k2: int|
                0 <= k1 < k2 < resources.len() ==> (#[trigger] resources[k1]).0 != (
                #[trigger] resources[k2]).0,
        ensures
            Self::res_map_of(resources.update(k, (id, v))) == Self::res_map_of(
                resources,
            ).insert(id, v),
    {
        let upd = resources.update(k, (id, v));
        let mv = Self::res_map_of(upd);
        let tv = Self::res_map_of(resources).insert(id, v);
        assert_maps_equal!(mv, tv, id2 => {
            if id2 == id {
                assert(upd[k].0 == id2);
                let kc = choose|kc: int| 0 <= kc < upd.len() && upd[kc].0 == id2;
                assert(kc == k);
            } else {
                if Self::res_map_of(upd).dom().contains(id2) {
                    let kc = choose|kc: int| 0 <= kc < upd.len() && upd[kc].0 == id2;
                    assert(kc != k);
                    assert(resources[kc].0 == id2);
                    let kp = choose|kp: int|
                        0 <= kp < resources.len() && resources[kp].0 == id2;
                    assert(kp == kc);
                }
                if Self::res_map_of(resources).dom().contains(id2) {
                    let kp = choose|kp: int|
                        0 <= kp < resources.len() && resources[kp].0 == id2;
                    assert(kp != k);
                    assert(upd[kp].0 == id2);
                    let kc = choose|kc: int| 0 <= kc < upd.len() && upd[kc].0 == id2;
                    assert(kc == kp);
                }
            }
        });
    }

    /// Exclusive access to a resource; absence is the caller's error.
    pub fn fetch_mut(&mut self, id: ResourceId) -> (r: &mut R)
        requires
            old(self).wf(),
            old(self).res_map().dom().contains(id.spec_value()),
        ensures
            *r == old(self).res_map()[id.spec_value()],
            final(self).res_map() == old(self).res_map().insert(id.spec_value(), *final(r)),
            final(self).wf(),
            final(self).spec_entities() == old(self).spec_entities(),
            final(self).storage_count() == old(self).storage_count(),
            forall|ci: int|
                0 <= ci < old(self).storage_count() ==> #[trigger] final(self).storage_view(ci)
                    == old(self).storage_view(ci),
            final(self).spec_change_events() == old(self).spec_change_events(),
    {
        match self.try_fetch_mut(id) {
            Some(v) => v,
            None => unreached(),
        }
    }

    /// Read access to the resource-change channel.
    pub fn resource_change_events(&self) -> (r: &EventChannel<ResourceChangeEvent>)
        ensures
            *r == self.spec_change_events(),
    {
        &self.resource_change_events
    }

    /// Read access to the entity index.
    pub fn entities(&self) -> (r: &Entities)
        ensures
            *r == self.spec_entities(),
    {
        &self.entities
    }

    /// Register a reader on the resource-change channel.
    pub fn register_resource_event_reader(&mut self) -> (r: ReaderHandle)
        requires
            old(self).wf(),
        ensures
            final(self).wf(),
            0 <= r.spec_index() < final(self).spec_change_events().reader_count(),
            !old(self).spec_change_events().reader_live(r.spec_index()),
            final(self).spec_change_events().reader_live(r.spec_index()),
            final(self).spec_change_events().pending(r.spec_index()) == Seq::<
                ResourceChangeEvent,
            >::empty(),
            forall|i: int|
                0 <= i < old(self).spec_change_events().reader_count() && i != r.spec_index()
                    ==> #[trigger] final(self).spec_change_events().reader_live(i) == old(
                    self,
                ).spec_change_events().reader_live(i) && final(self).spec_change_events()
                    .pending(i) == old(self).spec_change_events().pending(i),
            final(self).res_map() == old(self).res_map(),
            final(self).spec_entities() == old(self).spec_entities(),
            final(self).storage_count() == old(self).storage_count(),
            final(self).spec_change_events().stream_end() == old(self).spec_change_events().stream_end(),
    {
        self.resource_change_events.register()
    }

    /// Whether the reader has unseen resource changes; its cursor
    /// advances to the head either way.
    pub fn resource_events_read_any(&mut self, reader: &ReaderHandle) -> (r: bool)
        requires
            old(self).wf(),
            old(self).spec_change_events().reader_live(reader.spec_index()),
        ensures
            final(self).wf(),
            r == (old(self).spec_change_events().pending(reader.spec_index()).len() > 0),
            final(self).spec_change_events().pending(reader.spec_index()) == Seq::<
                ResourceChangeEvent,
            >::empty(),
            final(self).spec_change_events().reader_live(reader.spec_index()),
            final(self).res_map() == old(self).res_map(),
            final(self).spec_entities() == old(self).spec_entities(),
            final(self).storage_count() == old(self).storage_count(),
            final(self).spec_change_events().stream_end() == old(self).spec_change_events().stream_end(),
            final(self).spec_change_events().reader_count() == old(self).spec_change_events().reader_count(),
    {
        self.resource_change_events.read_any(reader)
    }

    /// Ensure a storage exists for every component index up to and
    /// including the given one.
    pub fn insert_components(&mut self, component_index: usize)
        requires
            old(self).wf(),
            component_index < crate::mask::COMPONENT_INDEX_LIMIT,
        ensures
            final(self).wf(),
            final(self).storage_count() > component_index,
            final(self).storage_count() >= old(self).storage_count(),
            forall|ci: int|
                0 <= ci < old(self).storage_count() ==> #[trigger] final(self).storage_view(ci)
                    == old(self).storage_view(ci),
            forall|ci: int|
                old(self).storage_count() <= ci < final(self).storage_count()
                    ==> #[trigger] final(self).storage_view(ci) == Map::<u32, C>::empty(),
            final(self).res_map() == old(self).res_map(),
            final(self).spec_entities() == old(self).spec_entities(),
            final(self).spec_change_events() == old(self).spec_change_events(),
    {
        let ghost pre = *self;
        while self.storages.len() <= component_index
            invariant
                pre.wf(),
                self.resources@ == pre.resources@,
                self.entities == pre.entities,
                self.resource_change_events == pre.resource_change_events,
                self.storages@.len() >= pre.storages@.len(),
                forall|ci: int|
                    0 <= ci < pre.storages@.len() ==> #[trigger] self.storages@[ci]
                        == pre.storages@[ci],
                forall|ci: int|
                    pre.storages@.len() <= ci < self.storages@.len() ==> (
                    #[trigger] self.storages@[ci]).wf() && self.storages@[ci].present() == Set::<
                        u32,
                    >::empty() && self.storages@[ci].view() == Map::<u32, C>::empty(),
                component_index < crate::mask::COMPONENT_INDEX_LIMIT,
            decreases component_index + 1 - self.storages@.len(),
        {
            self.storages.push(crate::storage::Storage::new());
        }
        proof {
            assert(self.wf()) by {
                assert forall|id: u64|
                    #[trigger] self.entities.alive_ids().contains(id) implies self.entities
                    .component_set(id).subset_of(
                    Set::new(|ci: usize| 0 <= ci < self.storages@.len()),
                ) by {
                    assert(pre.entities.component_set(id).subset_of(
                        Set::new(|ci: usize| 0 <= ci < pre.storages@.len()),
                    ));
                    assert forall|ci: usize|
                        self.entities.component_set(id).contains(ci) implies 0 <= ci
                        < self.storages@.len() by {
                        assert(Set::new(|ci2: usize| 0 <= ci2 < pre.storages@.len()).contains(
                            ci,
                        ));
                    }
                };
                assert forall|ci: int, id: u32|
                    0 <= ci < self.storages@.len() implies ((
                #[trigger] self.storages@[ci].present().contains(id)) <==> (self.entities
                    .alive_ids().contains(id as u64) && self.entities.component_set(
                    id as u64,
                ).contains(ci as usize))) by {
                    if ci < pre.storages@.len() {
                        assert(pre.storages@[ci].present().contains(id) <==> (pre.entities
                            .alive_ids().contains(id as u64) && pre.entities.component_set(
                            id as u64,
                        ).contains(ci as usize)));
                    } else {
                        assert(self.storages@[ci].present() == Set::<u32>::empty());
                        if self.entities.alive_ids().contains(id as u64)
                            && self.entities.component_set(id as u64).contains(ci as usize) {
                            assert(pre.entities.component_set(id as u64).subset_of(
                                Set::new(|ci2: usize| 0 <= ci2 < pre.storages@.len()),
                            ));
                            assert(Set::new(|ci2: usize| 0 <= ci2 < pre.storages@.len())
                                .contains(ci as usize));
                        }
                    }
                }
            };
        }
    }

    /// Whether an alive entity has a component.
    pub fn has_component(&self, entity: Entity, component_index: usize) -> (r: bool)
        requires
            self.wf(),
        ensures
            r == self.spec_has_component(entity, component_index),
    {
        if component_index >= self.storages.len() {
            proof {
                if self.spec_has_component(entity, component_index) {
                    assert(self.entities.component_set(entity.spec_id()).subset_of(
                        Set::new(|ci: usize| 0 <= ci < self.storages@.len()),
                    ));
                    assert(Set::new(|ci: usize| 0 <= ci < self.storages@.len()).contains(
                        component_index,
                    ));
                }
            }
            return false;
        }
        if !self.entities.is_alive(entity) {
            return false;
        }
        proof {
            self.entities.lemma_alive_id_bound(entity.spec_id());
        }
        let id32 = entity.id() as u32;
        let r = self.storages[component_index].contains(crate::storage::Id::new(id32));
        proof {
            assert(id32 as u64 == entity.spec_id());
        }
        r
    }

    /// The value an alive entity holds for a component, when it has one.
    pub fn get_component(&self, entity: Entity, component_index: usize) -> (r: Option<&C>)
        requires
            self.wf(),
        ensures
            r is Some <==> self.spec_has_component(entity, component_index),
            r matches Some(v) ==> *v == self.storage_view(component_index as int)[
                entity.spec_id() as u32],
    {
        if component_index >= self.storages.len() {
            proof {
                if self.spec_has_component(entity, component_index) {
                    assert(self.entities.component_set(entity.spec_id()).subset_of(
                        Set::new(|ci: usize| 0 <= ci < self.storages@.len()),
                    ));
                    assert(Set::new(|ci: usize| 0 <= ci < self.storages@.len()).contains(
                        component_index,
                    ));
                }
            }
            return None;
        }
        if !self.entities.is_alive(entity) {
            return None;
        }
        proof {
            self.entities.lemma_alive_id_bound(entity.spec_id());
        }
        let id32 = entity.id() as u32;
        let sid = crate::storage::Id::new(id32);
        proof {
            assert(id32 as u64 == entity.spec_id());
        }
        if self.storages[component_index].contains(sid) {
            proof {
                self.storages@[component_index as int].lemma_mask_matches_items();
            }
            Some(self.storages[component_index].get(sid))
        } else {
            None
        }
    }

    /// Replace the value an alive entity holds for a component it has.
    pub fn set_component(&mut self, entity: Entity, component_index: usize, value: C)
        requires
            old(self).wf(),
            old(self).spec_has_component(entity, component_index),
        ensures
            final(self).wf(),
            final(self).spec_entities() == old(self).spec_entities(),
            final(self).storage_count() == old(self).storage_count(),
            final(self).storage_view(component_index as int) == old(self).storage_view(
                component_index as int,
            ).insert(entity.spec_id() as u32, value),
            forall|ci: int|
                0 <= ci < old(self).storage_count() && ci != component_index
                    ==> #[trigger] final(self).storage_view(ci) == old(self).storage_view(ci),
            final(self).res_map() == old(self).res_map(),
            final(self).spec_change_events() == old(self).spec_change_events(),
    {
        proof {
            self.entities.lemma_alive_id_bound(entity.spec_id());
            assert(self.entities.component_set(entity.spec_id()).subset_of(
                Set::new(|ci: usize| 0 <= ci < self.storages@.len()),
            ));
            assert(Set::new(|ci: usize| 0 <= ci < self.storages@.len()).contains(
                component_index,
            ));
        }
        let id32 = entity.id() as u32;
        let sid = crate::storage::Id::new(id32);
        proof {
            assert(id32 as u64 == entity.spec_id());
        }
        let storage = &mut self.storages[component_index];
        let slot = storage.get_mut(sid);
        *slot = value;
        proof {
            let cii = component_index as int;
            assert(self.storages@[cii].wf());
            assert(self.storages@[cii].present() == old(self).storages@[cii].present());
            assert(self.storages@[cii].view() == old(self).storages@[cii].view().insert(
                id32,
                value,
            ));
            assert forall|ci: int, id: u32|
                0 <= ci < self.storages@.len() implies ((
            #[trigger] self.storages@[ci].present().contains(id)) <==> (self.entities
                .alive_ids().contains(id as u64) && self.entities.component_set(
                id as u64,
            ).contains(ci as usize))) by {
                if ci != cii {
                    assert(self.storages@[ci] == old(self).storages@[ci]);
                }
            }
            assert(self.wf());
        }
    }

    /// Give an alive entity a component it does not have: store the value
    /// and move the entity to the matching archetype.
    pub fn insert_component(&mut self, entity: Entity, component_index: usize, value: C)
        requires
            old(self).wf(),
            old(self).spec_entities().spec_is_alive(entity),
            !old(self).spec_has_component(entity, component_index),
            component_index < crate::mask::COMPONENT_INDEX_LIMIT,
        ensures
            final(self).wf(),
            final(self).spec_has_component(entity, component_index),
            final(self).spec_entities().alive_ids() == old(self).spec_entities().alive_ids(),
            final(self).spec_entities().component_set(entity.spec_id()) == old(self).spec_entities().component_set(entity.spec_id()).insert(component_index),
            forall|id: u64|
                old(self).spec_entities().alive_ids().contains(id) && id != entity.spec_id()
                    ==> #[trigger] final(self).spec_entities().component_set(id) == old(self).spec_entities().component_set(id),
            final(self).storage_count() > component_index,
            final(self).storage_count() >= old(self).storage_count(),
            final(self).storage_view(component_index as int) == (if (
            component_index as int) < old(self).storage_count() {
                old(self).storage_view(component_index as int)
            } else {
                Map::<u32, C>::empty()
            }).insert(entity.spec_id() as u32, value),
            forall|ci: int|
                0 <= ci < old(self).storage_count() && ci != component_index
                    ==> #[trigger] final(self).storage_view(ci) == old(self).storage_view(ci),
            forall|ci: int|
                old(self).storage_count() <= ci < final(self).storage_count() && ci
                    != component_index ==> #[trigger] final(self).storage_view(ci) == Map::<
                    u32,
                    C,
                >::empty(),
            final(self).res_map() == old(self).res_map(),
            final(self).spec_change_events() == old(self).spec_change_events(),
            final(self).spec_entities().spec_next_id() == old(self).spec_entities().spec_next_id(),
    {
        self.insert_components(component_index);
        let ghost grown = *self;
        proof {
            self.entities.lemma_alive_id_bound(entity.spec_id());
        }
        let id32 = entity.id() as u32;
        let sid = crate::storage::Id::new(id32);
        proof {
            assert(id32 as u64 == entity.spec_id());
            assert(!grown.storages@[component_index as int].present().contains(id32));
        }
        let storage = &mut self.storages[component_index];
        storage.insert(sid, value);
        let ghost stored = *self;
        let _ = self.entities.on_component_inserted(entity, component_index);
        proof {
            let cii = component_index as int;
            assert(self.storages@.len() == vstd::std_specs::vec::spec_vec_len(
                &self.storages,
            ));
            assert(self.entities.alive_ids() == grown.entities.alive_ids());
            assert forall|ci: int|
                0 <= ci < self.storages@.len() && ci != cii implies #[trigger] self.storages@[
                ci] == grown.storages@[ci] by {}
            assert forall|ci: int|
                0 <= ci < old(self).storage_count() && ci != cii implies #[trigger] self
                .storage_view(ci) == old(self).storage_view(ci) by {
                assert(self.storages@[ci] == grown.storages@[ci]);
                assert(grown.storage_view(ci) == old(self).storage_view(ci));
            }
            assert forall|ci: int|
                old(self).storage_count() <= ci < self.storage_count() && ci
                    != cii implies #[trigger] self.storage_view(ci) == Map::<u32, C>::empty() by {
                assert(self.storages@[ci] == grown.storages@[ci]);
                assert(grown.storage_view(ci) == Map::<u32, C>::empty());
            }
            assert(self.storages@ == stored.storages@);
            assert(self.storages@[cii].present() == grown.storages@[cii].present().insert(
                id32,
            ));
            assert(self.storages@[cii].view() == grown.storages@[cii].view().insert(
                id32,
                value,
            ));
            assert(self.entities.component_set(id32 as u64) == grown.entities.component_set(
                id32 as u64,
            ).insert(component_index));
            assert forall|ci: int, id: u32|
                0 <= ci < self.storages@.len() implies ((
            #[trigger] self.storages@[ci].present().contains(id)) <==> (self.entities
                .alive_ids().contains(id as u64) && self.entities.component_set(
                id as u64,
            ).contains(ci as usize))) by {
                if ci == cii {
                    if id == id32 {
                        assert(self.storages@[ci].present().contains(id));
                        assert(self.entities.alive_ids().contains(id as u64));
                        assert(self.entities.component_set(id as u64).contains(
                            component_index,
                        ));
                    } else {
                        assert(self.storages@[ci].present().contains(id) == grown.storages@[
                            ci].present().contains(id));
                        if self.entities.alive_ids().contains(id as u64) {
                            assert(id as u64 != entity.spec_id());
                            assert(self.entities.component_set(id as u64) == grown.entities
                                .component_set(id as u64));
                        }
                    }
                } else {
                    assert(self.storages@[ci] == grown.storages@[ci]);
                    if self.entities.alive_ids().contains(id as u64) {
                        if id as u64 == entity.spec_id() {
                            assert(self.entities.component_set(id as u64) == grown.entities
                                .component_set(id as u64).insert(component_index));
                        } else {
                            assert(self.entities.component_set(id as u64) == grown.entities
                                .component_set(id as u64));
                        }
                    }
                }
            }
            assert forall|id: u64|
                #[trigger] self.entities.alive_ids().contains(id) implies self.entities
                .component_set(id).subset_of(
                Set::new(|ci: usize| 0 <= ci < self.storages@.len()),
            ) by {
                assert(grown.entities.component_set(id).subset_of(
                    Set::new(|ci: usize| 0 <= ci < grown.storages@.len()),
                ));
                assert forall|ci: usize|
                    self.entities.component_set(id).contains(ci) implies 0 <= ci
                    < self.storages@.len() by {
                    if id == entity.spec_id() && ci == component_index {
                    } else {
                        assert(grown.entities.component_set(id).contains(ci));
                        assert(Set::new(|ci2: usize| 0 <= ci2 < grown.storages@.len())
                            .contains(ci));
                    }
                }
            }
            assert(self.wf());
            assert(grown.storage_view(cii) == (if cii < old(self).storage_count() {
                old(self).storage_view(cii)
            } else {
                Map::<u32, C>::empty()
            }));
            assert(self.storage_view(cii) == grown.storage_view(cii).insert(
                entity.spec_id() as u32,
                value,
            ));
        }
    }

    /// Remove an entity and every component it had: clears its storage
    /// entries and its archetype slot. A dead entity is ignored.
    pub fn kill(&mut self, entity: Entity)
        requires
            old(self).wf(),
        ensures
            final(self).wf(),
            !final(self).spec_entities().spec_is_alive(entity),
            old(self).spec_entities().spec_is_alive(entity) ==> {
                &&& final(self).spec_entities().alive_ids() == old(self).spec_entities().alive_ids().remove(entity.spec_id())
                &&& forall|ci: int|
                    0 <= ci < final(self).storage_count() ==> !(#[trigger] final(self).storage_present(ci).contains(entity.spec_id() as u32))
                &&& forall|id: u64|
                    old(self).spec_entities().alive_ids().contains(id) && id != entity.spec_id()
                        ==> #[trigger] final(self).spec_entities().component_set(id) == old(self).spec_entities().component_set(id)
                &&& forall|ci: int, id: u32|
                    0 <= ci < final(self).storage_count() && id != entity.spec_id() as u32
                        ==> #[trigger] final(self).storage_view(ci).contains_key(id) == old(self).storage_view(ci).contains_key(id) && (final(self).storage_view(
                        ci,
                    ).contains_key(id) ==> final(self).storage_view(ci)[id] == old(self).storage_view(ci)[id])
            },
            !old(self).spec_entities().spec_is_alive(entity) ==> *final(self) == *old(self),
            final(self).storage_count() == old(self).storage_count(),
            final(self).res_map() == old(self).res_map(),
            final(self).spec_change_events() == old(self).spec_change_events(),
            final(self).spec_entities().spec_next_id() == old(self).spec_entities().spec_next_id(),
    {
        if !self.entities.is_alive(entity) {
            return ;
        }
        proof {
            self.entities.lemma_alive_id_bound(entity.spec_id());
        }
        let ghost pre = *self;
        let comps = self.entities.kill(entity);
        let ghost killed = *self;
        let id32 = entity.id() as u32;
        proof {
            assert(id32 as u64 == entity.spec_id());
        }
        let mut k: usize = 0;
        while k < comps.len()
            invariant
                pre.wf(),
                pre.spec_entities().spec_is_alive(entity),
                id32 as u64 == entity.spec_id(),
                self.entities == killed.entities,
                self.resources@ == pre.resources@,
                self.resource_change_events == pre.resource_change_events,
                self.storages@.len() == pre.storages@.len(),
                killed.entities.wf(),
                killed.resources@ == pre.resources@,
                killed.entities.alive_ids() == pre.entities.alive_ids().remove(
                    entity.spec_id(),
                ),
                killed.entities.spec_next_id() == pre.entities.spec_next_id(),
                comps@.to_set() == pre.entities.component_set(entity.spec_id()),
                forall|i: int, j: int| 0 <= i < j < comps@.len() ==> comps@[i] < comps@[j],
                forall|id: u64|
                    pre.entities.alive_ids().contains(id) && id != entity.spec_id()
                        ==> #[trigger] killed.entities.component_set(id) == pre.entities
                        .component_set(id),
                0 <= k <= comps@.len(),
                forall|ci: int|
                    0 <= ci < self.storages@.len() ==> (#[trigger] self.storages@[ci]).wf(),
                forall|i: int|
                    0 <= i < k ==> 0 <= (#[trigger] comps@[i]) < self.storages@.len()
                        && self.storages@[comps@[i] as int].present() == pre.storages@[comps@[i]
                        as int].present().remove(id32) && self.storages@[comps@[i] as int].view()
                        == pre.storages@[comps@[i] as int].view().remove(id32),
                forall|ci: int|
                    0 <= ci < self.storages@.len() && !comps@.take(k as int).contains(ci as usize)
                        ==> #[trigger] self.storages@[ci] == pre.storages@[ci],
            decreases comps@.len() - k,
        {
            let ci = comps[k];
            proof {
                assert(comps@.to_set().contains(ci));
                assert(pre.entities.component_set(entity.spec_id()).contains(ci));
                assert(pre.entities.component_set(entity.spec_id()).subset_of(
                    Set::new(|ci2: usize| 0 <= ci2 < pre.storages@.len()),
                ));
                assert(Set::new(|ci2: usize| 0 <= ci2 < pre.storages@.len()).contains(ci));
                assert(!comps@.take(k as int).contains(ci)) by {
                    if comps@.take(k as int).contains(ci) {
                        let j = choose|j: int|
                            0 <= j < comps@.take(k as int).len() && comps@.take(k as int)[j]
                                == ci;
                        assert(comps@[j] == ci);
                    }
                };
                assert(self.storages@[ci as int] == pre.storages@[ci as int]);
                assert(pre.storages@[ci as int].present().contains(id32));
            }
            let storage = &mut self.storages[ci];
            storage.remove(crate::storage::Id::new(id32));
            k = k + 1;
            proof {
                assert forall|i: int|
                    0 <= i < k implies 0 <= (#[trigger] comps@[i]) < self.storages@.len()
                        && self.storages@[comps@[i] as int].present() == pre.storages@[comps@[i]
                        as int].present().remove(id32) && self.storages@[comps@[i] as int].view()
                        == pre.storages@[comps@[i] as int].view().remove(id32) by {
                    if i < k - 1 {
                        assert(comps@[i] < comps@[k - 1]);
                    }
                }
                assert forall|ci2: int|
                    0 <= ci2 < self.storages@.len() && !comps@.take(k as int).contains(
                        ci2 as usize,
                    ) implies #[trigger] self.storages@[ci2] == pre.storages@[ci2] by {
                    let taken = comps@.take(k - 1);
                    assert(!taken.contains(ci2 as usize)) by {
                        if taken.contains(ci2 as usize) {
                            let j = choose|j: int| 0 <= j < taken.len() && taken[j] == ci2
                                as usize;
                            assert(comps@.take(k as int)[j] == ci2 as usize);
                        }
                    };
                    assert(ci2 != comps@[k - 1]) by {
                        if ci2 == comps@[k - 1] {
                            assert(comps@.take(k as int)[k - 1] == ci2 as usize);
                        }
                    };
                }
            }
        }
        proof {
            assert(self.storages@.len() == vstd::std_specs::vec::spec_vec_len(
                &self.storages,
            ));
            assert(comps@.take(comps@.len() as int) =~= comps@);
            assert forall|ci: int|
                0 <= ci < self.storages@.len() && comps@.contains(ci as usize) implies (
            #[trigger] self.storages@[ci].present()) == pre.storages@[ci].present().remove(id32)
                && self.storages@[ci].view() == pre.storages@[ci].view().remove(id32) by {
                let j = choose|j: int| 0 <= j < comps@.len() && comps@[j] == ci as usize;
                assert(comps@[j] as int == ci);
            }
            assert forall|ci: int, id: u32|
                0 <= ci < self.storages@.len() && id != id32 implies (
            #[trigger] self.storages@[ci].view().contains_key(id)) == pre.storages@[
                ci].view().contains_key(id) && (self.storages@[ci].view().contains_key(id)
                ==> self.storages@[ci].view()[id] == pre.storages@[ci].view()[id]) by {
                if comps@.contains(ci as usize) {
                    let j = choose|j: int| 0 <= j < comps@.len() && comps@[j] == ci as usize;
                    assert(comps@[j] as int == ci);
                    assert(self.storages@[ci].view() == pre.storages@[ci].view().remove(
                        id32,
                    ));
                } else {
                    assert(self.storages@[ci] == pre.storages@[ci]);
                }
            }
            assert forall|ci: int, id: u32|
                0 <= ci < self.storages@.len() implies ((
            #[trigger] self.storages@[ci].present().contains(id)) <==> (self.entities
                .alive_ids().contains(id as u64) && self.entities.component_set(
                id as u64,
            ).contains(ci as usize))) by {
                if comps@.contains(ci as usize) {
                    let j = choose|j: int| 0 <= j < comps@.len() && comps@[j] == ci as usize;
                    assert(comps@[j] as int == ci);
                    assert(self.storages@[ci].present() == pre.storages@[ci].present().remove(
                        id32,
                    ));
                    if id != id32 {
                        assert(self.storages@[ci].present().contains(id) == pre.storages@[
                            ci].present().contains(id));
                        if self.entities.alive_ids().contains(id as u64) {
                            assert(id as u64 != entity.spec_id());
                            assert(self.entities.component_set(id as u64) == pre.entities
                                .component_set(id as u64));
                        }
                    }
                } else {
                    assert(self.storages@[ci] == pre.storages@[ci]);
                    if id == id32 {
                        assert(!comps@.to_set().contains(ci as usize));
                        assert(!self.entities.alive_ids().contains(id as u64));
                        if pre.storages@[ci].present().contains(id) {
                            assert(pre.entities.component_set(id32 as u64).contains(
                                ci as usize,
                            ));
                        }
                    } else {
                        if self.entities.alive_ids().contains(id as u64) {
                            assert(id as u64 != entity.spec_id());
                            assert(self.entities.component_set(id as u64) == pre.entities
                                .component_set(id as u64));
                        }
                    }
                }
            }
            assert forall|id: u64|
                #[trigger] self.entities.alive_ids().contains(id) implies self.entities
                .component_set(id).subset_of(
                Set::new(|ci: usize| 0 <= ci < self.storages@.len()),
            ) by {
                assert(id != entity.spec_id());
                assert(pre.entities.alive_ids().contains(id));
                assert(self.entities.component_set(id) == pre.entities.component_set(id));
            }
            assert(self.wf());
            assert forall|ci: int|
                0 <= ci < self.storage_count() implies !(#[trigger] self.storage_present(
                ci,
            ).contains(entity.spec_id() as u32)) by {
                if self.storages@[ci].present().contains(id32) {
                }
            }
        }
    }

    /// A component's storage holds an entity exactly when the entity is
    /// alive and its archetype's signature has that component: membership
    /// bitset, stored data and archetype bookkeeping agree.
    pub proof fn lemma_component_presence_consistent(&self, ci: int, id: u32)
        requires
            self.wf(),
            0 <= ci < self.storage_count(),
        ensures
            self.storage_present(ci).contains(id) <==> (self.spec_entities()
                .alive_ids().contains(id as u64) && self.spec_entities().component_set(
                id as u64,
            ).contains(ci as usize)),
    {
    }

    /// A freshly built entity is the single answer to a query for a
    /// component only it has: with a matcher requiring exactly that
    /// component, an entity satisfies the query exactly when it is that
    /// entity.
    pub proof fn lemma_single_component_query(
        &self,
        e: Entity,
        ci: usize,
        m: &crate::entity::ArchetypeMatcher,
    )
        requires
            self.wf(),
            self.spec_entities().spec_is_alive(e),
            self.spec_entities().component_set(e.spec_id()).contains(ci),
            forall|id: u64|
                self.spec_entities().alive_ids().contains(id) && id != e.spec_id()
                    ==> !#[trigger] self.spec_entities().component_set(id).contains(ci),
            m.all_set() == Set::<usize>::empty().insert(ci),
            m.none_set() == Set::<usize>::empty(),
        ensures
            forall|e2: Entity|
                (self.spec_entities().alive_ids().contains(e2.spec_id())
                    && #[trigger] m.spec_matches(
                    self.spec_entities().component_set(e2.spec_id()),
                )) <==> e2.spec_id() == e.spec_id(),
    {
        assert forall|e2: Entity|
            (self.spec_entities().alive_ids().contains(e2.spec_id()) && #[trigger] m
                .spec_matches(self.spec_entities().component_set(e2.spec_id())))
                <==> e2.spec_id() == e.spec_id() by {
            if e2.spec_id() == e.spec_id() {
                assert(m.all_set().subset_of(
                    self.spec_entities().component_set(e.spec_id()),
                )) by {
                    assert forall|c2: usize|
                        m.all_set().contains(c2) implies self.spec_entities().component_set(
                        e.spec_id(),
                    ).contains(c2) by {
                        assert(c2 == ci);
                    }
                };
                assert(m.none_set().intersect(
                    self.spec_entities().component_set(e.spec_id()),
                ) =~= Set::<usize>::empty());
            }
            if self.spec_entities().alive_ids().contains(e2.spec_id()) && m.spec_matches(
                self.spec_entities().component_set(e2.spec_id()),
            ) && e2.spec_id() != e.spec_id() {
                assert(m.all_set().contains(ci));
                assert(self.spec_entities().component_set(e2.spec_id()).contains(ci));
            }
        }
    }

    /// Begin building an entity. Nothing touches the world until
    /// [`EntityCreator::create`] commits, so a builder dropped without
    /// committing leaves no trace: no entity, no component, no mask bit.
    pub fn create_entity(&self) -> (r: EntityCreator<C>)
        ensures
            r.staged().len() == 0,
            r.creator_wf(),
    {
        EntityCreator { components: Vec::new() }
    }
}

/// A transactional entity builder: components staged by [`Self::with`]
/// are written to the world only when [`Self::create`] commits. Dropping
/// the builder instead aborts the creation with no effect on the world.
pub struct EntityCreator<C> {
    components: Vec<(usize, C)>,
}

impl<C> EntityCreator<C> {
    /// The staged component index/value pairs.
    pub closed spec fn staged(&self) -> Seq<(usize, C)> {
        self.components@
    }

    /// The staged component indices.
    pub open spec fn staged_cis(&self) -> Seq<usize> {
        Seq::new(self.staged().len(), |k: int| self.staged()[k].0)
    }

    pub closed spec fn creator_wf(&self) -> bool {
        &&& forall|k1: int, k2: int|
            0 <= k1 < k2 < self.components@.len() ==> (#[trigger] self.components@[k1]).0 != (
            #[trigger] self.components@[k2]).0
        &&& forall|k: int|
            0 <= k < self.components@.len() ==> (#[trigger] self.components@[k]).0
                < crate::mask::COMPONENT_INDEX_LIMIT
    }

    /// Stage a component for the future entity.
    pub fn with(&mut self, component_index: usize, value: C)
        requires
            old(self).creator_wf(),
            component_index < crate::mask::COMPONENT_INDEX_LIMIT,
            !old(self).staged_cis().contains(component_index),
        ensures
            final(self).creator_wf(),
            final(self).staged() == old(self).staged().push((component_index, value)),
    {
        proof {
            assert forall|k: int|
                0 <= k < self.components@.len() implies (#[trigger] self.components@[k]).0
                    != component_index by {
                assert(self.staged_cis()[k] == self.components@[k].0);
            }
        }
        self.components.push((component_index, value));
    }

    /// Commit: mint the entity, store every staged component, and move
    /// the entity to the matching archetype.
    pub fn create<R>(self, world: &mut World<R, C>) -> (r: Entity)
        requires
            self.creator_wf(),
            old(world).wf(),
            old(world).spec_entities().spec_next_id() < crate::mask::MEMBER_ID_LIMIT as u64,
        ensures
            final(world).wf(),
            r.spec_id() == old(world).spec_entities().spec_next_id(),
            final(world).spec_entities().spec_is_alive(r),
            final(world).spec_entities().alive_ids() == old(world).spec_entities().alive_ids()
                .insert(r.spec_id()),
            final(world).spec_entities().component_set(r.spec_id())
                == self.staged_cis().to_set(),
            forall|k: int|
                0 <= k < self.staged().len() ==> #[trigger] final(world).storage_view(
                    self.staged()[k].0 as int,
                )[r.spec_id() as u32] == self.staged()[k].1,
            forall|id: u64|
                old(world).spec_entities().alive_ids().contains(id) ==> #[trigger] final(world).spec_entities().component_set(id) == old(world).spec_entities().component_set(
                    id,
                ),
            final(world).storage_count() >= old(world).storage_count(),
            forall|ci: int, id: u32|
                0 <= ci < final(world).storage_count() && id != r.spec_id() as u32 ==> {
                    &&& (#[trigger] final(world).storage_view(ci).contains_key(id)) == (ci
                        < old(world).storage_count() && old(world).storage_view(
                        ci,
                    ).contains_key(id))
                    &&& (final(world).storage_view(ci).contains_key(id) ==> final(world).storage_view(ci)[id] == old(world).storage_view(ci)[id])
                },
            final(world).res_map() == old(world).res_map(),
            final(world).spec_change_events() == old(world).spec_change_events(),
            final(world).spec_entities().spec_next_id() == old(world).spec_entities().spec_next_id() + 1,
    {
        let entity = world.entities.new_entity();
        proof {
            assert(world.wf()) by {
                assert forall|ci: int, id: u32|
                    0 <= ci < world.storages@.len() implies ((#[trigger] world.storages@[
                    ci].present().contains(id)) <==> (world.entities.alive_ids().contains(
                        id as u64,
                    ) && world.entities.component_set(id as u64).contains(ci as usize))) by {
                    if id as u64 == entity.spec_id() {
                        assert(!old(world).spec_entities().alive_ids().contains(id as u64));
                        assert(world.entities.component_set(id as u64) == Set::<
                            usize,
                        >::empty());
                    } else if world.entities.alive_ids().contains(id as u64) {
                        assert(old(world).spec_entities().alive_ids().contains(id as u64));
                        assert(world.entities.component_set(id as u64) == old(world).spec_entities().component_set(id as u64));
                    }
                }
                assert forall|id: u64|
                    #[trigger] world.entities.alive_ids().contains(id) implies world.entities
                    .component_set(id).subset_of(
                    Set::new(|ci: usize| 0 <= ci < world.storages@.len()),
                ) by {
                    if id == entity.spec_id() {
                        assert(world.entities.component_set(id) == Set::<usize>::empty());
                    } else {
                        assert(old(world).spec_entities().alive_ids().contains(id));
                        assert(world.entities.component_set(id) == old(world).spec_entities().component_set(id));
                    }
                }
            };
        }
        let ghost minted = *world;
        let mut components = self.components;
        let ghost all = components@;
        while components.len() > 0
            invariant
                forall|k1: int, k2: int|
                    0 <= k1 < k2 < all.len() ==> (#[trigger] all[k1]).0 != (
                    #[trigger] all[k2]).0,
                forall|k2: int|
                    0 <= k2 < all.len() ==> (#[trigger] all[k2]).0
                        < crate::mask::COMPONENT_INDEX_LIMIT,
                components@ == all.take(components@.len() as int),
                components@.len() <= all.len(),
                world.wf(),
                world.spec_entities().spec_is_alive(entity),
                world.spec_entities().alive_ids() == minted.spec_entities().alive_ids(),
                world.spec_entities().component_set(entity.spec_id()) == Set::new(
                    |ci: usize| exists|k2: int|
                        components@.len() <= k2 < all.len() && all[k2].0 == ci,
                ),
                forall|k2: int|
                    components@.len() <= k2 < all.len() ==> ((#[trigger] all[k2]).0 as int)
                        < world.storage_count() && world.storage_view(all[k2].0 as int)[
                        entity.spec_id() as u32] == all[k2].1,
                forall|id: u64|
                    minted.spec_entities().alive_ids().contains(id) && id != entity.spec_id()
                        ==> #[trigger] world.spec_entities().component_set(id)
                        == minted.spec_entities().component_set(id),
                world.storage_count() >= minted.storage_count(),
                forall|ci: int, id: u32|
                    0 <= ci < world.storage_count() && id != entity.spec_id() as u32 ==> {
                        &&& (#[trigger] world.storage_view(ci).contains_key(id)) == (ci
                            < minted.storage_count() && minted.storage_view(
                            ci,
                        ).contains_key(id))
                        &&& (world.storage_view(ci).contains_key(id) ==> world.storage_view(
                            ci,
                        )[id] == minted.storage_view(ci)[id])
                    },
                world.res_map() == minted.res_map(),
                world.spec_change_events() == minted.spec_change_events(),
                world.spec_entities().spec_next_id() == minted.spec_entities().spec_next_id(),
            decreases components@.len(),
        {
            let ghost m0 = components@.len() as int;
            let pair = match components.pop() {
                Some(p) => p,
                None => {
                    proof {
                        assert(false);
                    }
                    return entity;
                },
            };
            let ci = pair.0;
            let ghost pre_step = *world;
            proof {
                assert(all.take(m0)[m0 - 1] == all[m0 - 1]);
                assert(pair == all[m0 - 1]);
                assert(all[m0 - 1].0 == ci);
                assert(components@ == all.take(m0 - 1)) by {
                    assert(all.take(m0).drop_last() =~= all.take(m0 - 1));
                };
                assert(!world.spec_has_component(entity, ci)) by {
                    if world.spec_entities().component_set(entity.spec_id()).contains(ci) {
                        let k2 = choose|k2: int| m0 <= k2 < all.len() && all[k2].0 == ci;
                        assert(all[k2].0 == all[m0 - 1].0);
                    }
                };
            }
            world.insert_component(entity, ci, pair.1);
            proof {
                let m1 = components@.len() as int;
                assert(m1 == m0 - 1);
                assert(world.spec_entities().component_set(entity.spec_id()) =~= Set::new(
                    |ci2: usize| exists|k2: int| m1 <= k2 < all.len() && all[k2].0 == ci2,
                )) by {
                    assert forall|ci2: usize|
                        Set::new(
                            |ci3: usize| exists|k3: int|
                                m1 <= k3 < all.len() && all[k3].0 == ci3,
                        ).contains(ci2) == world.spec_entities().component_set(
                            entity.spec_id(),
                        ).contains(ci2) by {
                        if ci2 == ci {
                            assert(all[m1].0 == ci2);
                        } else {
                            if exists|k3: int| m1 <= k3 < all.len() && all[k3].0 == ci2 {
                                let k3 = choose|k3: int|
                                    m1 <= k3 < all.len() && all[k3].0 == ci2;
                                assert(k3 != m1);
                                assert(m0 <= k3 < all.len() && all[k3].0 == ci2);
                            }
                            if exists|k3: int| m0 <= k3 < all.len() && all[k3].0 == ci2 {
                                let k3 = choose|k3: int|
                                    m0 <= k3 < all.len() && all[k3].0 == ci2;
                                assert(m1 <= k3 < all.len() && all[k3].0 == ci2);
                            }
                        }
                    }
                };
                assert forall|k2: int|
                    m1 <= k2 < all.len() implies ((#[trigger] all[k2]).0 as int)
                        < world.storage_count() && world.storage_view(all[k2].0 as int)[
                    entity.spec_id() as u32] == all[k2].1 by {
                    if k2 > m1 {
                        assert(all[k2].0 != all[m1].0);
                        assert(((all[k2]).0 as int) < pre_step.storage_count());
                        assert(pre_step.storage_view(all[k2].0 as int)[entity.spec_id()
                            as u32] == all[k2].1);
                        assert(world.storage_view(all[k2].0 as int) == pre_step.storage_view(
                            all[k2].0 as int,
                        ));
                    } else {
                        assert(pair == all[m1]);
                        assert(world.storage_view(ci as int) == (if (ci as int) < pre_step
                            .storage_count() {
                            pre_step.storage_view(ci as int)
                        } else {
                            Map::<u32, C>::empty()
                        }).insert(entity.spec_id() as u32, pair.1));
                        assert(world.storage_view(all[k2].0 as int)[entity.spec_id() as u32]
                            == all[k2].1);
                    }
                }
            }
        }
        proof {
            assert(all.take(0) =~= Seq::<(usize, C)>::empty());
        }
        proof {
            assert(world.spec_entities().component_set(entity.spec_id())
                =~= self.staged_cis().to_set()) by {
                assert forall|ci: usize|
                    world.spec_entities().component_set(entity.spec_id()).contains(ci)
                        == self.staged_cis().to_set().contains(ci) by {
                    if exists|k2: int| 0 <= k2 < all.len() && all[k2].0 == ci {
                        let k2 = choose|k2: int| 0 <= k2 < all.len() && all[k2].0 == ci;
                        assert(self.staged_cis()[k2] == ci);
                    }
                    if self.staged_cis().to_set().contains(ci) {
                        let k2 = choose|k2: int|
                            0 <= k2 < self.staged_cis().len() && self.staged_cis()[k2] == ci;
                        assert(all[k2].0 == ci);
                    }
                }
            };
        }
        entity
    }
}

} // verus!

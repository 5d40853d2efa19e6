//! The entity index: which entities exist and which archetype each
//! belongs to.
//!
//! An archetype is a set of component type indices; the index keeps one
//! bucket of entities per archetype, a map from entity to its bucket and
//! position, and lazily-built transition edges from an archetype to the
//! archetype reached by adding one component. Queries match archetype
//! signatures against a [`ArchetypeMatcher`] and walk the matching
//! buckets; a cursor per cached query lets newly created archetypes be
//! tested incrementally.

use std::collections::HashMap;

use vstd::prelude::*;

use crate::mask::ComponentMask;

verus! {

broadcast use vstd::std_specs::hash::group_hash_axioms;

/// An opaque, stable identifier for an entity, minted monotonically and
/// never reused within one index.
#[derive(Copy, Clone, PartialEq, Eq, Structural, Hash, Debug)]
pub struct Entity {
    id: u64,
}

impl Entity {
    pub closed spec fn spec_id(self) -> u64 {
        self.id
    }

    pub fn new(id: u64) -> (r: Self)
        ensures
            r.spec_id() == id,
    {
        Entity { id }
    }

    pub fn id(&self) -> (r: u64)
        ensures
            r == self.spec_id(),
    {
        self.id
    }

    /// An entity is nothing but its identifier: equal identifiers mean
    /// equal entities.
    pub proof fn lemma_id_injective(e1: Entity, e2: Entity)
        requires
            e1.spec_id() == e2.spec_id(),
        ensures
            e1 == e2,
    {
    }
}

/// An entity's place: its archetype and its position in that archetype's
/// bucket.
#[derive(Copy, Clone)]
pub struct EntityIndex {
    archetype: usize,
    index_in_archetype: usize,
}

impl EntityIndex {
    pub closed spec fn spec_archetype(self) -> int {
        self.archetype as int
    }

    pub closed spec fn spec_position(self) -> int {
        self.index_in_archetype as int
    }

    pub fn new(archetype: usize, index_in_archetype: usize) -> (r: EntityIndex)
        ensures
            r.spec_archetype() == archetype,
            r.spec_position() == index_in_archetype,
    {
        EntityIndex { archetype, index_in_archetype }
    }

    pub fn archetype(&self) -> (r: usize)
        ensures
            r == self.spec_archetype(),
    {
        self.archetype
    }

    pub fn index_in_archetype(&self) -> (r: usize)
        ensures
            r == self.spec_position(),
    {
        self.index_in_archetype
    }
}

/// What a query asks of an archetype: every component of `all`, none of
/// `none`.
pub struct ArchetypeMatcher {
    all: ComponentMask,
    none: ComponentMask,
}

impl ArchetypeMatcher {
    pub closed spec fn all_set(&self) -> Set<usize> {
        self.all.view()
    }

    pub closed spec fn none_set(&self) -> Set<usize> {
        self.none.view()
    }

    /// Whether a component set satisfies the matcher.
    pub open spec fn spec_matches(&self, components: Set<usize>) -> bool {
        self.all_set().subset_of(components) && self.none_set().intersect(
            components,
        ).is_empty()
    }

    pub fn new() -> (r: Self)
        ensures
            r.all_set() == Set::<usize>::empty(),
            r.none_set() == Set::<usize>::empty(),
    {
        ArchetypeMatcher { all: ComponentMask::new(), none: ComponentMask::new() }
    }

    /// Require the component to be present.
    pub fn add_all(&mut self, component_index: usize)
        requires
            component_index < crate::mask::COMPONENT_INDEX_LIMIT,
        ensures
            final(self).all_set() == old(self).all_set().insert(component_index),
            final(self).none_set() == old(self).none_set(),
    {
        let _ = self.all.insert(component_index);
    }

    /// Require the component to be absent.
    pub fn add_none(&mut self, component_index: usize)
        requires
            component_index < crate::mask::COMPONENT_INDEX_LIMIT,
        ensures
            final(self).none_set() == old(self).none_set().insert(component_index),
            final(self).all_set() == old(self).all_set(),
    {
        let _ = self.none.insert(component_index);
    }

    /// Whether an archetype signature satisfies the matcher.
    pub fn is_matched(&self, archetype_component_mask: &ComponentMask) -> (r: bool)
        ensures
            r == self.spec_matches(archetype_component_mask.view()),
    {
        self.all.is_subset(archetype_component_mask) && self.none.is_disjoint(
            archetype_component_mask,
        )
    }
}


/// Appending a position not yet listed keeps a sequence duplicate-free.
pub proof fn lemma_push_fresh_usizes(s: Seq<usize>, e: usize)
    requires
        s.no_duplicates(),
        !s.contains(e),
    ensures
        s.push(e).no_duplicates(),
{
    let t = s.push(e);
    assert forall|i: int, j: int|
        0 <= i < t.len() && 0 <= j < t.len() && i != j implies t[i] != t[j] by {
        if i < s.len() && j < s.len() {
            assert(t[i] == s[i] && t[j] == s[j]);
        } else if i < s.len() {
            assert(t[j] == e && t[i] == s[i]);
            assert(s.contains(s[i]));
        } else {
            assert(t[i] == e && t[j] == s[j]);
            assert(s.contains(s[j]));
        }
    }
}

/// Appending an entity not yet listed keeps a sequence duplicate-free.
proof fn lemma_push_fresh_entities(s: Seq<Entity>, e: Entity)
    requires
        s.no_duplicates(),
        !s.contains(e),
    ensures
        s.push(e).no_duplicates(),
{
    let t = s.push(e);
    assert forall|i: int, j: int|
        0 <= i < t.len() && 0 <= j < t.len() && i != j implies t[i] != t[j] by {
        if i < s.len() && j < s.len() {
            assert(t[i] == s[i] && t[j] == s[j]);
        } else if i < s.len() {
            assert(t[j] == e && t[i] == s[i]);
            assert(s.contains(s[i]));
        } else {
            assert(t[i] == e && t[j] == s[j]);
            assert(s.contains(s[j]));
        }
    }
}

/// The entity index: alive entities grouped into archetype buckets.
pub struct Entities {
    next_id: u64,
    entity_to_index: HashMap<u64, EntityIndex>,
    archetypes_entities: Vec<Vec<Entity>>,
    archetypes_component_mask: Vec<ComponentMask>,
    archetypes_add_to_next: Vec<HashMap<usize, usize>>,
}

impl Entities {
    /// The identifiers of the alive entities.
    pub closed spec fn alive_ids(&self) -> Set<u64> {
        self.entity_to_index@.dom()
    }

    pub open spec fn spec_is_alive(&self, e: Entity) -> bool {
        self.alive_ids().contains(e.spec_id())
    }

    /// The place an alive entity is recorded at.
    pub closed spec fn place_of(&self, id: u64) -> EntityIndex {
        self.entity_to_index@[id]
    }

    /// How many archetypes exist.
    pub closed spec fn archetype_count(&self) -> int {
        self.archetypes_entities@.len() as int
    }

    /// The component signature of an archetype.
    pub closed spec fn archetype_components(&self, a: int) -> Set<usize> {
        self.archetypes_component_mask@[a].view()
    }

    /// An archetype's bucket of entities.
    pub closed spec fn bucket(&self, a: int) -> Seq<Entity> {
        self.archetypes_entities@[a]@
    }

    /// The set of component types an alive entity has.
    pub open spec fn component_set(&self, id: u64) -> Set<usize> {
        self.archetype_components(self.place_of(id).spec_archetype())
    }

    /// The identifier the next created entity will get.
    pub closed spec fn spec_next_id(&self) -> u64 {
        self.next_id
    }

    pub closed spec fn wf(&self) -> bool {
        &&& self.archetypes_component_mask@.len() == self.archetypes_entities@.len()
        &&& self.archetypes_add_to_next@.len() == self.archetypes_entities@.len()
        &&& self.next_id <= crate::mask::MEMBER_ID_LIMIT as u64
        &&& forall|id: u64|
            #[trigger] self.alive_ids().contains(id) ==> {
                let v = self.entity_to_index@[id];
                &&& id < self.next_id
                &&& 0 <= v.spec_archetype() < self.archetypes_entities@.len()
                &&& 0 <= v.spec_position() < self.archetypes_entities@[v.spec_archetype()]@.len()
                &&& self.archetypes_entities@[v.spec_archetype()]@[v.spec_position()].spec_id()
                    == id
            }
        &&& forall|a: int, i: int|
            0 <= a < self.archetypes_entities@.len() && 0 <= i
                < self.archetypes_entities@[a]@.len() ==> {
                let e = #[trigger] self.archetypes_entities@[a]@[i];
                &&& self.alive_ids().contains(e.spec_id())
                &&& self.entity_to_index@[e.spec_id()].spec_archetype() == a
                &&& self.entity_to_index@[e.spec_id()].spec_position() == i
            }
        &&& forall|a1: int, a2: int|
            0 <= a1 < a2 < self.archetypes_component_mask@.len()
                ==> #[trigger] self.archetypes_component_mask@[a1].view()
                != #[trigger] self.archetypes_component_mask@[a2].view()
        &&& forall|a: int, ci: usize|
            0 <= a < self.archetypes_add_to_next@.len()
                && #[trigger] self.archetypes_add_to_next@[a]@.dom().contains(ci) ==> {
                let b = self.archetypes_add_to_next@[a]@[ci] as int;
                &&& 0 <= b < self.archetypes_component_mask@.len()
                &&& self.archetypes_component_mask@[b].view()
                    == self.archetypes_component_mask@[a].view().insert(ci)
            }
    }

    pub fn new() -> (r: Self)
        ensures
            r.wf(),
            r.alive_ids() == Set::<u64>::empty(),
            r.spec_next_id() == 0,
            r.archetype_count() == 0,
    {
        Entities {
            next_id: 0,
            entity_to_index: HashMap::new(),
            archetypes_entities: Vec::new(),
            archetypes_component_mask: Vec::new(),
            archetypes_add_to_next: Vec::new(),
        }
    }

    /// How many entities are alive.
    pub fn len(&self) -> (r: usize)
        ensures
            r == self.alive_ids().len(),
    {
        self.entity_to_index.len()
    }

    pub fn is_empty(&self) -> (r: bool)
        ensures
            r == (self.alive_ids().len() == 0),
    {
        self.len() == 0
    }

    pub fn is_alive(&self, entity: Entity) -> (r: bool)
        ensures
            r == self.spec_is_alive(entity),
    {
        self.entity_to_index.contains_key(&entity.id())
    }

    /// Find the archetype with the given signature, creating an empty one
    /// when none exists. The mask is consumed.
    fn get_or_insert_archetype(&mut self, mask: ComponentMask) -> (r: usize)
        requires
            old(self).wf(),
        ensures
            final(self).wf(),
            0 <= r < final(self).archetype_count(),
            final(self).archetype_components(r as int) == crate::mask::mask_bits(mask),
            final(self).archetype_count() >= old(self).archetype_count(),
            // existing archetypes are untouched; a new one starts empty
            forall|a: int|
                0 <= a < old(self).archetype_count() ==> final(self).bucket(a) == old(
                    self,
                ).bucket(a) && final(self).archetype_components(a) == old(
                    self,
                ).archetype_components(a),
            final(self).archetype_count() > old(self).archetype_count() ==> {
                &&& final(self).archetype_count() == old(self).archetype_count() + 1
                &&& r as int == old(self).archetype_count()
                &&& final(self).bucket(r as int) == Seq::<Entity>::empty()
                &&& final(self).archetypes_add_to_next@[r as int]@ == Map::<usize, usize>::empty()
            },
            final(self).entity_to_index@ == old(self).entity_to_index@,
            final(self).spec_next_id() == old(self).spec_next_id(),
            forall|a: int|
                0 <= a < old(self).archetype_count()
                    ==> #[trigger] final(self).archetypes_add_to_next@[a]@
                    == old(self).archetypes_add_to_next@[a]@,
    {
        let count = self.archetypes_component_mask.len();
        let mut a: usize = 0;
        while a < count
            invariant
                self.wf(),
                count == self.archetypes_component_mask@.len(),
                0 <= a <= count,
                forall|a2: int|
                    0 <= a2 < a ==> #[trigger] self.archetypes_component_mask@[a2].view()
                        != mask.view(),
            decreases count - a,
        {
            if self.archetypes_component_mask[a].set_eq(&mask) {
                return a;
            }
            a = a + 1;
        }
        let ghost pre = *self;
        self.archetypes_component_mask.push(mask);
        self.archetypes_entities.push(Vec::new());
        self.archetypes_add_to_next.push(HashMap::new());
        proof {
            let n = pre.archetypes_entities@.len() as int;
            assert forall|id: u64| #[trigger] self.alive_ids().contains(id) implies {
                let v = self.entity_to_index@[id];
                &&& id < self.next_id
                &&& 0 <= v.spec_archetype() < self.archetypes_entities@.len()
                &&& 0 <= v.spec_position() < self.archetypes_entities@[v.spec_archetype()]@.len()
                &&& self.archetypes_entities@[v.spec_archetype()]@[v.spec_position()].spec_id()
                    == id
            } by {
                assert(pre.alive_ids().contains(id));
                let v = pre.entity_to_index@[id];
                assert(self.archetypes_entities@[v.spec_archetype()]@ == pre.archetypes_entities@[
                    v.spec_archetype()]@);
            }
            assert(self.wf());
        }
        count
    }

    /// Append an entity to an archetype's bucket and return its place.
    fn push_entity(&mut self, archetype: usize, entity: Entity) -> (r: EntityIndex)
        requires
            old(self).wf(),
            0 <= archetype < old(self).archetype_count(),
            !old(self).spec_is_alive(entity),
        ensures
            r.spec_archetype() == archetype,
            r.spec_position() == old(self).bucket(archetype as int).len(),
            final(self).archetypes_entities@.len() == old(self).archetypes_entities@.len(),
            forall|a: int|
                0 <= a < old(self).archetype_count() && a != archetype
                    ==> #[trigger] final(self).bucket(a) == old(self).bucket(a),
            final(self).entity_to_index@ == old(self).entity_to_index@,
            final(self).archetypes_component_mask@ == old(self).archetypes_component_mask@,
            final(self).archetypes_add_to_next@ == old(self).archetypes_add_to_next@,
            final(self).spec_next_id() == old(self).spec_next_id(),
            final(self).bucket(archetype as int) == old(self).bucket(archetype as int).push(
                entity,
            ),
    {
        let bucket = &mut self.archetypes_entities[archetype];
        let index_in_archetype = bucket.len();
        bucket.push(entity);
        EntityIndex { archetype, index_in_archetype }
    }

    /// Mint a fresh entity and file it under the empty archetype.
    pub fn new_entity(&mut self) -> (r: Entity)
        requires
            old(self).wf(),
            old(self).spec_next_id() < crate::mask::MEMBER_ID_LIMIT as u64,
        ensures
            final(self).wf(),
            r.spec_id() == old(self).spec_next_id(),
            final(self).spec_next_id() == old(self).spec_next_id() + 1,
            !old(self).spec_is_alive(r),
            final(self).spec_is_alive(r),
            final(self).alive_ids() == old(self).alive_ids().insert(r.spec_id()),
            final(self).component_set(r.spec_id()) == Set::<usize>::empty(),
            forall|id: u64|
                old(self).alive_ids().contains(id) ==> #[trigger] final(self).component_set(id)
                    == old(self).component_set(id),
    {
        let id = self.next_id;
        self.next_id = self.next_id + 1;
        let entity = Entity { id };
        proof {
            assert(self.alive_ids() == old(self).alive_ids());
            assert(self.wf()) by {
                assert forall|id2: u64| #[trigger] self.alive_ids().contains(id2) implies {
                    let v = self.entity_to_index@[id2];
                    &&& id2 < self.next_id
                    &&& 0 <= v.spec_archetype() < self.archetypes_entities@.len()
                    &&& 0 <= v.spec_position() < self.archetypes_entities@[
                        v.spec_archetype()]@.len()
                    &&& self.archetypes_entities@[v.spec_archetype()]@[
                        v.spec_position()].spec_id() == id2
                } by {
                    assert(old(self).alive_ids().contains(id2));
                }
            };
        }
        let empty_mask = ComponentMask::new();
        let archetype = self.get_or_insert_archetype(empty_mask);
        let ghost mid = *self;
        proof {
            assert(!mid.spec_is_alive(entity)) by {
                if mid.alive_ids().contains(id) {
                    assert(old(self).alive_ids().contains(id));
                }
            };
        }
        let new_entity_index = self.push_entity(archetype, entity);
        let ghost pushed = *self;
        self.entity_to_index.insert(id, new_entity_index);
        proof {
            let arch = archetype as int;
            assert(self.alive_ids() =~= old(self).alive_ids().insert(id));
            assert(self.archetypes_entities@ == pushed.archetypes_entities@);
            assert forall|a: int|
                0 <= a < self.archetypes_entities@.len() implies #[trigger] self.bucket(a)
                == pushed.bucket(a) by {
                assert(self.archetypes_entities@[a] == pushed.archetypes_entities@[a]);
            }
            assert(self.bucket(arch) == mid.bucket(arch).push(entity));
            assert forall|id2: u64| #[trigger] self.alive_ids().contains(id2) implies {
                let v = self.entity_to_index@[id2];
                &&& id2 < self.next_id
                &&& 0 <= v.spec_archetype() < self.archetypes_entities@.len()
                &&& 0 <= v.spec_position() < self.archetypes_entities@[v.spec_archetype()]@.len()
                &&& self.archetypes_entities@[v.spec_archetype()]@[v.spec_position()].spec_id()
                    == id2
            } by {
                if id2 != id {
                    assert(mid.alive_ids().contains(id2));
                    let v = mid.entity_to_index@[id2];
                    assert(self.entity_to_index@[id2] == v);
                    if v.spec_archetype() == arch {
                        assert(self.bucket(arch)[v.spec_position()] == mid.bucket(arch)[
                            v.spec_position()]);
                    } else {
                        assert(self.bucket(v.spec_archetype()) == mid.bucket(
                            v.spec_archetype(),
                        ));
                    }
                } else {
                    assert(self.entity_to_index@[id] == new_entity_index);
                    assert(self.bucket(arch)[new_entity_index.spec_position()] == entity);
                }
            }
            assert forall|a: int, i: int|
                0 <= a < self.archetypes_entities@.len() && 0 <= i
                    < self.archetypes_entities@[a]@.len() implies {
                let e = #[trigger] self.archetypes_entities@[a]@[i];
                &&& self.alive_ids().contains(e.spec_id())
                &&& self.entity_to_index@[e.spec_id()].spec_archetype() == a
                &&& self.entity_to_index@[e.spec_id()].spec_position() == i
            } by {
                if a == arch {
                    if i == mid.bucket(arch).len() {
                        assert(self.bucket(a)[i] == entity);
                        assert(self.entity_to_index@[id] == new_entity_index);
                    } else {
                        assert(self.bucket(a)[i] == mid.bucket(a)[i]);
                        let e = mid.bucket(a)[i];
                        assert(mid.alive_ids().contains(e.spec_id()));
                        assert(e.spec_id() != id);
                        assert(self.entity_to_index@[e.spec_id()] == mid.entity_to_index@[
                            e.spec_id()]);
                    }
                } else {
                    assert(self.bucket(a) == mid.bucket(a));
                    let e = mid.bucket(a)[i];
                    assert(mid.alive_ids().contains(e.spec_id()));
                    assert(e.spec_id() != id);
                    assert(self.entity_to_index@[e.spec_id()] == mid.entity_to_index@[
                        e.spec_id()]);
                }
            }
            assert(self.wf());
            assert forall|id2: u64|
                old(self).alive_ids().contains(id2) implies #[trigger] self.component_set(id2)
                == old(self).component_set(id2) by {
                assert(id2 != id);
                assert(self.place_of(id2) == mid.place_of(id2));
                assert(mid.archetype_components(mid.place_of(id2).spec_archetype()) == old(
                    self,
                ).archetype_components(old(self).place_of(id2).spec_archetype()));
            }
        }
        entity
    }

    /// Every alive entity sits in exactly one archetype bucket, at the
    /// position its index entry records: the recorded place holds the
    /// entity, and any bucket slot holding it is that place.
    pub proof fn lemma_unique_position(&self, id: u64)
        requires
            self.wf(),
            self.alive_ids().contains(id),
        ensures
            0 <= self.place_of(id).spec_archetype() < self.archetype_count(),
            0 <= self.place_of(id).spec_position() < self.bucket(
                self.place_of(id).spec_archetype(),
            ).len(),
            self.bucket(self.place_of(id).spec_archetype())[self.place_of(
                id,
            ).spec_position()].spec_id() == id,
            forall|a: int, i: int|
                0 <= a < self.archetype_count() && 0 <= i < self.bucket(a).len() && (
                #[trigger] self.bucket(a)[i]).spec_id() == id ==> a == self.place_of(
                    id,
                ).spec_archetype() && i == self.place_of(id).spec_position(),
    {
        assert forall|a: int, i: int|
            0 <= a < self.archetype_count() && 0 <= i < self.bucket(a).len() && (
            #[trigger] self.bucket(a)[i]).spec_id() == id implies a == self.place_of(
            id,
        ).spec_archetype() && i == self.place_of(id).spec_position() by {
            assert(self.archetypes_entities@[a]@[i] == self.bucket(a)[i]);
        }
    }

    /// Archetype counts are counts.
    pub proof fn lemma_archetype_count_nonneg(&self)
        ensures
            self.archetype_count() >= 0,
    {
    }

    /// Alive identifiers stay below the storage engines' index limit.
    pub proof fn lemma_alive_id_bound(&self, id: u64)
        requires
            self.wf(),
            self.alive_ids().contains(id),
        ensures
            id < crate::mask::MEMBER_ID_LIMIT as u64,
    {
    }

    /// How many archetypes exist.
    pub fn archetype_count_exec(&self) -> (r: usize)
        ensures
            r == self.archetype_count(),
    {
        self.archetypes_entities.len()
    }

    /// The component signature of an archetype.
    pub fn archetype_mask_at(&self, a: usize) -> (r: &ComponentMask)
        requires
            self.wf(),
            0 <= a < self.archetype_count(),
        ensures
            r.view() == self.archetype_components(a as int),
    {
        &self.archetypes_component_mask[a]
    }

    /// Remove an entity; a dead entity is ignored. Returns the component
    /// type indices the entity had, in increasing order, so the caller
    /// can clear its storages.
    pub fn kill(&mut self, entity: Entity) -> (r: Vec<usize>)
        requires
            old(self).wf(),
        ensures
            final(self).wf(),
            !final(self).spec_is_alive(entity),
            final(self).spec_next_id() == old(self).spec_next_id(),
            final(self).archetype_count() == old(self).archetype_count(),
            forall|a: int|
                0 <= a < old(self).archetype_count() ==> #[trigger] final(self).archetype_components(a) == old(self).archetype_components(a),
            old(self).spec_is_alive(entity) ==> {
                &&& final(self).alive_ids() == old(self).alive_ids().remove(entity.spec_id())
                &&& r@.to_set() == old(self).component_set(entity.spec_id())
                &&& forall|i: int, j: int| 0 <= i < j < r@.len() ==> r@[i] < r@[j]
                &&& forall|id: u64|
                    old(self).alive_ids().contains(id) && id != entity.spec_id()
                        ==> #[trigger] final(self).component_set(id) == old(self).component_set(
                        id,
                    )
            },
            !old(self).spec_is_alive(entity) ==> *final(self) == *old(self) && r@ == Seq::<
                usize,
            >::empty(),
    {
        let id = entity.id();
        if !self.entity_to_index.contains_key(&id) {
            let r: Vec<usize> = Vec::new();
            proof {
                assert(r@ =~= Seq::<usize>::empty());
            }
            return r;
        }
        let entity_index = match self.entity_to_index.get(&id) {
            Some(v) => *v,
            None => {
                proof {
                    assert(false);
                }
                EntityIndex { archetype: 0, index_in_archetype: 0 }
            },
        };
        proof {
            assert(old(self).alive_ids().contains(id));
            assert(old(self).entity_to_index@[id] == entity_index);
        }
        self.entity_to_index.remove(&id);
        let ghost mid = *self;
        let arch = entity_index.archetype;
        let pos = entity_index.index_in_archetype;
        let bucket = &mut self.archetypes_entities[arch];
        let last = bucket[bucket.len() - 1];
        let _ = bucket.swap_remove(pos);
        let ghost removed = *self;
        if last.id() != id {
            self.entity_to_index.insert(last.id(), entity_index);
        }
        let comps = self.archetypes_component_mask[arch].iter_indices();
        proof {
            let pre = *old(self);
            let aint = arch as int;
            let n = pre.bucket(aint).len();
            assert(pre.entity_to_index@[id] == entity_index);
            assert(pre.bucket(aint)[pos as int].spec_id() == id);
            assert(last == pre.bucket(aint)[n - 1]);
            assert(self.archetypes_entities@ == removed.archetypes_entities@);
            assert forall|a: int|
                0 <= a < self.archetypes_entities@.len() implies #[trigger] self.bucket(a)
                == removed.bucket(a) by {
                assert(self.archetypes_entities@[a] == removed.archetypes_entities@[a]);
            }
            assert(self.bucket(aint) == pre.bucket(aint).update(pos as int, last).drop_last());
            assert forall|a: int|
                0 <= a < self.archetypes_entities@.len() && a != aint implies #[trigger] self
                .bucket(a) == pre.bucket(a) by {
                assert(removed.archetypes_entities@[a] == pre.archetypes_entities@[a]);
            }
            if last.spec_id() == id {
                assert(pos == n - 1) by {
                    assert(pre.entity_to_index@[last.spec_id()].spec_position() == n - 1);
                };
                assert(self.alive_ids() =~= pre.alive_ids().remove(id));
            } else {
                assert(self.alive_ids() =~= pre.alive_ids().remove(id));
            }
            assert forall|id2: u64| #[trigger] self.alive_ids().contains(id2) implies {
                let v = self.entity_to_index@[id2];
                &&& id2 < self.next_id
                &&& 0 <= v.spec_archetype() < self.archetypes_entities@.len()
                &&& 0 <= v.spec_position() < self.archetypes_entities@[v.spec_archetype()]@.len()
                &&& self.archetypes_entities@[v.spec_archetype()]@[v.spec_position()].spec_id()
                    == id2
            } by {
                assert(pre.alive_ids().contains(id2));
                let v0 = pre.entity_to_index@[id2];
                if last.spec_id() != id && id2 == last.spec_id() {
                    assert(self.entity_to_index@[id2] == entity_index);
                    assert(v0.spec_archetype() == aint && v0.spec_position() == n - 1);
                    if pos as int == n - 1 {
                        assert(pre.bucket(aint)[pos as int].spec_id() == id);
                    }
                    assert(self.bucket(aint)[pos as int] == last);
                } else {
                    assert(self.entity_to_index@[id2] == v0);
                    if v0.spec_archetype() == aint {
                        assert(v0.spec_position() != pos as int) by {
                            if v0.spec_position() == pos as int {
                                assert(pre.bucket(aint)[pos as int].spec_id() == id2);
                            }
                        };
                        assert(v0.spec_position() != n - 1) by {
                            if v0.spec_position() == n - 1 {
                                assert(pre.bucket(aint)[n - 1].spec_id() == id2);
                                assert(id2 == last.spec_id());
                            }
                        };
                        assert(self.bucket(aint)[v0.spec_position()] == pre.bucket(aint)[
                            v0.spec_position()]);
                    } else {
                        assert(self.bucket(v0.spec_archetype()) == pre.bucket(
                            v0.spec_archetype(),
                        ));
                    }
                }
            }
            assert forall|a: int, i: int|
                0 <= a < self.archetypes_entities@.len() && 0 <= i
                    < self.archetypes_entities@[a]@.len() implies {
                let e = #[trigger] self.archetypes_entities@[a]@[i];
                &&& self.alive_ids().contains(e.spec_id())
                &&& self.entity_to_index@[e.spec_id()].spec_archetype() == a
                &&& self.entity_to_index@[e.spec_id()].spec_position() == i
            } by {
                assert(self.archetypes_entities@[a]@ == self.bucket(a));
                if a == aint && i == pos as int && pos as int != n - 1 {
                    assert(self.bucket(a)[i] == last);
                    assert(pre.entity_to_index@[last.spec_id()].spec_position() == n - 1);
                    assert(last.spec_id() != id);
                    assert(self.entity_to_index@[last.spec_id()] == entity_index);
                } else {
                    if a == aint {
                        assert(self.bucket(a)[i] == pre.bucket(a)[i]);
                    } else {
                        assert(self.bucket(a) == pre.bucket(a));
                    }
                    let e = pre.bucket(a)[i];
                    assert(pre.alive_ids().contains(e.spec_id()));
                    assert(pre.entity_to_index@[e.spec_id()].spec_archetype() == a);
                    assert(pre.entity_to_index@[e.spec_id()].spec_position() == i);
                    assert(e.spec_id() != id) by {
                        if e.spec_id() == id {
                            assert(pre.entity_to_index@[id] == entity_index);
                        }
                    };
                    if last.spec_id() != id && e.spec_id() == last.spec_id() {
                        assert(a == aint && i == n - 1);
                        assert(false);
                    }
                    assert(self.entity_to_index@[e.spec_id()] == pre.entity_to_index@[
                        e.spec_id()]);
                }
            }
            assert(self.wf());
            assert(comps@.to_set() == pre.component_set(id));
            assert forall|id2: u64|
                pre.alive_ids().contains(id2) && id2 != id implies #[trigger] self.component_set(
                id2,
            ) == pre.component_set(id2) by {
                if last.spec_id() != id && id2 == last.spec_id() {
                    assert(self.place_of(id2) == entity_index);
                    assert(pre.place_of(id2).spec_archetype() == aint);
                } else {
                    assert(self.place_of(id2) == pre.place_of(id2));
                }
            }
        }
        comps
    }

    /// Move an entity to the archetype that also has the given component,
    /// creating the archetype and the transition edge lazily. Called by
    /// the storage write path; a dead entity is ignored.
    pub fn on_component_inserted(&mut self, entity: Entity, component_index: usize) -> (moved:
        bool)
        requires
            old(self).wf(),
            component_index < crate::mask::COMPONENT_INDEX_LIMIT,
        ensures
            final(self).wf(),
            final(self).alive_ids() == old(self).alive_ids(),
            final(self).spec_next_id() == old(self).spec_next_id(),
            moved == old(self).spec_is_alive(entity),
            old(self).spec_is_alive(entity) ==> {
                &&& final(self).component_set(entity.spec_id()) == old(self).component_set(
                    entity.spec_id(),
                ).insert(component_index)
                &&& forall|id: u64|
                    old(self).alive_ids().contains(id) && id != entity.spec_id()
                        ==> #[trigger] final(self).component_set(id) == old(self).component_set(
                        id,
                    )
            },
            !old(self).spec_is_alive(entity) ==> *final(self) == *old(self),
            final(self).archetype_count() >= old(self).archetype_count(),
            forall|a: int|
                0 <= a < old(self).archetype_count() ==> #[trigger] final(self).archetype_components(a) == old(self).archetype_components(a),
    {
        let id = entity.id();
        if !self.entity_to_index.contains_key(&id) {
            return false;
        }
        let entity_index = match self.entity_to_index.get(&id) {
            Some(v) => *v,
            None => {
                proof {
                    assert(false);
                }
                EntityIndex { archetype: 0, index_in_archetype: 0 }
            },
        };
        proof {
            assert(self.alive_ids().contains(id));
            assert(self.entity_to_index@[id] == entity_index);
        }
        let from_arch = entity_index.archetype;
        let cached: Option<usize> = match self.archetypes_add_to_next[from_arch].get(
            &component_index,
        ) {
            Some(b) => Some(*b),
            None => None,
        };
        let next_arch = match cached {
            Some(b) => {
                proof {
                    assert(self.archetypes_add_to_next@[from_arch as int]@.dom().contains(
                        component_index,
                    ));
                    assert(self.archetypes_add_to_next@[from_arch as int]@[component_index]
                        == b);
                }
                b
            },
            None => {
                let mut next_mask = self.archetypes_component_mask[from_arch].clone_mask();
                let _ = next_mask.insert(component_index);
                let ghost before_arch = *self;
                let b = self.get_or_insert_archetype(next_mask);
                let ghost arch_added = *self;
                let edges = &mut self.archetypes_add_to_next[from_arch];
                edges.insert(component_index, b);
                proof {
                    assert(self.entity_to_index@ == before_arch.entity_to_index@);
                    let fa = from_arch as int;
                    assert forall|a: int, ci: usize|
                        0 <= a < self.archetypes_add_to_next@.len()
                            && #[trigger] self.archetypes_add_to_next@[a]@.dom().contains(
                            ci,
                        ) implies {
                        let b2 = self.archetypes_add_to_next@[a]@[ci] as int;
                        &&& 0 <= b2 < self.archetypes_component_mask@.len()
                        &&& self.archetypes_component_mask@[b2].view()
                            == self.archetypes_component_mask@[a].view().insert(ci)
                    } by {
                        assert(arch_added.archetype_components(fa) == before_arch
                            .archetype_components(fa));
                        if a == fa && ci == component_index {
                            assert(self.archetypes_add_to_next@[a]@[ci] == b);
                            assert(arch_added.archetype_components(b as int) == crate::mask
                                ::mask_bits(next_mask));
                        } else {
                            if a == fa {
                                assert(arch_added.archetypes_add_to_next@[a]@.dom().contains(
                                    ci,
                                ));
                            } else {
                                assert(self.archetypes_add_to_next@[a]@ == arch_added
                                    .archetypes_add_to_next@[a]@);
                            }
                            if a < before_arch.archetype_count() {
                                assert(arch_added.archetypes_add_to_next@[a]@ == before_arch
                                    .archetypes_add_to_next@[a]@);
                                assert(before_arch.archetypes_add_to_next@[a]@.dom().contains(
                                    ci,
                                ));
                                let b2 = before_arch.archetypes_add_to_next@[a]@[ci] as int;
                                assert(arch_added.archetype_components(b2) == before_arch
                                    .archetype_components(b2));
                                assert(arch_added.archetype_components(a) == before_arch
                                    .archetype_components(a));
                            } else {
                                assert(arch_added.archetypes_add_to_next@[a]@ == Map::<
                                    usize,
                                    usize,
                                >::empty());
                            }
                        }
                    }
                    assert forall|id2: u64| #[trigger] self.alive_ids().contains(id2) implies {
                        let v = self.entity_to_index@[id2];
                        &&& id2 < self.next_id
                        &&& 0 <= v.spec_archetype() < self.archetypes_entities@.len()
                        &&& 0 <= v.spec_position() < self.archetypes_entities@[
                            v.spec_archetype()]@.len()
                        &&& self.archetypes_entities@[v.spec_archetype()]@[
                            v.spec_position()].spec_id() == id2
                    } by {
                        assert(before_arch.alive_ids().contains(id2));
                        let v = before_arch.entity_to_index@[id2];
                        assert(self.bucket(v.spec_archetype()) == arch_added.bucket(
                            v.spec_archetype(),
                        ));
                        assert(arch_added.bucket(v.spec_archetype()) == before_arch.bucket(
                            v.spec_archetype(),
                        ));
                    }
                    assert(self.wf());
                    assert(self.archetype_components(b as int) == arch_added
                        .archetype_components(b as int));
                    assert(arch_added.archetype_components(fa) == before_arch
                        .archetype_components(fa));
                    assert(self.archetype_components(fa) == arch_added.archetype_components(
                        fa,
                    ));
                    assert(self.archetype_components(b as int) == self.archetype_components(
                        fa,
                    ).insert(component_index));
                }
                b
            },
        };
        proof {
            assert(self.archetype_components(next_arch as int) == self.archetype_components(
                entity_index.spec_archetype(),
            ).insert(component_index));
        }
        self.transfer(entity, entity_index, next_arch);
        true
    }

    /// Swap-remove an entity from its source bucket (repointing the
    /// displaced last entity), append it to the target bucket, and record
    /// its new place.
    fn transfer(&mut self, entity: Entity, from: EntityIndex, to: usize)
        requires
            old(self).wf(),
            old(self).spec_is_alive(entity),
            old(self).place_of(entity.spec_id()) == from,
            0 <= to < old(self).archetype_count(),
        ensures
            final(self).wf(),
            final(self).alive_ids() == old(self).alive_ids(),
            final(self).spec_next_id() == old(self).spec_next_id(),
            final(self).archetype_count() == old(self).archetype_count(),
            forall|a: int|
                0 <= a < old(self).archetype_count() ==> #[trigger] final(self).archetype_components(a) == old(self).archetype_components(a),
            final(self).place_of(entity.spec_id()).spec_archetype() == to,
            forall|id: u64|
                old(self).alive_ids().contains(id) && id != entity.spec_id()
                    ==> #[trigger] final(self).place_of(id).spec_archetype() == old(
                    self,
                ).place_of(id).spec_archetype(),
    {
        let id = entity.id();
        proof {
            assert(old(self).alive_ids().contains(id));
        }
        let arch = from.archetype;
        let pos = from.index_in_archetype;
        let bucket = &mut self.archetypes_entities[arch];
        let last = bucket[bucket.len() - 1];
        let _ = bucket.swap_remove(pos);
        let ghost removed = *self;
        if last.id() != id {
            self.entity_to_index.insert(last.id(), from);
        }
        let ghost fixed = *self;
        let target = &mut self.archetypes_entities[to];
        let to_pos = target.len();
        target.push(entity);
        let to_entity_index = EntityIndex { archetype: to, index_in_archetype: to_pos };
        self.entity_to_index.insert(id, to_entity_index);
        proof {
            let pre = *old(self);
            let aint = arch as int;
            let tint = to as int;
            let n = pre.bucket(aint).len();
            assert(pre.bucket(aint)[pos as int].spec_id() == id);
            assert(last == pre.bucket(aint)[n - 1]);
            // Bucket shapes after the three mutations.
            assert(removed.bucket(aint) == pre.bucket(aint).update(pos as int, last)
                .drop_last());
            assert forall|a: int|
                0 <= a < pre.archetypes_entities@.len() && a != aint implies #[trigger] removed
                .bucket(a) == pre.bucket(a) by {
                assert(removed.archetypes_entities@[a] == pre.archetypes_entities@[a]);
            }
            assert(fixed.archetypes_entities@ == removed.archetypes_entities@);
            assert forall|a: int|
                0 <= a < pre.archetypes_entities@.len() implies #[trigger] fixed.bucket(a)
                == removed.bucket(a) by {
                assert(fixed.archetypes_entities@[a] == removed.archetypes_entities@[a]);
            }
            assert(self.bucket(tint) == fixed.bucket(tint).push(entity));
            assert forall|a: int|
                0 <= a < pre.archetypes_entities@.len() && a != tint implies #[trigger] self
                .bucket(a) == fixed.bucket(a) by {
                assert(self.archetypes_entities@[a] == fixed.archetypes_entities@[a]);
            }
            assert(self.alive_ids() =~= pre.alive_ids());
            if last.spec_id() == id {
                assert(pos == n - 1) by {
                    assert(pre.entity_to_index@[last.spec_id()].spec_position() == n - 1);
                };
            }
            assert forall|id2: u64| #[trigger] self.alive_ids().contains(id2) implies {
                let v = self.entity_to_index@[id2];
                &&& id2 < self.next_id
                &&& 0 <= v.spec_archetype() < self.archetypes_entities@.len()
                &&& 0 <= v.spec_position() < self.archetypes_entities@[v.spec_archetype()]@.len()
                &&& self.archetypes_entities@[v.spec_archetype()]@[v.spec_position()].spec_id()
                    == id2
            } by {
                assert(pre.alive_ids().contains(id2));
                let v0 = pre.entity_to_index@[id2];
                if id2 == id {
                    assert(self.entity_to_index@[id2] == to_entity_index);
                    assert(self.bucket(tint)[to_pos as int] == entity);
                } else if last.spec_id() != id && id2 == last.spec_id() {
                    assert(self.entity_to_index@[id2] == from);
                    assert(v0.spec_archetype() == aint && v0.spec_position() == n - 1);
                    if pos as int == n - 1 {
                        assert(pre.bucket(aint)[pos as int].spec_id() == id);
                    }
                    assert(fixed.bucket(aint)[pos as int] == last);
                    if aint == tint {
                        assert(self.bucket(aint)[pos as int] == last) by {
                            assert((pos as int) < fixed.bucket(aint).len());
                        };
                    } else {
                        assert(self.bucket(aint)[pos as int] == last);
                    }
                } else {
                    assert(self.entity_to_index@[id2] == v0);
                    if v0.spec_archetype() == aint {
                        assert(v0.spec_position() != pos as int) by {
                            if v0.spec_position() == pos as int {
                                assert(pre.bucket(aint)[pos as int].spec_id() == id2);
                            }
                        };
                        assert(v0.spec_position() != n - 1) by {
                            if v0.spec_position() == n - 1 {
                                assert(pre.bucket(aint)[n - 1].spec_id() == id2);
                            }
                        };
                        assert(fixed.bucket(aint)[v0.spec_position()] == pre.bucket(aint)[
                            v0.spec_position()]);
                        assert(self.bucket(aint)[v0.spec_position()] == fixed.bucket(aint)[
                            v0.spec_position()]) by {
                            assert(v0.spec_position() < fixed.bucket(aint).len());
                        };
                    } else {
                        assert(fixed.bucket(v0.spec_archetype()) == pre.bucket(
                            v0.spec_archetype(),
                        ));
                        assert(self.bucket(v0.spec_archetype())[v0.spec_position()] == fixed
                            .bucket(v0.spec_archetype())[v0.spec_position()]) by {
                            assert(v0.spec_position() < fixed.bucket(
                                v0.spec_archetype(),
                            ).len());
                        };
                    }
                }
            }
            assert forall|a: int, i: int|
                0 <= a < self.archetypes_entities@.len() && 0 <= i
                    < self.archetypes_entities@[a]@.len() implies {
                let e = #[trigger] self.archetypes_entities@[a]@[i];
                &&& self.alive_ids().contains(e.spec_id())
                &&& self.entity_to_index@[e.spec_id()].spec_archetype() == a
                &&& self.entity_to_index@[e.spec_id()].spec_position() == i
            } by {
                assert(self.archetypes_entities@[a]@ == self.bucket(a));
                if a == tint && i == self.bucket(tint).len() - 1 {
                    assert(self.bucket(a)[i] == entity);
                    assert(self.entity_to_index@[id] == to_entity_index);
                } else {
                    // the slot holds what `fixed` held there
                    assert(i < fixed.bucket(a).len());
                    assert(self.bucket(a)[i] == fixed.bucket(a)[i]);
                    let e = fixed.bucket(a)[i];
                    if a == aint && i == pos as int && pos as int != n - 1 {
                        assert(e == last);
                        assert(last.spec_id() != id) by {
                            if last.spec_id() == id {
                                assert(pos == n - 1);
                            }
                        };
                        assert(self.entity_to_index@[last.spec_id()] == from);
                        assert(pre.alive_ids().contains(last.spec_id()));
                    } else {
                        if a == aint {
                            assert(fixed.bucket(a)[i] == pre.bucket(a)[i]);
                        } else {
                            assert(fixed.bucket(a) == pre.bucket(a));
                        }
                        let e2 = pre.bucket(a)[i];
                        assert(e == e2);
                        assert(pre.alive_ids().contains(e.spec_id()));
                        assert(pre.entity_to_index@[e.spec_id()].spec_archetype() == a);
                        assert(pre.entity_to_index@[e.spec_id()].spec_position() == i);
                        assert(e.spec_id() != id) by {
                            if e.spec_id() == id {
                                assert(pre.place_of(id) == from);
                            }
                        };
                        assert(e.spec_id() != last.spec_id() || (a == aint && i == n - 1)) by {
                            if e.spec_id() == last.spec_id() {
                                assert(pre.entity_to_index@[e.spec_id()].spec_archetype()
                                    == aint);
                                assert(pre.entity_to_index@[e.spec_id()].spec_position() == n
                                    - 1);
                            }
                        };
                        if a == aint && i == n - 1 {
                            assert(i < removed.bucket(aint).len());
                            assert(n - 1 < n - 1);
                        }
                        assert(self.entity_to_index@[e.spec_id()] == pre.entity_to_index@[
                            e.spec_id()]);
                    }
                }
            }
            assert(self.wf());
            assert(self.place_of(id).spec_archetype() == tint);
            assert forall|id2: u64|
                pre.alive_ids().contains(id2) && id2 != id implies #[trigger] self.place_of(
                id2,
            ).spec_archetype() == pre.place_of(id2).spec_archetype() by {
                if last.spec_id() != id && id2 == last.spec_id() {
                    assert(self.place_of(id2) == from);
                    assert(pre.place_of(id2).spec_archetype() == aint);
                } else {
                    assert(self.entity_to_index@[id2] == pre.entity_to_index@[id2]);
                }
            }
        }
    }

    /// Every alive entity, each exactly once.
    pub fn iter(&self) -> (r: Vec<Entity>)
        requires
            self.wf(),
        ensures
            r@.no_duplicates(),
            forall|e: Entity| r@.contains(e) <==> self.alive_ids().contains(e.spec_id()),
    {
        let mut out: Vec<Entity> = Vec::new();
        let count = self.archetypes_entities.len();
        let mut a: usize = 0;
        while a < count
            invariant
                self.wf(),
                count == self.archetypes_entities@.len(),
                0 <= a <= count,
                out@.no_duplicates(),
                forall|e: Entity|
                    #[trigger] out@.contains(e) <==> exists|a2: int, i: int|
                        0 <= a2 < a && 0 <= i < self.bucket(a2).len() && self.bucket(a2)[i]
                            == e,
            decreases count - a,
        {
            let bucket = &self.archetypes_entities[a];
            let blen = bucket.len();
            let mut i: usize = 0;
            while i < blen
                invariant
                    self.wf(),
                    count == self.archetypes_entities@.len(),
                    0 <= a < count,
                    blen == self.bucket(a as int).len(),
                    bucket@ == self.bucket(a as int),
                    0 <= i <= blen,
                    out@.no_duplicates(),
                    forall|e: Entity|
                        #[trigger] out@.contains(e) <==> exists|a2: int, i2: int|
                            (0 <= a2 < a && 0 <= i2 < self.bucket(a2).len() && self.bucket(a2)[
                                i2] == e) || (a2 == a && 0 <= i2 < i && self.bucket(a as int)[i2]
                                == e),
                decreases blen - i,
            {
                let e = bucket[i];
                proof {
                    assert(self.bucket(a as int)[i as int] == e);
                    assert(self.entity_to_index@[e.spec_id()].spec_archetype() == a as int);
                    assert(self.entity_to_index@[e.spec_id()].spec_position() == i as int);
                    if out@.contains(e) {
                        let (a2, i2) = choose|a2: int, i2: int|
                            (0 <= a2 < a && 0 <= i2 < self.bucket(a2).len() && self.bucket(a2)[
                                i2] == e) || (a2 == a && 0 <= i2 < i && self.bucket(a as int)[
                                i2] == e);
                        assert(self.entity_to_index@[e.spec_id()].spec_archetype() == a2);
                        assert(false);
                    }
                    lemma_push_fresh_entities(out@, e);
                }
                let ghost out0 = out@;
                out.push(e);
                proof {
                    assert forall|e2: Entity| #[trigger] out@.contains(e2) implies exists|
                        a2: int,
                        i2: int,
                    |
                        (0 <= a2 < a && 0 <= i2 < self.bucket(a2).len() && self.bucket(a2)[i2]
                            == e2) || (a2 == a && 0 <= i2 < i + 1 && self.bucket(a as int)[i2]
                            == e2) by {
                        let j = choose|j: int| 0 <= j < out@.len() && out@[j] == e2;
                        if j < out0.len() {
                            assert(out0.contains(e2)) by {
                                assert(out0[j] == e2);
                            };
                        } else {
                            assert(e2 == e);
                            assert(self.bucket(a as int)[i as int] == e2);
                        }
                    }
                    assert forall|e2: Entity|
                        (exists|a2: int, i2: int|
                            (0 <= a2 < a && 0 <= i2 < self.bucket(a2).len() && self.bucket(a2)[
                                i2] == e2) || (a2 == a && 0 <= i2 < i + 1 && self.bucket(
                                a as int,
                            )[i2] == e2)) implies #[trigger] out@.contains(e2) by {
                        let (a2, i2) = choose|a2: int, i2: int|
                            (0 <= a2 < a && 0 <= i2 < self.bucket(a2).len() && self.bucket(a2)[
                                i2] == e2) || (a2 == a && 0 <= i2 < i + 1 && self.bucket(
                                a as int,
                            )[i2] == e2);
                        if a2 == a && i2 == i as int {
                            assert(out@[out@.len() - 1] == e2);
                        } else {
                            assert(out0.contains(e2));
                            let j = choose|j: int| 0 <= j < out0.len() && out0[j] == e2;
                            assert(out@[j] == e2);
                        }
                    }
                }
                i = i + 1;
            }
            a = a + 1;
        }
        proof {
            assert forall|e: Entity|
                out@.contains(e) <==> self.alive_ids().contains(e.spec_id()) by {
                if out@.contains(e) {
                    let (a2, i2) = choose|a2: int, i2: int|
                        0 <= a2 < count && 0 <= i2 < self.bucket(a2).len() && self.bucket(a2)[
                            i2] == e;
                    assert(self.alive_ids().contains(e.spec_id()));
                }
                if self.alive_ids().contains(e.spec_id()) {
                    let v = self.entity_to_index@[e.spec_id()];
                    assert(self.bucket(v.spec_archetype())[v.spec_position()].spec_id()
                        == e.spec_id());
                    assert(self.bucket(v.spec_archetype())[v.spec_position()] == e);
                }
            }
        }
        out
    }

    /// Every alive entity whose component set satisfies the query's
    /// matcher, each exactly once: the intersection the join iterates.
    pub fn matched_entities(&self, m: &MatchedEntities) -> (r: Vec<Entity>)
        requires
            self.wf(),
            m.consistent_with(self),
            m.spec_cursor() == self.archetype_count(),
        ensures
            r@.no_duplicates(),
            forall|e: Entity|
                r@.contains(e) <==> (self.alive_ids().contains(e.spec_id())
                    && m.spec_matcher().spec_matches(self.component_set(e.spec_id()))),
    {
        let mut out: Vec<Entity> = Vec::new();
        let matched = m.matched_archetypes();
        let mcount = matched.len();
        let mut k: usize = 0;
        while k < mcount
            invariant
                self.wf(),
                m.consistent_with(self),
                m.spec_cursor() == self.archetype_count(),
                mcount == m.matched().len(),
                matched@ == m.matched(),
                0 <= k <= mcount,
                out@.no_duplicates(),
                forall|e: Entity|
                    #[trigger] out@.contains(e) <==> exists|k2: int, i: int|
                        0 <= k2 < k && 0 <= i < self.bucket(m.matched()[k2] as int).len()
                            && self.bucket(m.matched()[k2] as int)[i] == e,
            decreases mcount - k,
        {
            let a = matched[k];
            proof {
                assert(m.matched()[k as int] == a);
                assert((a as int) < self.archetype_count());
            }
            let bucket = &self.archetypes_entities[a];
            let blen = bucket.len();
            let mut i: usize = 0;
            while i < blen
                invariant
                    self.wf(),
                    m.consistent_with(self),
                    m.spec_cursor() == self.archetype_count(),
                    mcount == m.matched().len(),
                    matched@ == m.matched(),
                    0 <= k < mcount,
                    m.matched()[k as int] == a,
                    (a as int) < self.archetype_count(),
                    blen == self.bucket(a as int).len(),
                    bucket@ == self.bucket(a as int),
                    0 <= i <= blen,
                    out@.no_duplicates(),
                    forall|e: Entity|
                        #[trigger] out@.contains(e) <==> exists|k2: int, i2: int|
                            (0 <= k2 < k && 0 <= i2 < self.bucket(m.matched()[k2] as int).len()
                                && self.bucket(m.matched()[k2] as int)[i2] == e) || (k2 == k && 0
                                <= i2 < i && self.bucket(a as int)[i2] == e),
                decreases blen - i,
            {
                let e = bucket[i];
                proof {
                    assert(self.bucket(a as int)[i as int] == e);
                    assert(self.entity_to_index@[e.spec_id()].spec_archetype() == a as int);
                    assert(self.entity_to_index@[e.spec_id()].spec_position() == i as int);
                    if out@.contains(e) {
                        let (k2, i2) = choose|k2: int, i2: int|
                            (0 <= k2 < k && 0 <= i2 < self.bucket(m.matched()[k2] as int).len()
                                && self.bucket(m.matched()[k2] as int)[i2] == e) || (k2 == k && 0
                                <= i2 < i && self.bucket(a as int)[i2] == e);
                        if k2 < k as int {
                            assert(m.matched()[k2] < m.matched()[k as int]);
                            assert(self.entity_to_index@[e.spec_id()].spec_archetype()
                                == m.matched()[k2] as int);
                        }
                        assert(false);
                    }
                    lemma_push_fresh_entities(out@, e);
                }
                let ghost out0 = out@;
                out.push(e);
                proof {
                    assert forall|e2: Entity| #[trigger] out@.contains(e2) implies exists|
                        k2: int,
                        i2: int,
                    |
                        (0 <= k2 < k && 0 <= i2 < self.bucket(m.matched()[k2] as int).len()
                            && self.bucket(m.matched()[k2] as int)[i2] == e2) || (k2 == k && 0
                            <= i2 < i + 1 && self.bucket(a as int)[i2] == e2) by {
                        let j = choose|j: int| 0 <= j < out@.len() && out@[j] == e2;
                        if j < out0.len() {
                            assert(out0.contains(e2)) by {
                                assert(out0[j] == e2);
                            };
                        } else {
                            assert(e2 == e);
                            assert(self.bucket(a as int)[i as int] == e2);
                        }
                    }
                    assert forall|e2: Entity|
                        (exists|k2: int, i2: int|
                            (0 <= k2 < k && 0 <= i2 < self.bucket(m.matched()[k2] as int).len()
                                && self.bucket(m.matched()[k2] as int)[i2] == e2) || (k2 == k
                                && 0 <= i2 < i + 1 && self.bucket(a as int)[i2]
                                == e2)) implies #[trigger] out@.contains(e2) by {
                        let (k2, i2) = choose|k2: int, i2: int|
                            (0 <= k2 < k && 0 <= i2 < self.bucket(m.matched()[k2] as int).len()
                                && self.bucket(m.matched()[k2] as int)[i2] == e2) || (k2 == k
                                && 0 <= i2 < i + 1 && self.bucket(a as int)[i2] == e2);
                        if k2 == k as int && i2 == i as int {
                            assert(out@[out@.len() - 1] == e2);
                        } else {
                            assert(out0.contains(e2));
                            let j = choose|j: int| 0 <= j < out0.len() && out0[j] == e2;
                            assert(out@[j] == e2);
                        }
                    }
                }
                i = i + 1;
            }
            k = k + 1;
        }
        proof {
            assert forall|e: Entity|
                out@.contains(e) <==> (self.alive_ids().contains(e.spec_id())
                    && m.spec_matcher().spec_matches(self.component_set(e.spec_id()))) by {
                if out@.contains(e) {
                    let (k2, i2) = choose|k2: int, i2: int|
                        0 <= k2 < mcount && 0 <= i2 < self.bucket(m.matched()[k2] as int).len()
                            && self.bucket(m.matched()[k2] as int)[i2] == e;
                    let a2 = m.matched()[k2] as int;
                    assert(self.alive_ids().contains(e.spec_id()));
                    assert(self.entity_to_index@[e.spec_id()].spec_archetype() == a2);
                    assert(m.spec_matcher().spec_matches(self.archetype_components(a2)));
                }
                if self.alive_ids().contains(e.spec_id()) && m.spec_matcher().spec_matches(
                    self.component_set(e.spec_id()),
                ) {
                    let v = self.entity_to_index@[e.spec_id()];
                    let a2 = v.spec_archetype();
                    assert(m.spec_matcher().spec_matches(self.archetype_components(a2)));
                    assert(m.matched().contains(a2 as usize));
                    let k2 = choose|k2: int|
                        0 <= k2 < m.matched().len() && m.matched()[k2] == a2 as usize;
                    assert(self.bucket(m.matched()[k2] as int)[v.spec_position()].spec_id()
                        == e.spec_id());
                    assert(self.bucket(m.matched()[k2] as int)[v.spec_position()] == e);
                }
            }
        }
        out
    }
}


/// A query's cached match against the archetype table: the archetypes
/// whose signature satisfies the matcher, plus a cursor recording how far
/// the table has been scanned, so newly created archetypes are tested
/// incrementally on the next use.
pub struct MatchedEntities {
    matcher: ArchetypeMatcher,
    cursor: usize,
    matched_archetypes: Vec<usize>,
}

impl MatchedEntities {
    pub closed spec fn spec_matcher(&self) -> ArchetypeMatcher {
        self.matcher
    }

    pub closed spec fn spec_cursor(&self) -> int {
        self.cursor as int
    }

    pub closed spec fn matched(&self) -> Seq<usize> {
        self.matched_archetypes@
    }

    /// The cache agrees with an entity index: it lists exactly the
    /// matching archetypes below the cursor, in increasing order.
    pub open spec fn consistent_with(&self, entities: &Entities) -> bool {
        &&& self.spec_cursor() <= entities.archetype_count()
        &&& forall|k: int|
            0 <= k < self.matched().len() ==> (#[trigger] self.matched()[k]) < self.spec_cursor()
                && self.spec_matcher().spec_matches(
                entities.archetype_components(self.matched()[k] as int),
            )
        &&& forall|a: int|
            0 <= a < self.spec_cursor() && self.spec_matcher().spec_matches(
                #[trigger] entities.archetype_components(a),
            ) ==> self.matched().contains(a as usize)
        &&& forall|k1: int, k2: int|
            0 <= k1 < k2 < self.matched().len() ==> #[trigger] self.matched()[k1]
                < #[trigger] self.matched()[k2]
    }

    /// A fresh cache for a matcher: nothing scanned yet.
    pub fn new(matcher: ArchetypeMatcher) -> (r: Self)
        ensures
            r.spec_matcher() == matcher,
            r.spec_cursor() == 0,
            r.matched() == Seq::<usize>::empty(),
    {
        MatchedEntities { matcher, cursor: 0, matched_archetypes: Vec::new() }
    }

    /// Test the archetypes created since the last scan and advance the
    /// cursor past them.
    pub fn do_match(&mut self, entities: &Entities)
        requires
            entities.wf(),
            old(self).consistent_with(entities),
        ensures
            final(self).consistent_with(entities),
            final(self).spec_cursor() == entities.archetype_count(),
            final(self).spec_matcher() == old(self).spec_matcher(),
    {
        let count = entities.archetype_count_exec();
        while self.cursor < count
            invariant
                entities.wf(),
                count == entities.archetype_count(),
                self.consistent_with(entities),
                self.spec_matcher() == old(self).spec_matcher(),
            decreases count - self.cursor,
        {
            let a = self.cursor;
            let matched = self.matcher.is_matched(entities.archetype_mask_at(a));
            let ghost pre = *self;
            if matched {
                self.matched_archetypes.push(a);
            }
            self.cursor = a + 1;
            proof {
                if matched {
                    assert forall|a2: int|
                        0 <= a2 < self.spec_cursor() && self.spec_matcher().spec_matches(
                            #[trigger] entities.archetype_components(a2),
                        ) implies self.matched().contains(a2 as usize) by {
                        if a2 < a as int {
                            assert(pre.matched().contains(a2 as usize));
                            let k = choose|k: int|
                                0 <= k < pre.matched().len() && pre.matched()[k] == a2 as usize;
                            assert(self.matched()[k] == a2 as usize);
                        } else {
                            assert(self.matched()[self.matched().len() - 1] == a as usize);
                        }
                    }
                } else {
                    assert forall|a2: int|
                        0 <= a2 < self.spec_cursor() && self.spec_matcher().spec_matches(
                            #[trigger] entities.archetype_components(a2),
                        ) implies self.matched().contains(a2 as usize) by {
                        assert(a2 != a as int);
                        assert(pre.matched().contains(a2 as usize));
                    }
                }
            }
        }
    }

    /// The matching archetypes found so far, in increasing order.
    pub fn matched_archetypes(&self) -> (r: &Vec<usize>)
        ensures
            r@ == self.matched(),
    {
        &self.matched_archetypes
    }
}
} // verus!

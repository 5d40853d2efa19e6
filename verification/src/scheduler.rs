//! The frame scheduler: turns the registry's dependency graph into a
//! per-frame execution plan over the systems whose resources exist.
//!
//! The plan is a dense position index over the admitted systems in
//! topological order, each position's dependency list pointing strictly
//! backwards (the witness that the plan is acyclic), a per-position
//! dependant list, and two counter arrays: the cached initial value
//! `1 + dependencies` (the extra one is the frame driver's self-guard)
//! and the per-frame working counters. The embedder performs the actual
//! runs: it decrements a system's guard with [`Scheduler::begin_system`],
//! runs it when the guard hits zero, and releases its dependants with
//! [`Scheduler::complete_system`].

use vstd::prelude::*;

use crate::event_channel::ReaderHandle;
use crate::system::SystemInfo;
use crate::system::SystemRegistry;
use crate::topological_sort::stuck_set;
use crate::topological_sort::SortError;
use crate::world::World;

verus! {

/// A duplicate-free sequence of positions below a bound has at most
/// `bound` entries.
proof fn lemma_distinct_bounded(s: Seq<usize>, bound: nat)
    requires
        s.no_duplicates(),
        forall|k: int| 0 <= k < s.len() ==> (#[trigger] s[k]) < bound,
    ensures
        s.len() <= bound,
{
    let t = s.map_values(|x: usize| x as int);
    assert(t.no_duplicates()) by {
        assert forall|i: int, j: int|
            0 <= i < t.len() && 0 <= j < t.len() && i != j implies t[i] != t[j] by {
            assert(s[i] != s[j]);
        }
    };
    t.unique_seq_to_set();
    let range = vstd::set_lib::set_int_range(0, bound as int);
    vstd::set_lib::lemma_int_range(0, bound as int);
    assert(t.to_set().subset_of(range)) by {
        assert forall|x: int| t.to_set().contains(x) implies range.contains(x) by {
            let k = choose|k: int| 0 <= k < t.len() && t[k] == x;
            assert(s[k] < bound);
        }
    };
    vstd::set_lib::lemma_len_subset(t.to_set(), range);
}

/// Whether every resource a system declares is present in the world.
pub open spec fn spec_resource_matched<R, C>(world: &World<R, C>, info: &SystemInfo) -> bool {
    &&& info.rbw().subset_of(world.res_map().dom())
    &&& info.spec_writes().subset_of(world.res_map().dom())
    &&& info.raw().subset_of(world.res_map().dom())
}

/// Whether some admitted descriptor has the identity and all its
/// declared resources present: the filter that admits a system to the
/// frame plan.
pub open spec fn spec_kept<R, C>(
    world: &World<R, C>,
    registry: &SystemRegistry,
    t: u64,
) -> bool {
    exists|i: int|
        0 <= i < registry.admitted().len() && (#[trigger] registry.admitted()[
        i]).spec_type_id() == t && spec_resource_matched(world, &registry.admitted()[i])
}

/// A dependency chain in the registry graph whose interior systems are
/// all skipped (not resource-matched): the kind of link a frame plan
/// must record directly, inlining the skipped middles.
pub open spec fn skipped_chain<R, C>(
    world: &World<R, C>,
    registry: &SystemRegistry,
    p: Seq<u64>,
) -> bool {
    &&& registry.spec_graph().is_path(p)
    &&& forall|k: int| 0 < k < p.len() - 1 ==> !spec_kept(world, registry, #[trigger] p[k])
}

/// `a` depends on `b` through edges whose interior systems are all
/// skipped.
pub open spec fn skipped_reaches<R, C>(
    world: &World<R, C>,
    registry: &SystemRegistry,
    a: u64,
    b: u64,
) -> bool {
    exists|p: Seq<u64>|
        skipped_chain(world, registry, p) && p.first() == a && p.last() == b
}

/// In a duplicate-free dependency-respecting walk, reachability between
/// listed items always points to an earlier position.
proof fn lemma_no_forward_reach(
    g: &crate::topological_sort::TopologicalGraph,
    order: Seq<u64>,
    a_pos: int,
    b_pos: int,
)
    requires
        order.no_duplicates(),
        forall|m2: int, d: u64|
            0 <= m2 < order.len() && #[trigger] g.deps_of(order[m2]).contains(d) ==> exists|
                j: int,
            | 0 <= j < m2 && order[j] == d,
        0 <= a_pos < order.len(),
        0 <= b_pos < order.len(),
        g.reaches(order[a_pos], order[b_pos]),
    ensures
        b_pos < a_pos,
{
    assert(order.contains(order[a_pos]));
    crate::topological_sort::lemma_order_rank(g, order, order[a_pos], order[b_pos]);
    let ja = order.index_of(order[a_pos]);
    assert(0 <= ja < order.len() && order[ja] == order[a_pos]);
    assert(ja == a_pos) by {
        if ja != a_pos {
            assert(order[ja] == order[a_pos]);
        }
    };
    let jb = order.index_of(order[b_pos]);
    assert(0 <= jb < order.len() && order[jb] == order[b_pos]);
    assert(jb == b_pos) by {
        if jb != b_pos {
            assert(order[jb] == order[b_pos]);
        }
    };
}

pub struct Scheduler {
    resources_change_event_reader: ReaderHandle,
    system_change_reader: ReaderHandle,
    system_ids: Vec<u64>,
    plan_dep_lists: Vec<Vec<usize>>,
    dependants: Vec<Vec<usize>>,
    dependencies_counter_cache: Vec<usize>,
    dependencies_counter: Vec<usize>,
}

impl Scheduler {
    /// The admitted, resource-matched systems in execution order.
    pub closed spec fn plan(&self) -> Seq<u64> {
        self.system_ids@
    }

    /// The plan dependencies of the system at a position: the positions
    /// it must run after.
    pub closed spec fn deps_at(&self, i: int) -> Seq<usize> {
        self.plan_dep_lists@[i]@
    }

    /// The plan dependants of the system at a position.
    pub closed spec fn dependants_at(&self, i: int) -> Seq<usize> {
        self.dependants@[i]@
    }

    /// The cached initial counter values.
    pub closed spec fn initial_counters(&self) -> Seq<usize> {
        Seq::new(
            self.dependencies_counter_cache@.len(),
            |i: int| self.dependencies_counter_cache@[i],
        )
    }

    /// The per-frame working counters.
    pub closed spec fn counters(&self) -> Seq<usize> {
        Seq::new(self.dependencies_counter@.len(), |i: int| self.dependencies_counter@[i])
    }

    pub closed spec fn reader(&self) -> ReaderHandle {
        self.resources_change_event_reader
    }

    pub closed spec fn sys_reader(&self) -> ReaderHandle {
        self.system_change_reader
    }

    /// The plan's structural invariant. Dependencies point strictly
    /// backwards in the order, which makes the plan acyclic with the
    /// position as rank; each initial counter is one (the frame driver's
    /// guard) plus the number of plan dependencies; and the dependant
    /// lists are the exact inverse of the dependency lists.
    pub closed spec fn plan_wf(&self) -> bool {
        let n = self.system_ids@.len();
        &&& self.plan_dep_lists@.len() == n
        &&& self.dependants@.len() == n
        &&& self.dependencies_counter_cache@.len() == n
        &&& self.dependencies_counter@.len() == n
        &&& forall|i: int, k: int|
            0 <= i < n && 0 <= k < self.plan_dep_lists@[i]@.len() ==> (
            #[trigger] self.plan_dep_lists@[i]@[k]) < i
        &&& forall|i: int| 0 <= i < n ==> (#[trigger] self.plan_dep_lists@[i]@).no_duplicates()
        &&& forall|i: int| 0 <= i < n ==> (#[trigger] self.dependants@[i]@).no_duplicates()
        &&& forall|i: int|
            0 <= i < n ==> (#[trigger] self.dependencies_counter_cache@[i]) == 1
                + self.plan_dep_lists@[i]@.len()
        &&& forall|p: int, k: int|
            0 <= p < n && 0 <= k < self.dependants@[p]@.len() ==> p < (
            #[trigger] self.dependants@[p]@[k]) < n
        &&& forall|p: int, i: usize|
            0 <= p < n ==> ((#[trigger] self.dependants@[p]@.contains(i)) <==> (0 <= i < n
                && self.plan_dep_lists@[i as int]@.contains(p as usize)))
    }

    /// The plan is faithful to a world/registry pair: it holds exactly
    /// the admitted, resource-matched systems; its order respects the
    /// registry's dependency graph — whatever a planned system
    /// transitively depends on runs at an earlier position; and every
    /// recorded plan dependency points backwards to a system the graph
    /// really makes a transitive dependency.
    pub open spec fn plan_matches<R, C>(
        &self,
        world: &World<R, C>,
        registry: &SystemRegistry,
    ) -> bool {
        &&& forall|t: u64| #[trigger] self.plan().contains(t) <==> spec_kept(world, registry, t)
        &&& forall|pi: int, pj: int|
            0 <= pi < self.plan().len() && 0 <= pj < self.plan().len()
                && registry.spec_graph().reaches(
                #[trigger] self.plan()[pi],
                #[trigger] self.plan()[pj],
            ) ==> pj < pi
        &&& forall|i: int, k: int|
            0 <= i < self.plan().len() && 0 <= k < self.deps_at(i).len() ==> (
            #[trigger] self.deps_at(i)[k] as int) < i && registry.spec_graph().reaches(
                self.plan()[i],
                self.plan()[self.deps_at(i)[k] as int],
            )
        &&& forall|i: int, p: int|
            0 <= i < self.plan().len() && 0 <= p < self.plan().len() && #[trigger] skipped_reaches(
                world,
                registry,
                self.plan()[i],
                self.plan()[p],
            ) ==> self.deps_at(i).contains(p as usize)
    }

    /// Build a scheduler for a world and registry pair: register a reader
    /// on each change channel and build the first plan.
    pub fn new<R, C>(world: &mut World<R, C>, registry: &mut SystemRegistry) -> (r: Result<
        Scheduler,
        SortError,
    >)
        requires
            old(world).wf(),
            old(registry).wf(),
        ensures
            final(world).wf(),
            final(registry).wf(),
            final(world).res_map() == old(world).res_map(),
            final(world).spec_entities() == old(world).spec_entities(),
            final(registry).admitted() == old(registry).admitted(),
            final(registry).graph_reflects(),
            r matches Ok(s) ==> {
                &&& s.plan_wf()
                &&& s.counters() == s.initial_counters()
                &&& final(world).spec_change_events().reader_live(s.reader().spec_index())
                &&& final(registry).spec_change_events().reader_live(
                    s.sys_reader().spec_index(),
                )
                &&& s.sys_reader().spec_index() != final(registry).spec_reader().spec_index()
                &&& s.plan_matches(&*final(world), final(registry))
            },
            r matches Err(e2) ==> exists|st: Set<u64>|
                stuck_set(final(registry).spec_graph(), st),
            (forall|x: u64| !final(registry).spec_graph().reaches(x, x)) ==> r is Ok,
    {
        let resources_change_event_reader = world.register_resource_event_reader();
        let system_change_reader = registry.register_change_reader();
        let mut scheduler = Scheduler {
            resources_change_event_reader,
            system_change_reader,
            system_ids: Vec::new(),
            plan_dep_lists: Vec::new(),
            dependants: Vec::new(),
            dependencies_counter_cache: Vec::new(),
            dependencies_counter: Vec::new(),
        };
        let ghost registered = *registry;
        match scheduler.refresh_systems(world, registry) {
            Ok(()) => {
                scheduler.reset_counters();
                proof {
                    assert(registered.spec_change_events().reader_live(
                        system_change_reader.spec_index(),
                    ));
                    registered.spec_change_events().lemma_reader_live_in_range(
                        system_change_reader.spec_index(),
                    );
                    assert(registry.spec_change_events().reader_live(
                        system_change_reader.spec_index(),
                    ) == registered.spec_change_events().reader_live(
                        system_change_reader.spec_index(),
                    ));
                    assert(scheduler.sys_reader() == system_change_reader);
                }
                Ok(scheduler)
            },
            Err(e) => Err(e),
        }
    }

    /// Whether every declared resource of a descriptor is in the world.
    fn is_resource_matched<R, C>(world: &World<R, C>, info: &SystemInfo) -> (r: bool)
        requires
            world.wf(),
        ensures
            r == spec_resource_matched(world, info),
    {
        Self::ids_present(world, info.reads_before_write()) && Self::ids_present(
            world,
            info.writes(),
        ) && Self::ids_present(world, info.reads_after_write())
    }

    fn ids_present<R, C>(world: &World<R, C>, ids: &Vec<u64>) -> (r: bool)
        requires
            world.wf(),
        ensures
            r == ids@.to_set().subset_of(world.res_map().dom()),
    {
        let mut k: usize = 0;
        while k < ids.len()
            invariant
                world.wf(),
                0 <= k <= ids@.len(),
                forall|k2: int|
                    0 <= k2 < k ==> world.res_map().dom().contains(#[trigger] ids@[k2]),
            decreases ids@.len() - k,
        {
            if !world.contains(crate::world::ResourceId::new(ids[k])) {
                proof {
                    assert(ids@.to_set().contains(ids@[k as int]));
                }
                return false;
            }
            k = k + 1;
        }
        proof {
            assert forall|r2: u64|
                ids@.to_set().contains(r2) implies world.res_map().dom().contains(r2) by {
                let k2 = choose|k2: int| 0 <= k2 < ids@.len() && ids@[k2] == r2;
                assert(world.res_map().dom().contains(ids@[k2]));
            }
        }
        true
    }

    /// Where a value sits in a list, if anywhere.
    fn position_of(v: &Vec<u64>, x: u64) -> (r: Option<usize>)
        ensures
            r is Some <==> v@.contains(x),
            r matches Some(k) ==> 0 <= k < v@.len() && v@[k as int] == x,
    {
        let mut k: usize = 0;
        while k < v.len()
            invariant
                0 <= k <= v@.len(),
                forall|k2: int| 0 <= k2 < k ==> v@[k2] != x,
            decreases v@.len() - k,
        {
            if v[k] == x {
                proof {
                    assert(v@[k as int] == x);
                }
                return Some(k);
            }
            k = k + 1;
        }
        proof {
            if v@.contains(x) {
                let k2 = choose|k2: int| 0 <= k2 < v@.len() && v@[k2] == x;
                assert(v@[k2] == x);
            }
        }
        None
    }

    /// Rebuild the plan from a registry snapshot: take the topological
    /// walk, keep the resource-matched systems, and translate each
    /// system's graph dependencies to plan positions, walking through
    /// skipped (unmatched) systems so indirect dependencies survive.
    #[verifier::rlimit(100)]
    #[verifier::spinoff_prover]
    pub fn refresh_systems<R, C>(
        &mut self,
        world: &World<R, C>,
        registry: &mut SystemRegistry,
    ) -> (r: Result<(), SortError>)
        requires
            world.wf(),
            old(registry).wf(),
        ensures
            final(registry).wf(),
            final(registry).admitted() == old(registry).admitted(),
            r is Ok ==> final(self).plan_wf(),
            final(registry).graph_reflects(),
            r is Ok ==> final(self).plan_matches(world, final(registry)),
            r is Err ==> *final(self) == *old(self),
            r is Err ==> exists|s: Set<u64>| stuck_set(final(registry).spec_graph(), s),
            (forall|x: u64| !final(registry).spec_graph().reaches(x, x)) ==> r is Ok,
            final(self).reader() == old(self).reader(),
            final(self).sys_reader() == old(self).sys_reader(),
            final(registry).spec_reader() == old(registry).spec_reader(),
            final(registry).spec_change_events().reader_count() == old(registry).spec_change_events().reader_count(),
            forall|i2: int|
                0 <= i2 < old(registry).spec_change_events().reader_count() && i2 != old(registry).spec_reader().spec_index() ==> #[trigger] final(registry).spec_change_events().reader_live(i2) == old(registry).spec_change_events().reader_live(i2),
    {
        let visitor = registry.systems();
        if visitor.has_cycle_flag() {
            proof {
                let st = choose|st: Set<u64>| stuck_set(registry.spec_graph(), st);
                crate::topological_sort::lemma_stuck_set_has_cycle(
                    &registry.spec_graph(),
                    st,
                );
            }
            return Err(SortError::CircularDependency);
        }
        let order = visitor.order_items();
        proof {
            assert(order@.to_set() == registry.spec_graph().item_set());
            assert(order@.no_duplicates());
            assert forall|m2: int, d: u64|
                0 <= m2 < order@.len() && #[trigger] registry.spec_graph().deps_of(
                    order@[m2],
                ).contains(d) implies exists|j: int| 0 <= j < m2 && order@[j] == d by {
                assert(visitor.order()[m2] == order@[m2]);
            }
        }
        self.system_ids = Vec::new();
        self.plan_dep_lists = Vec::new();
        self.dependants = Vec::new();
        self.dependencies_counter_cache = Vec::new();
        self.dependencies_counter = Vec::new();
        // Closure lists per walked system: for a kept system its own plan
        // position, for a skipped one the positions it stands between.
        let mut closed_ids: Vec<u64> = Vec::new();
        let mut closures: Vec<Vec<usize>> = Vec::new();
        let ghost mut src_pos: Seq<int> = Seq::empty();
        let mut m: usize = 0;
        while m < order.len()
            invariant
                world.wf(),
                registry.wf(),
                registry.graph_reflects(),
                order@.to_set() == registry.spec_graph().item_set(),
                order@.no_duplicates(),
                forall|m2: int, d: u64|
                    0 <= m2 < order@.len() && #[trigger] registry.spec_graph().deps_of(
                        order@[m2],
                    ).contains(d) ==> exists|j: int| 0 <= j < m2 && order@[j] == d,
                src_pos.len() == self.system_ids@.len(),
                forall|k: int|
                    0 <= k < src_pos.len() ==> 0 <= #[trigger] src_pos[k] < m && order@[
                        src_pos[k]] == self.system_ids@[k],
                forall|k1: int, k2: int|
                    0 <= k1 < k2 < src_pos.len() ==> src_pos[k1] < src_pos[k2],
                forall|t: u64|
                    #[trigger] self.system_ids@.contains(t) ==> spec_kept(world, registry, t),
                forall|m2: int|
                    0 <= m2 < m && spec_kept(world, registry, #[trigger] order@[m2])
                        ==> self.system_ids@.contains(order@[m2]),
                registry.spec_reader() == old(registry).spec_reader(),
                registry.spec_change_events().reader_count() == old(registry).spec_change_events().reader_count(),
                forall|i2: int|
                    0 <= i2 < old(registry).spec_change_events().reader_count() && i2 != old(registry).spec_reader().spec_index() ==> #[trigger] registry.spec_change_events()
                        .reader_live(i2) == old(registry).spec_change_events().reader_live(
                        i2,
                    ),
                registry.admitted() == old(registry).admitted(),
                0 <= m <= order@.len(),
                closed_ids@.len() == m,
                closures@.len() == m,
                closed_ids@ == order@.take(m as int),
                self.plan_wf(),
                self.resources_change_event_reader == old(self).resources_change_event_reader,
                self.system_change_reader == old(self).system_change_reader,
                self.system_ids@.len() <= m,
                forall|c: int, k: int|
                    0 <= c < m && 0 <= k < closures@[c]@.len() ==> (
                    #[trigger] closures@[c]@[k]) < self.system_ids@.len(),
                forall|c2: int, k2: int|
                    0 <= c2 < m && 0 <= k2 < closures@[c2]@.len() ==> order@[c2]
                        == self.system_ids@[(#[trigger] closures@[c2]@[k2]) as int]
                        || registry.spec_graph().reaches(
                        order@[c2],
                        self.system_ids@[closures@[c2]@[k2] as int],
                    ),
                forall|i2: int, k: int|
                    0 <= i2 < self.plan_dep_lists@.len() && 0 <= k < self.plan_dep_lists@[
                        i2]@.len() ==> registry.spec_graph().reaches(
                        self.system_ids@[i2],
                        self.system_ids@[(#[trigger] self.plan_dep_lists@[i2]@[k]) as int],
                    ),
                self.system_ids@.no_duplicates(),
                forall|c: int|
                    0 <= c < m && self.system_ids@.contains(#[trigger] order@[c]) ==> closures@[
                        c]@.len() == 1 && (closures@[c]@[0] as int) < self.system_ids@.len()
                        && self.system_ids@[closures@[c]@[0] as int] == order@[c],
                forall|c: int, j: int|
                    0 <= c < m && !spec_kept(world, registry, order@[c]) && 0 <= j
                        < self.system_ids@.len() && #[trigger] skipped_reaches(
                        world,
                        registry,
                        order@[c],
                        self.system_ids@[j],
                    ) ==> closures@[c]@.contains(j as usize),
                forall|i2: int, j: int|
                    0 <= i2 < self.plan_dep_lists@.len() && 0 <= j < self.system_ids@.len()
                        && #[trigger] skipped_reaches(
                        world,
                        registry,
                        self.system_ids@[i2],
                        self.system_ids@[j],
                    ) ==> self.plan_dep_lists@[i2]@.contains(j as usize),
            decreases order@.len() - m,
        {
            let tup = self.plan_step(world, &*registry, &order, m, closed_ids, closures, Ghost(src_pos));
            closed_ids = tup.0;
            closures = tup.1;
            proof {
                src_pos = tup.2@;
            }
            m = m + 1;
        }
        proof {
            assert forall|i2: int, k: int|
                0 <= i2 < self.system_ids@.len() && 0 <= k < self.plan_dep_lists@[
                    i2]@.len() implies ((#[trigger] self.plan_dep_lists@[i2]@[k]) as int) < i2
                && registry.spec_graph().reaches(
                self.system_ids@[i2],
                self.system_ids@[self.plan_dep_lists@[i2]@[k] as int],
            ) by {}
            assert forall|pi: int, pj: int|
                0 <= pi < self.system_ids@.len() && 0 <= pj < self.system_ids@.len()
                    && registry.spec_graph().reaches(
                    #[trigger] self.system_ids@[pi],
                    #[trigger] self.system_ids@[pj],
                ) implies pj < pi by {
                let a = self.system_ids@[pi];
                let b = self.system_ids@[pj];
                assert(order@[src_pos[pi]] == a);
                assert(order@.contains(a));
                crate::topological_sort::lemma_order_rank(
                    &registry.spec_graph(),
                    order@,
                    a,
                    b,
                );
                let ja = order@.index_of(a);
                assert(0 <= ja < order@.len() && order@[ja] == a);
                assert(ja == src_pos[pi]) by {
                    if ja != src_pos[pi] {
                        assert(order@[ja] == order@[src_pos[pi]]);
                    }
                };
                let jb = order@.index_of(b);
                assert(0 <= jb < order@.len() && order@[jb] == b);
                assert(jb == src_pos[pj]) by {
                    if jb != src_pos[pj] {
                        assert(order@[jb] == order@[src_pos[pj]]);
                    }
                };
                assert(src_pos[pj] < src_pos[pi]);
                if pi < pj {
                    assert(src_pos[pi] < src_pos[pj]);
                    assert(false);
                }
                if pi == pj {
                    assert(false);
                }
            }
            assert forall|t: u64|
                #[trigger] self.system_ids@.contains(t) <==> spec_kept(
                    world,
                    registry,
                    t,
                ) by {
                if spec_kept(world, registry, t) {
                    let i2 = choose|i2: int|
                        0 <= i2 < registry.admitted().len() && (#[trigger] registry.admitted()[
                            i2]).spec_type_id() == t && spec_resource_matched(
                            world,
                            &registry.admitted()[i2],
                        );
                    assert(registry.spec_graph().item_set().contains(t)) by {
                        assert(Set::new(
                            |t2: u64| exists|i3: int|
                                0 <= i3 < registry.admitted().len() && registry.admitted()[
                                    i3].spec_type_id() == t2,
                        ).contains(t));
                    };
                    assert(order@.to_set().contains(t));
                    let m2 = choose|m2: int| 0 <= m2 < order@.len() && order@[m2] == t;
                    assert(self.system_ids@.contains(order@[m2]));
                }
            }
        }
        Ok(())
    }

    /// Admit the next system into the plan and wire its closure.
    #[verifier::rlimit(100)]
    #[verifier::spinoff_prover]
    fn plan_step_keep<R, C>(
        &mut self,
        world: &World<R, C>,
        registry: &SystemRegistry,
        order: &Vec<u64>,
        m: usize,
        t: u64,
        closed_ids: Vec<u64>,
        closures: Vec<Vec<usize>>,
        eff: Vec<usize>,
        src: Ghost<Seq<int>>,
    ) -> (res: (Vec<u64>, Vec<Vec<usize>>, Ghost<Seq<int>>))
        requires
            world.wf(),
            registry.wf(),
            registry.graph_reflects(),
            order@.to_set() == registry.spec_graph().item_set(),
            order@.no_duplicates(),
            forall|m2: int, d: u64|
                0 <= m2 < order@.len() && #[trigger] registry.spec_graph().deps_of(
                    order@[m2],
                ).contains(d) ==> exists|j: int| 0 <= j < m2 && order@[j] == d,
            src@.len() == old(self).system_ids@.len(),
            forall|k: int|
                0 <= k < src@.len() ==> 0 <= #[trigger] src@[k] < m && order@[src@[k]]
                    == old(self).system_ids@[k],
            forall|k1: int, k2: int| 0 <= k1 < k2 < src@.len() ==> src@[k1] < src@[k2],
            forall|t: u64|
                #[trigger] old(self).system_ids@.contains(t) ==> spec_kept(world, registry, t),
            forall|m2: int|
                0 <= m2 < m && spec_kept(world, registry, #[trigger] order@[m2]) ==> old(self).system_ids@.contains(order@[m2]),
            m < order@.len(),
            closed_ids@.len() == m,
            closures@.len() == m,
            closed_ids@ == order@.take(m as int),
            old(self).plan_wf(),
            old(self).system_ids@.len() <= m,
            forall|c: int, k: int|
                0 <= c < m && 0 <= k < closures@[c]@.len() ==> (#[trigger] closures@[c]@[k])
                    < old(self).system_ids@.len(),
            forall|c2: int, k2: int|
                0 <= c2 < m && 0 <= k2 < closures@[c2]@.len() ==> order@[c2] == old(self).system_ids@[(#[trigger] closures@[c2]@[k2]) as int]
                    || registry.spec_graph().reaches(
                    order@[c2],
                    old(self).system_ids@[closures@[c2]@[k2] as int],
                ),
            forall|i2: int, k: int|
                0 <= i2 < old(self).plan_dep_lists@.len() && 0 <= k < old(self).plan_dep_lists@[
                    i2]@.len() ==> registry.spec_graph().reaches(
                    old(self).system_ids@[i2],
                    old(self).system_ids@[(#[trigger] old(self).plan_dep_lists@[i2]@[
                        k]) as int],
                ),
            old(self).system_ids@.no_duplicates(),
            forall|c: int|
                0 <= c < m && old(self).system_ids@.contains(#[trigger] order@[c])
                    ==> closures@[c]@.len() == 1 && (closures@[c]@[0] as int) < old(self).system_ids@.len() && old(self).system_ids@[closures@[c]@[0] as int]
                    == order@[c],
            forall|c: int, j: int|
                0 <= c < m && !spec_kept(world, registry, order@[c]) && 0 <= j < old(self).system_ids@.len() && #[trigger] skipped_reaches(
                    world,
                    registry,
                    order@[c],
                    old(self).system_ids@[j],
                ) ==> closures@[c]@.contains(j as usize),
            forall|i2: int, j: int|
                0 <= i2 < old(self).plan_dep_lists@.len() && 0 <= j < old(self).system_ids@.len() && #[trigger] skipped_reaches(
                    world,
                    registry,
                    old(self).system_ids@[i2],
                    old(self).system_ids@[j],
                ) ==> old(self).plan_dep_lists@[i2]@.contains(j as usize),
            t == order@[m as int],
            eff@.no_duplicates(),
            forall|k: int|
                0 <= k < eff@.len() ==> (#[trigger] eff@[k]) < old(self).system_ids@.len(),
            forall|k: int|
                0 <= k < eff@.len() ==> registry.spec_graph().reaches(
                    t,
                    old(self).system_ids@[(#[trigger] eff@[k]) as int],
                ),
            forall|j: int|
                0 <= j < old(self).system_ids@.len() && #[trigger] skipped_reaches(
                    world,
                    registry,
                    t,
                    old(self).system_ids@[j],
                ) ==> eff@.contains(j as usize),
            spec_kept(world, registry, t),
        ensures
            res.2@.len() == final(self).system_ids@.len(),
            forall|k: int|
                0 <= k < res.2@.len() ==> 0 <= #[trigger] res.2@[k] < m + 1 && order@[res.2@[
                    k]] == final(self).system_ids@[k],
            forall|k1: int, k2: int| 0 <= k1 < k2 < res.2@.len() ==> res.2@[k1] < res.2@[k2],
            forall|t: u64|
                #[trigger] final(self).system_ids@.contains(t) ==> spec_kept(
                    world,
                    registry,
                    t,
                ),
            forall|m2: int|
                0 <= m2 < m + 1 && spec_kept(world, registry, #[trigger] order@[m2])
                    ==> final(self).system_ids@.contains(order@[m2]),
            res.0@.len() == m + 1,
            res.1@.len() == m + 1,
            res.0@ == order@.take(m + 1),
            final(self).plan_wf(),
            final(self).resources_change_event_reader == old(self).resources_change_event_reader,
            final(self).system_change_reader == old(self).system_change_reader,
            final(self).system_ids@.len() <= m + 1,
            forall|c: int, k: int|
                0 <= c < m + 1 && 0 <= k < res.1@[c]@.len() ==> (#[trigger] res.1@[c]@[k])
                    < final(self).system_ids@.len(),
            forall|c2: int, k2: int|
                0 <= c2 < m + 1 && 0 <= k2 < res.1@[c2]@.len() ==> order@[c2] == final(self).system_ids@[(#[trigger] res.1@[c2]@[k2]) as int]
                    || registry.spec_graph().reaches(
                    order@[c2],
                    final(self).system_ids@[res.1@[c2]@[k2] as int],
                ),
            forall|i2: int, k: int|
                0 <= i2 < final(self).plan_dep_lists@.len() && 0 <= k < final(self).plan_dep_lists@[i2]@.len() ==> registry.spec_graph().reaches(
                    final(self).system_ids@[i2],
                    final(self).system_ids@[(#[trigger] final(self).plan_dep_lists@[i2]@[
                        k]) as int],
                ),
            final(self).system_ids@.no_duplicates(),
            forall|c: int|
                0 <= c < m + 1 && final(self).system_ids@.contains(#[trigger] order@[c])
                    ==> res.1@[c]@.len() == 1 && (res.1@[c]@[0] as int) < final(self).system_ids@.len() && final(self).system_ids@[res.1@[c]@[0] as int]
                    == order@[c],
            forall|c: int, j: int|
                0 <= c < m + 1 && !spec_kept(world, registry, order@[c]) && 0 <= j < final(self).system_ids@.len() && #[trigger] skipped_reaches(
                    world,
                    registry,
                    order@[c],
                    final(self).system_ids@[j],
                ) ==> res.1@[c]@.contains(j as usize),
            forall|i2: int, j: int|
                0 <= i2 < final(self).plan_dep_lists@.len() && 0 <= j < final(self).system_ids@.len() && #[trigger] skipped_reaches(
                    world,
                    registry,
                    final(self).system_ids@[i2],
                    final(self).system_ids@[j],
                ) ==> final(self).plan_dep_lists@[i2]@.contains(j as usize),
    {
        let mut closed_ids = closed_ids;
        let mut closures = closures;
        let ghost mut src_pos: Seq<int> = src@;
        let ghost effv = eff@;
        let order_cap = order.len();
        proof {
            assert(m < order_cap);
        }
        let i = self.system_ids.len();
        proof {
            lemma_distinct_bounded(eff@, self.system_ids@.len() as nat);
            assert(eff@.len() < usize::MAX);
        }
        let ghost pre = *self;
        self.system_ids.push(t);
        self.plan_dep_lists.push(eff);
        self.dependants.push(Vec::new());
        let deg = self.plan_dep_lists[i].len();
        self.dependencies_counter_cache.push(1 + deg);
        self.dependencies_counter.push(1 + deg);
        // Point every dependency's dependant list at the new
        // position.
        let eff_ref_len = self.plan_dep_lists[i].len();
        let mut k: usize = 0;
        while k < eff_ref_len
            invariant
                0 <= k <= eff_ref_len,
                self.system_ids@.len() == i + 1,
                self.plan_dep_lists@.len() == i + 1,
                self.dependants@.len() == i + 1,
                self.dependencies_counter_cache@.len() == i + 1,
                self.dependencies_counter@.len() == i + 1,
                eff_ref_len == self.plan_dep_lists@[i as int]@.len(),
                self.plan_dep_lists@[i as int]@ == effv,
                self.plan_dep_lists@ == pre.plan_dep_lists@.push(
                    self.plan_dep_lists@[i as int],
                ),
                self.system_ids@ == pre.system_ids@.push(t),
                self.dependencies_counter_cache@ == pre.dependencies_counter_cache@
                    .push((1 + eff_ref_len) as usize),
                self.dependencies_counter@ == pre.dependencies_counter@.push(
                    (1 + eff_ref_len) as usize,
                ),
                pre.plan_wf(),
                pre.system_ids@.len() == i,
                self.resources_change_event_reader
                    == pre.resources_change_event_reader,
                self.system_change_reader == pre.system_change_reader,
                forall|k2: int|
                    0 <= k2 < eff_ref_len ==> (#[trigger] self.plan_dep_lists@[
                        i as int]@[k2]) < i,
                forall|k2: int|
                    0 <= k2 < eff_ref_len ==> registry.spec_graph().reaches(
                        t,
                        pre.system_ids@[(#[trigger] self.plan_dep_lists@[
                            i as int]@[k2]) as int],
                    ),
                self.plan_dep_lists@[i as int]@.no_duplicates(),
                forall|p: int|
                    0 <= p < i ==> (#[trigger] self.dependants@[p]@) == (if self
                        .plan_dep_lists@[i as int]@.take(k as int).contains(
                        p as usize,
                    ) {
                        pre.dependants@[p]@.push(i as usize)
                    } else {
                        pre.dependants@[p]@
                    }),
                self.dependants@[i as int]@ == Seq::<usize>::empty(),
            decreases eff_ref_len - k,
        {
            let p = self.plan_dep_lists[i][k];
            let ghost effs = self.plan_dep_lists@[i as int]@;
            let ghost before = self.dependants@;
            let dep_list = &mut self.dependants[p];
            dep_list.push(i);
            proof {
                let prefix_before = effs.take(k as int);
                let prefix_now = effs.take(k + 1);
                assert(effs[k as int] == p);
                assert(prefix_now[k as int] == p);
                assert(self.dependants@[p as int]@ == before[p as int]@.push(
                    i as usize,
                ));
                assert forall|p3: int|
                    0 <= p3 < self.dependants@.len() && p3 != p as int
                        implies #[trigger] self.dependants@[p3]@ == before[p3]@ by {}
                assert((p as int) < i);
                assert(!prefix_before.contains(p)) by {
                    if prefix_before.contains(p) {
                        let k2 = choose|k2: int|
                            0 <= k2 < prefix_before.len() && prefix_before[k2] == p;
                        assert(effs[k2] == effs[k as int]);
                    }
                };
                assert forall|p2: int|
                    0 <= p2 < i implies (#[trigger] self.dependants@[p2]@) == (if effs
                    .take(k + 1).contains(p2 as usize) {
                    pre.dependants@[p2]@.push(i as usize)
                } else {
                    pre.dependants@[p2]@
                }) by {
                    if p2 == p as int {
                        assert(before[p2]@ == pre.dependants@[p2]@);
                        assert(prefix_now.contains(p));
                    } else {
                        assert(self.dependants@[p2]@ == before[p2]@);
                        if prefix_now.contains(p2 as usize) {
                            let k2 = choose|k2: int|
                                0 <= k2 < prefix_now.len() && prefix_now[k2] == p2
                                    as usize;
                            assert(k2 != k as int);
                            assert(prefix_before[k2] == p2 as usize);
                            assert(prefix_before.contains(p2 as usize));
                        }
                        if prefix_before.contains(p2 as usize) {
                            let k2 = choose|k2: int|
                                0 <= k2 < prefix_before.len() && prefix_before[k2]
                                    == p2 as usize;
                            assert(prefix_now[k2] == p2 as usize);
                            assert(prefix_now.contains(p2 as usize));
                        }
                    }
                }
            }
            k = k + 1;
        }
        proof {
            assert(self.plan_dep_lists@[i as int]@.take(eff_ref_len as int)
                =~= self.plan_dep_lists@[i as int]@);
            self.lemma_plan_extended(pre, i as usize, t);
        }
        closed_ids.push(t);
        let mut own: Vec<usize> = Vec::new();
        own.push(i);
        closures.push(own);
        proof {
            let ghost ids0 = pre.system_ids@;
            assert(self.system_ids@ == ids0.push(t));
            assert(self.system_ids@[i as int] == t);
            assert forall|c2: int, k2: int|
                0 <= c2 < m + 1 && 0 <= k2 < closures@[c2]@.len() implies order@[c2]
                    == self.system_ids@[(#[trigger] closures@[c2]@[k2]) as int]
                    || registry.spec_graph().reaches(
                    order@[c2],
                    self.system_ids@[closures@[c2]@[k2] as int],
                ) by {
                if c2 == m as int {
                    assert(closures@[c2]@[k2] == i as usize);
                } else {
                    assert(closures@[c2]@[k2] < ids0.len());
                    assert(self.system_ids@[closures@[c2]@[k2] as int] == ids0[
                        closures@[c2]@[k2] as int]);
                }
            }
            self.lemma_keep_completeness(
                pre,
                world,
                registry,
                order@,
                src_pos,
                m as int,
                i as usize,
                t,
                effv,
            );
            assert forall|i2: int, k: int|
                0 <= i2 < self.plan_dep_lists@.len() && 0 <= k < self.plan_dep_lists@[
                    i2]@.len() implies registry.spec_graph().reaches(
                self.system_ids@[i2],
                self.system_ids@[(#[trigger] self.plan_dep_lists@[i2]@[k]) as int],
            ) by {
                if i2 == i as int {
                    assert(self.plan_dep_lists@[i2]@[k] < ids0.len());
                    assert(self.system_ids@[self.plan_dep_lists@[i2]@[k] as int]
                        == ids0[self.plan_dep_lists@[i2]@[k] as int]);
                    assert(registry.spec_graph().reaches(
                        t,
                        pre.system_ids@[self.plan_dep_lists@[i2]@[k] as int],
                    ));
                    assert(self.system_ids@[i2] == t);
                } else {
                    assert(self.plan_dep_lists@[i2]@ == pre.plan_dep_lists@[i2]@);
                    assert(self.plan_dep_lists@[i2]@[k] < ids0.len());
                    assert(self.system_ids@[i2] == ids0[i2]);
                    assert(self.system_ids@[self.plan_dep_lists@[i2]@[k] as int]
                        == ids0[self.plan_dep_lists@[i2]@[k] as int]);
                }
            }
            src_pos = src_pos.push(m as int);
            assert(order@[m as int] == t);
            assert forall|k: int|
                0 <= k < src_pos.len() implies 0 <= #[trigger] src_pos[k] < m + 1
                    && order@[src_pos[k]] == self.system_ids@[k] by {
                if k < src_pos.len() - 1 {
                    assert(src_pos[k] < m as int);
                    assert(self.system_ids@[k] == ids0[k]);
                }
            }
            assert forall|t2: u64|
                #[trigger] self.system_ids@.contains(t2) implies spec_kept(
                world,
                registry,
                t2,
            ) by {
                let k2 = choose|k2: int|
                    0 <= k2 < self.system_ids@.len() && self.system_ids@[k2] == t2;
                if k2 < ids0.len() {
                    assert(ids0[k2] == t2);
                    assert(ids0.contains(t2));
                } else {
                    assert(t2 == t);
                }
            }
            assert forall|m2: int|
                0 <= m2 < m + 1 && spec_kept(world, registry, #[trigger] order@[
                    m2]) implies self.system_ids@.contains(order@[m2]) by {
                if m2 < m as int {
                    assert(ids0.contains(order@[m2]));
                    let k2 = choose|k2: int|
                        0 <= k2 < ids0.len() && ids0[k2] == order@[m2];
                    assert(self.system_ids@[k2] == order@[m2]);
                } else {
                    assert(self.system_ids@[self.system_ids@.len() - 1] == t);
                }
            }
            assert(closed_ids@ =~= order@.take(m + 1));
            assert forall|c: int, k2: int|
                0 <= c < m + 1 && 0 <= k2 < closures@[c]@.len() implies (
            #[trigger] closures@[c]@[k2]) < self.system_ids@.len() by {
                if c < m {
                    assert(closures@[c]@[k2] < pre.system_ids@.len());
                }
            }
            let g2 = registry.spec_graph();
            assert forall|c: int|
                0 <= c < m + 1 && self.system_ids@.contains(
                    #[trigger] order@[c],
                ) implies closures@[c]@.len() == 1 && (closures@[c]@[0] as int)
                < self.system_ids@.len() && self.system_ids@[closures@[c]@[0] as int]
                == order@[c] by {
                if c == m as int {
                    assert(closures@[c]@.len() == 1 && closures@[c]@[0] == i);
                    assert(self.system_ids@[i as int] == t);
                } else {
                    assert(ids0.contains(order@[c])) by {
                        let k2 = choose|k2: int|
                            0 <= k2 < self.system_ids@.len() && self.system_ids@[k2]
                                == order@[c];
                        if k2 == i as int {
                            assert(order@[c] == order@[m as int]);
                        } else {
                            assert(ids0[k2] == order@[c]);
                        }
                    };
                    assert(pre.system_ids@[closures@[c]@[0] as int] == order@[c]);
                    assert((closures@[c]@[0] as int) < ids0.len());
                    assert(self.system_ids@[closures@[c]@[0] as int] == ids0[closures@[
                        c]@[0] as int]);
                }
            }
            assert forall|c: int, j: int|
                0 <= c < m + 1 && !spec_kept(world, registry, order@[c]) && 0 <= j
                    < self.system_ids@.len() && #[trigger] skipped_reaches(
                    world,
                    registry,
                    order@[c],
                    self.system_ids@[j],
                ) implies closures@[c]@.contains(j as usize) by {
                if c == m as int {
                    assert(order@[c] == t);
                    assert(false);
                } else if j == i as int {
                    assert(self.system_ids@[j] == t);
                    assert(g2.reaches(order@[c], t)) by {
                        let pth = choose|pth: Seq<u64>|
                            skipped_chain(world, registry, pth) && pth.first() == order@[c]
                                && pth.last() == t;
                        assert(g2.is_path(pth));
                    };
                    assert(order@[m as int] == t);
                    lemma_no_forward_reach(&g2, order@, c, m as int);
                    assert(false);
                } else {
                    assert(self.system_ids@[j] == ids0[j]);
                    assert(skipped_reaches(world, registry, order@[c], ids0[j]));
                    assert(closures@[c]@.contains(j as usize));
                }
            }
        }
        (closed_ids, closures, Ghost(src_pos))
    }

    /// Record a skipped system: its closure stands in for it.
    #[verifier::rlimit(100)]
    #[verifier::spinoff_prover]
    fn plan_step_skip<R, C>(
        &mut self,
        world: &World<R, C>,
        registry: &SystemRegistry,
        order: &Vec<u64>,
        m: usize,
        t: u64,
        closed_ids: Vec<u64>,
        closures: Vec<Vec<usize>>,
        eff: Vec<usize>,
        src: Ghost<Seq<int>>,
    ) -> (res: (Vec<u64>, Vec<Vec<usize>>, Ghost<Seq<int>>))
        requires
            world.wf(),
            registry.wf(),
            registry.graph_reflects(),
            order@.to_set() == registry.spec_graph().item_set(),
            order@.no_duplicates(),
            forall|m2: int, d: u64|
                0 <= m2 < order@.len() && #[trigger] registry.spec_graph().deps_of(
                    order@[m2],
                ).contains(d) ==> exists|j: int| 0 <= j < m2 && order@[j] == d,
            src@.len() == old(self).system_ids@.len(),
            forall|k: int|
                0 <= k < src@.len() ==> 0 <= #[trigger] src@[k] < m && order@[src@[k]]
                    == old(self).system_ids@[k],
            forall|k1: int, k2: int| 0 <= k1 < k2 < src@.len() ==> src@[k1] < src@[k2],
            forall|t: u64|
                #[trigger] old(self).system_ids@.contains(t) ==> spec_kept(world, registry, t),
            forall|m2: int|
                0 <= m2 < m && spec_kept(world, registry, #[trigger] order@[m2]) ==> old(self).system_ids@.contains(order@[m2]),
            m < order@.len(),
            closed_ids@.len() == m,
            closures@.len() == m,
            closed_ids@ == order@.take(m as int),
            old(self).plan_wf(),
            old(self).system_ids@.len() <= m,
            forall|c: int, k: int|
                0 <= c < m && 0 <= k < closures@[c]@.len() ==> (#[trigger] closures@[c]@[k])
                    < old(self).system_ids@.len(),
            forall|c2: int, k2: int|
                0 <= c2 < m && 0 <= k2 < closures@[c2]@.len() ==> order@[c2] == old(self).system_ids@[(#[trigger] closures@[c2]@[k2]) as int]
                    || registry.spec_graph().reaches(
                    order@[c2],
                    old(self).system_ids@[closures@[c2]@[k2] as int],
                ),
            forall|i2: int, k: int|
                0 <= i2 < old(self).plan_dep_lists@.len() && 0 <= k < old(self).plan_dep_lists@[
                    i2]@.len() ==> registry.spec_graph().reaches(
                    old(self).system_ids@[i2],
                    old(self).system_ids@[(#[trigger] old(self).plan_dep_lists@[i2]@[
                        k]) as int],
                ),
            old(self).system_ids@.no_duplicates(),
            forall|c: int|
                0 <= c < m && old(self).system_ids@.contains(#[trigger] order@[c])
                    ==> closures@[c]@.len() == 1 && (closures@[c]@[0] as int) < old(self).system_ids@.len() && old(self).system_ids@[closures@[c]@[0] as int]
                    == order@[c],
            forall|c: int, j: int|
                0 <= c < m && !spec_kept(world, registry, order@[c]) && 0 <= j < old(self).system_ids@.len() && #[trigger] skipped_reaches(
                    world,
                    registry,
                    order@[c],
                    old(self).system_ids@[j],
                ) ==> closures@[c]@.contains(j as usize),
            forall|i2: int, j: int|
                0 <= i2 < old(self).plan_dep_lists@.len() && 0 <= j < old(self).system_ids@.len() && #[trigger] skipped_reaches(
                    world,
                    registry,
                    old(self).system_ids@[i2],
                    old(self).system_ids@[j],
                ) ==> old(self).plan_dep_lists@[i2]@.contains(j as usize),
            t == order@[m as int],
            eff@.no_duplicates(),
            forall|k: int|
                0 <= k < eff@.len() ==> (#[trigger] eff@[k]) < old(self).system_ids@.len(),
            forall|k: int|
                0 <= k < eff@.len() ==> registry.spec_graph().reaches(
                    t,
                    old(self).system_ids@[(#[trigger] eff@[k]) as int],
                ),
            forall|j: int|
                0 <= j < old(self).system_ids@.len() && #[trigger] skipped_reaches(
                    world,
                    registry,
                    t,
                    old(self).system_ids@[j],
                ) ==> eff@.contains(j as usize),
            !spec_kept(world, registry, t),
        ensures
            res.2@.len() == final(self).system_ids@.len(),
            forall|k: int|
                0 <= k < res.2@.len() ==> 0 <= #[trigger] res.2@[k] < m + 1 && order@[res.2@[
                    k]] == final(self).system_ids@[k],
            forall|k1: int, k2: int| 0 <= k1 < k2 < res.2@.len() ==> res.2@[k1] < res.2@[k2],
            forall|t: u64|
                #[trigger] final(self).system_ids@.contains(t) ==> spec_kept(
                    world,
                    registry,
                    t,
                ),
            forall|m2: int|
                0 <= m2 < m + 1 && spec_kept(world, registry, #[trigger] order@[m2])
                    ==> final(self).system_ids@.contains(order@[m2]),
            res.0@.len() == m + 1,
            res.1@.len() == m + 1,
            res.0@ == order@.take(m + 1),
            final(self).plan_wf(),
            final(self).resources_change_event_reader == old(self).resources_change_event_reader,
            final(self).system_change_reader == old(self).system_change_reader,
            final(self).system_ids@.len() <= m + 1,
            forall|c: int, k: int|
                0 <= c < m + 1 && 0 <= k < res.1@[c]@.len() ==> (#[trigger] res.1@[c]@[k])
                    < final(self).system_ids@.len(),
            forall|c2: int, k2: int|
                0 <= c2 < m + 1 && 0 <= k2 < res.1@[c2]@.len() ==> order@[c2] == final(self).system_ids@[(#[trigger] res.1@[c2]@[k2]) as int]
                    || registry.spec_graph().reaches(
                    order@[c2],
                    final(self).system_ids@[res.1@[c2]@[k2] as int],
                ),
            forall|i2: int, k: int|
                0 <= i2 < final(self).plan_dep_lists@.len() && 0 <= k < final(self).plan_dep_lists@[i2]@.len() ==> registry.spec_graph().reaches(
                    final(self).system_ids@[i2],
                    final(self).system_ids@[(#[trigger] final(self).plan_dep_lists@[i2]@[
                        k]) as int],
                ),
            final(self).system_ids@.no_duplicates(),
            forall|c: int|
                0 <= c < m + 1 && final(self).system_ids@.contains(#[trigger] order@[c])
                    ==> res.1@[c]@.len() == 1 && (res.1@[c]@[0] as int) < final(self).system_ids@.len() && final(self).system_ids@[res.1@[c]@[0] as int]
                    == order@[c],
            forall|c: int, j: int|
                0 <= c < m + 1 && !spec_kept(world, registry, order@[c]) && 0 <= j < final(self).system_ids@.len() && #[trigger] skipped_reaches(
                    world,
                    registry,
                    order@[c],
                    final(self).system_ids@[j],
                ) ==> res.1@[c]@.contains(j as usize),
            forall|i2: int, j: int|
                0 <= i2 < final(self).plan_dep_lists@.len() && 0 <= j < final(self).system_ids@.len() && #[trigger] skipped_reaches(
                    world,
                    registry,
                    final(self).system_ids@[i2],
                    final(self).system_ids@[j],
                ) ==> final(self).plan_dep_lists@[i2]@.contains(j as usize),
    {
        let mut closed_ids = closed_ids;
        let mut closures = closures;
        let ghost mut src_pos: Seq<int> = src@;
        let ghost effv = eff@;
        closed_ids.push(t);
        closures.push(eff);
        proof {
            assert(closed_ids@ =~= order@.take(m + 1));
            assert forall|c: int, k2: int|
                0 <= c < m + 1 && 0 <= k2 < closures@[c]@.len() implies (
            #[trigger] closures@[c]@[k2]) < self.system_ids@.len() by {}
            assert forall|c2: int, k2: int|
                0 <= c2 < m + 1 && 0 <= k2 < closures@[c2]@.len() implies order@[c2]
                    == self.system_ids@[(#[trigger] closures@[c2]@[k2]) as int]
                    || registry.spec_graph().reaches(
                    order@[c2],
                    self.system_ids@[closures@[c2]@[k2] as int],
                ) by {
                if c2 == m as int {
                    assert(registry.spec_graph().reaches(
                        t,
                        self.system_ids@[closures@[c2]@[k2] as int],
                    ));
                }
            }
            assert forall|m2: int|
                0 <= m2 < m + 1 && spec_kept(world, registry, #[trigger] order@[
                    m2]) implies self.system_ids@.contains(order@[m2]) by {
                if m2 == m as int {
                    assert(order@[m2] == t);
                    assert(!spec_kept(world, registry, t));
                }
            }
        }
        (closed_ids, closures, Ghost(src_pos))
    }

    /// One step of the planning walk: admit or skip the next system of
    /// the topological order and record its dependency closure.
    #[verifier::rlimit(100)]
    #[verifier::spinoff_prover]
    fn plan_step<R, C>(
        &mut self,
        world: &World<R, C>,
        registry: &SystemRegistry,
        order: &Vec<u64>,
        m: usize,
        closed_ids: Vec<u64>,
        closures: Vec<Vec<usize>>,
        src: Ghost<Seq<int>>,
    ) -> (res: (Vec<u64>, Vec<Vec<usize>>, Ghost<Seq<int>>))
        requires
            world.wf(),
            registry.wf(),
            registry.graph_reflects(),
            order@.to_set() == registry.spec_graph().item_set(),
            order@.no_duplicates(),
            forall|m2: int, d: u64|
                0 <= m2 < order@.len() && #[trigger] registry.spec_graph().deps_of(
                    order@[m2],
                ).contains(d) ==> exists|j: int| 0 <= j < m2 && order@[j] == d,
            src@.len() == old(self).system_ids@.len(),
            forall|k: int|
                0 <= k < src@.len() ==> 0 <= #[trigger] src@[k] < m && order@[src@[k]]
                    == old(self).system_ids@[k],
            forall|k1: int, k2: int| 0 <= k1 < k2 < src@.len() ==> src@[k1] < src@[k2],
            forall|t: u64|
                #[trigger] old(self).system_ids@.contains(t) ==> spec_kept(world, registry, t),
            forall|m2: int|
                0 <= m2 < m && spec_kept(world, registry, #[trigger] order@[m2]) ==> old(self).system_ids@.contains(order@[m2]),
            m < order@.len(),
            closed_ids@.len() == m,
            closures@.len() == m,
            closed_ids@ == order@.take(m as int),
            old(self).plan_wf(),
            old(self).system_ids@.len() <= m,
            forall|c: int, k: int|
                0 <= c < m && 0 <= k < closures@[c]@.len() ==> (#[trigger] closures@[c]@[k])
                    < old(self).system_ids@.len(),
            forall|c2: int, k2: int|
                0 <= c2 < m && 0 <= k2 < closures@[c2]@.len() ==> order@[c2] == old(self).system_ids@[(#[trigger] closures@[c2]@[k2]) as int]
                    || registry.spec_graph().reaches(
                    order@[c2],
                    old(self).system_ids@[closures@[c2]@[k2] as int],
                ),
            forall|i2: int, k: int|
                0 <= i2 < old(self).plan_dep_lists@.len() && 0 <= k < old(self).plan_dep_lists@[
                    i2]@.len() ==> registry.spec_graph().reaches(
                    old(self).system_ids@[i2],
                    old(self).system_ids@[(#[trigger] old(self).plan_dep_lists@[i2]@[
                        k]) as int],
                ),
            old(self).system_ids@.no_duplicates(),
            forall|c: int|
                0 <= c < m && old(self).system_ids@.contains(#[trigger] order@[c])
                    ==> closures@[c]@.len() == 1 && (closures@[c]@[0] as int) < old(self).system_ids@.len() && old(self).system_ids@[closures@[c]@[0] as int]
                    == order@[c],
            forall|c: int, j: int|
                0 <= c < m && !spec_kept(world, registry, order@[c]) && 0 <= j < old(self).system_ids@.len() && #[trigger] skipped_reaches(
                    world,
                    registry,
                    order@[c],
                    old(self).system_ids@[j],
                ) ==> closures@[c]@.contains(j as usize),
            forall|i2: int, j: int|
                0 <= i2 < old(self).plan_dep_lists@.len() && 0 <= j < old(self).system_ids@.len() && #[trigger] skipped_reaches(
                    world,
                    registry,
                    old(self).system_ids@[i2],
                    old(self).system_ids@[j],
                ) ==> old(self).plan_dep_lists@[i2]@.contains(j as usize),
        ensures
            res.2@.len() == final(self).system_ids@.len(),
            forall|k: int|
                0 <= k < res.2@.len() ==> 0 <= #[trigger] res.2@[k] < m + 1 && order@[res.2@[
                    k]] == final(self).system_ids@[k],
            forall|k1: int, k2: int| 0 <= k1 < k2 < res.2@.len() ==> res.2@[k1] < res.2@[k2],
            forall|t: u64|
                #[trigger] final(self).system_ids@.contains(t) ==> spec_kept(
                    world,
                    registry,
                    t,
                ),
            forall|m2: int|
                0 <= m2 < m + 1 && spec_kept(world, registry, #[trigger] order@[m2])
                    ==> final(self).system_ids@.contains(order@[m2]),
            res.0@.len() == m + 1,
            res.1@.len() == m + 1,
            res.0@ == order@.take(m + 1),
            final(self).plan_wf(),
            final(self).resources_change_event_reader == old(self).resources_change_event_reader,
            final(self).system_change_reader == old(self).system_change_reader,
            final(self).system_ids@.len() <= m + 1,
            forall|c: int, k: int|
                0 <= c < m + 1 && 0 <= k < res.1@[c]@.len() ==> (#[trigger] res.1@[c]@[k])
                    < final(self).system_ids@.len(),
            forall|c2: int, k2: int|
                0 <= c2 < m + 1 && 0 <= k2 < res.1@[c2]@.len() ==> order@[c2] == final(self).system_ids@[(#[trigger] res.1@[c2]@[k2]) as int]
                    || registry.spec_graph().reaches(
                    order@[c2],
                    final(self).system_ids@[res.1@[c2]@[k2] as int],
                ),
            forall|i2: int, k: int|
                0 <= i2 < final(self).plan_dep_lists@.len() && 0 <= k < final(self).plan_dep_lists@[i2]@.len() ==> registry.spec_graph().reaches(
                    final(self).system_ids@[i2],
                    final(self).system_ids@[(#[trigger] final(self).plan_dep_lists@[i2]@[
                        k]) as int],
                ),
            final(self).system_ids@.no_duplicates(),
            forall|c: int|
                0 <= c < m + 1 && final(self).system_ids@.contains(#[trigger] order@[c])
                    ==> res.1@[c]@.len() == 1 && (res.1@[c]@[0] as int) < final(self).system_ids@.len() && final(self).system_ids@[res.1@[c]@[0] as int]
                    == order@[c],
            forall|c: int, j: int|
                0 <= c < m + 1 && !spec_kept(world, registry, order@[c]) && 0 <= j < final(self).system_ids@.len() && #[trigger] skipped_reaches(
                    world,
                    registry,
                    order@[c],
                    final(self).system_ids@[j],
                ) ==> res.1@[c]@.contains(j as usize),
            forall|i2: int, j: int|
                0 <= i2 < final(self).plan_dep_lists@.len() && 0 <= j < final(self).system_ids@.len() && #[trigger] skipped_reaches(
                    world,
                    registry,
                    final(self).system_ids@[i2],
                    final(self).system_ids@[j],
                ) ==> final(self).plan_dep_lists@[i2]@.contains(j as usize),
    {
        let mut closed_ids = closed_ids;
        let mut closures = closures;
        let ghost mut src_pos: Seq<int> = src@;
        let t = order[m];
        let deps = registry.dependencies_of(t);
        // Merge the closures of this system's direct dependencies.
        let mut eff: Vec<usize> = Vec::new();
        let mut d: usize = 0;
        while d < deps.len()
            invariant
                0 <= d <= deps@.len(),
                closed_ids@.len() == m,
                closures@.len() == m,
                m <= order@.len(),
                t == order@[m as int],
                m < order@.len(),
                deps@.to_set() == registry.spec_graph().deps_of(t),
                closed_ids@ == order@.take(m as int),
                order@.no_duplicates(),
                self.system_ids@.len() <= m,
                forall|c: int, k: int|
                    0 <= c < m && 0 <= k < closures@[c]@.len() ==> (
                    #[trigger] closures@[c]@[k]) < self.system_ids@.len(),
                forall|c2: int, k2: int|
                    0 <= c2 < m && 0 <= k2 < closures@[c2]@.len() ==> order@[c2]
                        == self.system_ids@[(#[trigger] closures@[c2]@[k2]) as int]
                        || registry.spec_graph().reaches(
                        order@[c2],
                        self.system_ids@[closures@[c2]@[k2] as int],
                    ),
                eff@.no_duplicates(),
                forall|k: int|
                    0 <= k < eff@.len() ==> (#[trigger] eff@[k]) < self.system_ids@.len(),
                forall|k: int|
                    0 <= k < eff@.len() ==> registry.spec_graph().reaches(
                        t,
                        self.system_ids@[(#[trigger] eff@[k]) as int],
                    ),
                forall|c2: int, k: int|
                    0 <= c2 < m && 0 <= k < closures@[c2]@.len() && (exists|d2: int|
                        0 <= d2 < d && deps@[d2] == order@[c2]) ==> eff@.contains(
                        #[trigger] closures@[c2]@[k],
                    ),
            decreases deps@.len() - d,
        {
            let dval = deps[d];
            proof {
                assert(deps@.contains(dval));
                assert(deps@.to_set().contains(dval));
                assert(registry.spec_graph().edge(t, dval));
            }
            match Self::position_of(&closed_ids, dval) {
                None => {
                    proof {
                        assert forall|c2: int, k2: int|
                            0 <= c2 < m && 0 <= k2 < closures@[c2]@.len() && (exists|
                                d2: int,
                            |
                                0 <= d2 < d + 1 && deps@[d2] == order@[c2])
                                implies eff@.contains(#[trigger] closures@[c2]@[k2]) by {
                            let d2 = choose|d2: int|
                                0 <= d2 < d + 1 && deps@[d2] == order@[c2];
                            if d2 == d as int {
                                assert(order@[c2] == dval);
                                assert(closed_ids@[c2] == dval);
                                assert(closed_ids@.contains(dval));
                                assert(false);
                            }
                        }
                    }
                },
                Some(c) => {
                    proof {
                        assert(closed_ids@[c as int] == dval);
                        assert(order@[c as int] == dval);
                    }
                    let clist = &closures[c];
                    let mut k: usize = 0;
                    while k < clist.len()
                        invariant
                            0 <= k <= clist@.len(),
                            0 <= c < closures@.len(),
                            clist@ == closures@[c as int]@,
                            closures@.len() == m,
                            order@.no_duplicates(),
                            closed_ids@ == order@.take(m as int),
                            m < order@.len(),
                            t == order@[m as int],
                            order@[c as int] == dval,
                            registry.spec_graph().edge(t, dval),
                            self.system_ids@.len() <= m,
                            forall|c2: int, k2: int|
                                0 <= c2 < m && 0 <= k2 < closures@[c2]@.len() ==> (
                                #[trigger] closures@[c2]@[k2]) < self.system_ids@.len(),
                            forall|c2: int, k2: int|
                                0 <= c2 < m && 0 <= k2 < closures@[c2]@.len() ==> order@[
                                    c2] == self.system_ids@[(#[trigger] closures@[
                                    c2]@[k2]) as int] || registry.spec_graph().reaches(
                                    order@[c2],
                                    self.system_ids@[closures@[c2]@[k2] as int],
                                ),
                            eff@.no_duplicates(),
                            forall|k2: int|
                                0 <= k2 < eff@.len() ==> (#[trigger] eff@[k2])
                                    < self.system_ids@.len(),
                            forall|k2: int|
                                0 <= k2 < eff@.len() ==> registry.spec_graph().reaches(
                                    t,
                                    self.system_ids@[(#[trigger] eff@[k2]) as int],
                                ),
                            forall|c2: int, k2: int|
                                0 <= c2 < m && 0 <= k2 < closures@[c2]@.len() && (exists|
                                    d2: int,
                                |
                                    0 <= d2 < d && deps@[d2] == order@[c2])
                                    ==> eff@.contains(#[trigger] closures@[c2]@[k2]),
                            forall|k2: int|
                                0 <= k2 < k ==> eff@.contains(#[trigger] clist@[k2]),
                        decreases clist@.len() - k,
                    {
                        let p = clist[k];
                        let mut present = false;
                        let mut k2: usize = 0;
                        while k2 < eff.len()
                            invariant
                                0 <= k2 <= eff@.len(),
                                present <==> exists|k3: int|
                                    0 <= k3 < k2 && eff@[k3] == p,
                            decreases eff@.len() - k2,
                        {
                            if eff[k2] == p {
                                present = true;
                            }
                            k2 = k2 + 1;
                        }
                        let ghost eff0 = eff@;
                        if !present {
                            proof {
                                assert(!eff@.contains(p)) by {
                                    if eff@.contains(p) {
                                        let k3 = choose|k3: int|
                                            0 <= k3 < eff@.len() && eff@[k3] == p;
                                    }
                                };
                                assert(closures@[c as int]@[k as int] == p);
                                assert(order@[c as int] == self.system_ids@[p as int]
                                    || registry.spec_graph().reaches(
                                    order@[c as int],
                                    self.system_ids@[p as int],
                                ));
                                crate::topological_sort::lemma_reaches_prepend(
                                    &registry.spec_graph(),
                                    t,
                                    dval,
                                    self.system_ids@[p as int],
                                );
                            }
                            eff.push(p);
                            proof {
                                crate::entity::lemma_push_fresh_usizes(
                                    eff@.drop_last(),
                                    p,
                                );
                                assert forall|x: usize|
                                    eff0.contains(x) implies eff@.contains(x) by {
                                    let k3 = choose|k3: int|
                                        0 <= k3 < eff0.len() && eff0[k3] == x;
                                    assert(eff@[k3] == x);
                                }
                                assert(eff@.contains(p)) by {
                                    assert(eff@[eff@.len() - 1] == p);
                                };
                            }
                        } else {
                            proof {
                                let k3 = choose|k3: int|
                                    0 <= k3 < eff@.len() && eff@[k3] == p;
                                assert(eff@.contains(p));
                            }
                        }
                        k = k + 1;
                    }
                    proof {
                        assert forall|c2: int, k2: int|
                            0 <= c2 < m && 0 <= k2 < closures@[c2]@.len() && (exists|
                                d2: int,
                            |
                                0 <= d2 < d + 1 && deps@[d2] == order@[c2])
                                implies eff@.contains(#[trigger] closures@[c2]@[k2]) by {
                            let d2 = choose|d2: int|
                                0 <= d2 < d + 1 && deps@[d2] == order@[c2];
                            if d2 == d as int {
                                assert(order@[c2] == dval);
                                assert(order@[c as int] == dval);
                                assert(c2 == c as int);
                                assert(eff@.contains(clist@[k2]));
                            }
                        }
                    }
                },
            }
            d = d + 1;
        }
        // Everything the new system must run after through skipped
        // middles made it into the merged closure.
        proof {
            Self::lemma_merge_completeness(
                world,
                registry,
                order@,
                m as int,
                t,
                deps@,
                closures@,
                self.system_ids@,
                eff@,
            );
        }
        let ghost effv = eff@;
        // Keep the system if its resources are present; either way
        // record its closure for later walkers.
        let keep = match registry.info_by_type_id(t) {
            Some(info) => Self::is_resource_matched(world, info),
            None => false,
        };
        proof {
            registry.lemma_admitted_distinct();
            assert(keep == spec_kept(world, registry, t)) by {
                if keep {
                    assert(spec_kept(world, registry, t));
                } else {
                    if spec_kept(world, registry, t) {
                        let i2 = choose|i2: int|
                            0 <= i2 < registry.admitted().len() && (
                            #[trigger] registry.admitted()[i2]).spec_type_id() == t
                                && spec_resource_matched(
                                world,
                                &registry.admitted()[i2],
                            );
                        assert(exists|i3: int|
                            0 <= i3 < registry.admitted().len() && registry.admitted()[
                                i3].spec_type_id() == t);
                        assert(false);
                    }
                }
            };
        }
        if keep {
            self.plan_step_keep(world, registry, order, m, t, closed_ids, closures, eff, Ghost(src_pos))
        } else {
            self.plan_step_skip(world, registry, order, m, t, closed_ids, closures, eff, Ghost(src_pos))
        }
    }

    /// Everything reachable from a system through skipped middles is in
    /// the closure merged from its direct dependencies: a one-edge step
    /// lands either on a kept system (whose position the merge copied) or
    /// on a skipped one (whose own complete closure the merge absorbed).
    proof fn lemma_merge_completeness<R, C>(
        world: &World<R, C>,
        registry: &SystemRegistry,
        order: Seq<u64>,
        m: int,
        t: u64,
        deps: Seq<u64>,
        closures: Seq<Vec<usize>>,
        ids: Seq<u64>,
        eff: Seq<usize>,
    )
        requires
            0 <= m < order.len(),
            t == order[m],
            closures.len() == m,
            forall|m2: int, d: u64|
                0 <= m2 < order.len() && #[trigger] registry.spec_graph().deps_of(
                    order[m2],
                ).contains(d) ==> exists|j: int| 0 <= j < m2 && order[j] == d,
            deps.to_set() == registry.spec_graph().deps_of(t),
            ids.no_duplicates(),
            forall|c: int|
                0 <= c < m && ids.contains(#[trigger] order[c]) ==> closures[c]@.len() == 1
                    && (closures[c]@[0] as int) < ids.len() && ids[closures[c]@[0] as int]
                    == order[c],
            forall|c: int, j: int|
                0 <= c < m && !spec_kept(world, registry, order[c]) && 0 <= j < ids.len()
                    && #[trigger] skipped_reaches(world, registry, order[c], ids[j])
                    ==> closures[c]@.contains(j as usize),
            forall|c2: int, k: int|
                0 <= c2 < m && 0 <= k < closures[c2]@.len() && (exists|d2: int|
                    0 <= d2 < deps.len() && deps[d2] == order[c2]) ==> eff.contains(
                    #[trigger] closures[c2]@[k],
                ),
        ensures
            forall|j: int|
                0 <= j < ids.len() && #[trigger] skipped_reaches(world, registry, t, ids[j])
                    ==> eff.contains(j as usize),
    {
        let g = registry.spec_graph();
        assert forall|j: int|
            0 <= j < ids.len() && #[trigger] skipped_reaches(
                world,
                registry,
                t,
                ids[j],
            ) implies eff.contains(j as usize) by {
            let b = ids[j];
            let pth = choose|pth: Seq<u64>|
                skipped_chain(world, registry, pth) && pth.first() == t && pth.last() == b;
            let dv = pth[1];
            assert(g.edge(t, dv)) by {
                assert(g.edge(pth[0], pth[1]));
            };
            assert(g.deps_of(t).contains(dv));
            assert(deps.to_set().contains(dv));
            let d2 = choose|d2: int| 0 <= d2 < deps.len() && deps[d2] == dv;
            assert(exists|c2: int| 0 <= c2 < m && order[c2] == dv) by {
                assert(g.deps_of(order[m]).contains(dv));
            };
            let c2 = choose|c2: int| 0 <= c2 < m && order[c2] == dv;
            assert(deps[d2] == order[c2]);
            if pth.len() == 2 {
                assert(b == dv);
                assert(ids.contains(order[c2])) by {
                    assert(ids[j] == b);
                };
                let pos = closures[c2]@[0];
                assert(closures[c2]@.len() == 1 && (pos as int) < ids.len() && ids[
                    pos as int] == order[c2]);
                assert(pos as int == j) by {
                    if pos as int != j {
                        assert(ids[pos as int] == ids[j]);
                    }
                };
                assert(eff.contains(closures[c2]@[0]));
            } else {
                assert(!spec_kept(world, registry, dv)) by {
                    assert(!spec_kept(world, registry, pth[1]));
                };
                let q = pth.subrange(1, pth.len() as int);
                assert(skipped_chain(world, registry, q)) by {
                    assert(q.len() >= 2);
                    assert forall|k2: int|
                        0 <= k2 < q.len() - 1 implies g.edge(#[trigger] q[k2], q[k2 + 1]) by {
                        assert(q[k2] == pth[k2 + 1] && q[k2 + 1] == pth[k2 + 2]);
                    }
                    assert forall|k2: int|
                        0 < k2 < q.len() - 1 implies !spec_kept(
                        world,
                        registry,
                        #[trigger] q[k2],
                    ) by {
                        assert(q[k2] == pth[k2 + 1]);
                    }
                };
                assert(q.first() == dv && q.last() == b);
                assert(skipped_reaches(world, registry, dv, b));
                assert(closures[c2]@.contains(j as usize));
                let kk = choose|kk: int|
                    0 <= kk < closures[c2]@.len() && closures[c2]@[kk] == j as usize;
                assert(eff.contains(closures[c2]@[kk]));
            }
        }
    }

    /// Appending a kept system keeps the plan identities distinct and
    /// keeps every dependency list complete: whatever a planned system
    /// must run after through skipped middles is recorded.
    proof fn lemma_keep_completeness<R, C>(
        &self,
        pre: Scheduler,
        world: &World<R, C>,
        registry: &SystemRegistry,
        order: Seq<u64>,
        src_pos: Seq<int>,
        m: int,
        i: usize,
        t: u64,
        effv: Seq<usize>,
    )
        requires
            0 <= m < order.len(),
            order.no_duplicates(),
            forall|m2: int, d: u64|
                0 <= m2 < order.len() && #[trigger] registry.spec_graph().deps_of(
                    order[m2],
                ).contains(d) ==> exists|j: int| 0 <= j < m2 && order[j] == d,
            t == order[m],
            pre.system_ids@.len() == i,
            self.system_ids@ == pre.system_ids@.push(t),
            self.plan_dep_lists@.len() == i + 1,
            pre.plan_dep_lists@.len() == i,
            self.plan_dep_lists@[i as int]@ == effv,
            forall|i2: int|
                0 <= i2 < i ==> (#[trigger] self.plan_dep_lists@[i2]@) == pre.plan_dep_lists@[
                    i2]@,
            src_pos.len() == i,
            forall|k: int|
                0 <= k < src_pos.len() ==> 0 <= #[trigger] src_pos[k] < m && order[src_pos[k]]
                    == pre.system_ids@[k],
            pre.system_ids@.no_duplicates(),
            forall|i2: int, j: int|
                0 <= i2 < pre.plan_dep_lists@.len() && 0 <= j < pre.system_ids@.len()
                    && #[trigger] skipped_reaches(
                    world,
                    registry,
                    pre.system_ids@[i2],
                    pre.system_ids@[j],
                ) ==> pre.plan_dep_lists@[i2]@.contains(j as usize),
            forall|j: int|
                0 <= j < pre.system_ids@.len() && #[trigger] skipped_reaches(
                    world,
                    registry,
                    t,
                    pre.system_ids@[j],
                ) ==> effv.contains(j as usize),
        ensures
            self.system_ids@.no_duplicates(),
            forall|i2: int, j: int|
                0 <= i2 < self.plan_dep_lists@.len() && 0 <= j < self.system_ids@.len()
                    && #[trigger] skipped_reaches(
                    world,
                    registry,
                    self.system_ids@[i2],
                    self.system_ids@[j],
                ) ==> self.plan_dep_lists@[i2]@.contains(j as usize),
    {
        let ids0 = pre.system_ids@;
        assert(!ids0.contains(t)) by {
            if ids0.contains(t) {
                let k2 = choose|k2: int| 0 <= k2 < ids0.len() && ids0[k2] == t;
                assert(order[src_pos[k2]] == t);
                assert(order[src_pos[k2]] == order[m]);
                assert(src_pos[k2] == m);
            }
        };
        assert(self.system_ids@.no_duplicates()) by {
            assert forall|a2: int, b2: int|
                0 <= a2 < self.system_ids@.len() && 0 <= b2 < self.system_ids@.len() && a2
                    != b2 implies self.system_ids@[a2] != self.system_ids@[b2] by {
                if a2 < ids0.len() && b2 < ids0.len() {
                } else if a2 < ids0.len() {
                    assert(self.system_ids@[b2] == t && self.system_ids@[a2] == ids0[a2]);
                    assert(ids0.contains(ids0[a2]));
                } else {
                    assert(self.system_ids@[a2] == t && self.system_ids@[b2] == ids0[b2]);
                    assert(ids0.contains(ids0[b2]));
                }
            }
        };
        assert forall|i2: int, j: int|
            0 <= i2 < self.plan_dep_lists@.len() && 0 <= j < self.system_ids@.len()
                && #[trigger] skipped_reaches(
                world,
                registry,
                self.system_ids@[i2],
                self.system_ids@[j],
            ) implies self.plan_dep_lists@[i2]@.contains(j as usize) by {
            assert(registry.spec_graph().reaches(
                self.system_ids@[i2],
                self.system_ids@[j],
            )) by {
                let pth = choose|pth: Seq<u64>|
                    skipped_chain(world, registry, pth) && pth.first() == self.system_ids@[
                        i2] && pth.last() == self.system_ids@[j];
                assert(registry.spec_graph().is_path(pth));
            };
            if j == i as int {
                let src: int = if i2 == i as int {
                    m
                } else {
                    src_pos[i2]
                };
                assert(order[src] == self.system_ids@[i2]) by {
                    if i2 < i as int {
                        assert(order[src_pos[i2]] == ids0[i2]);
                    }
                };
                assert(order[m] == self.system_ids@[j]);
                lemma_no_forward_reach(&registry.spec_graph(), order, src, m);
                assert(false);
            } else if i2 == i as int {
                assert(j < ids0.len());
                assert(self.system_ids@[j] == ids0[j]);
                assert(self.system_ids@[i2] == t);
                assert(skipped_reaches(world, registry, t, ids0[j]));
                assert(effv.contains(j as usize));
            } else {
                assert(self.plan_dep_lists@[i2]@ == pre.plan_dep_lists@[i2]@);
                assert(j < ids0.len());
                assert(self.system_ids@[i2] == ids0[i2]);
                assert(self.system_ids@[j] == ids0[j]);
                assert(skipped_reaches(world, registry, ids0[i2], ids0[j]));
            }
        }
    }

    /// The plan invariant survives appending one system with backward
    /// dependencies, its dependants wired to it: exactly the dependency
    /// positions gained the new system as a dependant.
    proof fn lemma_plan_extended(&self, pre: Scheduler, i: usize, t: u64)
        requires
            pre.plan_wf(),
            pre.system_ids@.len() == i,
            self.system_ids@.len() == i + 1,
            self.plan_dep_lists@.len() == i + 1,
            self.dependants@.len() == i + 1,
            self.dependencies_counter_cache@.len() == i + 1,
            self.dependencies_counter@.len() == i + 1,
            self.system_ids@ == pre.system_ids@.push(t),
            self.plan_dep_lists@ == pre.plan_dep_lists@.push(self.plan_dep_lists@[i as int]),
            self.dependencies_counter_cache@ == pre.dependencies_counter_cache@.push(
                (1 + self.plan_dep_lists@[i as int]@.len()) as usize,
            ),
            self.plan_dep_lists@[i as int]@.len() < usize::MAX,
            forall|k2: int|
                0 <= k2 < self.plan_dep_lists@[i as int]@.len() ==> (
                #[trigger] self.plan_dep_lists@[i as int]@[k2]) < i,
            self.plan_dep_lists@[i as int]@.no_duplicates(),
            forall|p: int|
                0 <= p < i ==> (#[trigger] self.dependants@[p]@) == (if self.plan_dep_lists@[
                    i as int]@.contains(p as usize) {
                    pre.dependants@[p]@.push(i as usize)
                } else {
                    pre.dependants@[p]@
                }),
            self.dependants@[i as int]@ == Seq::<usize>::empty(),
        ensures
            self.plan_wf(),
    {
        let n = self.system_ids@.len() as int;
        let newlist = self.plan_dep_lists@[i as int]@;
        assert forall|p: int, k: int|
            0 <= p < n && 0 <= k < self.dependants@[p]@.len() implies p < (
        #[trigger] self.dependants@[p]@[k]) < n by {
            if p < i as int {
                if newlist.contains(p as usize) {
                    assert(self.dependants@[p]@ == pre.dependants@[p]@.push(i as usize));
                    if k < pre.dependants@[p]@.len() {
                        assert(self.dependants@[p]@[k] == pre.dependants@[p]@[k]);
                        assert(p < pre.dependants@[p]@[k] < i);
                    } else {
                        assert(self.dependants@[p]@[k] == i as usize);
                    }
                } else {
                    assert(p < pre.dependants@[p]@[k] < i);
                }
            }
        }
        assert forall|p: int, i2: usize|
            0 <= p < n implies ((#[trigger] self.dependants@[p]@.contains(i2)) <==> (0 <= i2
            < n && self.plan_dep_lists@[i2 as int]@.contains(p as usize))) by {
            if p == i as int {
                if self.dependants@[p]@.contains(i2) {
                    assert(false);
                }
                if 0 <= i2 < n && self.plan_dep_lists@[i2 as int]@.contains(p as usize) {
                    let k2 = choose|k2: int|
                        0 <= k2 < self.plan_dep_lists@[i2 as int]@.len() && self
                            .plan_dep_lists@[i2 as int]@[k2] == p as usize;
                    if (i2 as int) < i {
                        assert(self.plan_dep_lists@[i2 as int]@ == pre.plan_dep_lists@[
                            i2 as int]@);
                        assert(pre.dependants@[i2 as int]@.len() >= 0);
                        assert((pre.plan_dep_lists@[i2 as int]@[k2] as int) < i2);
                        assert(false);
                    } else {
                        assert(i2 as int == i);
                        assert((newlist[k2] as int) < i);
                        assert(false);
                    }
                }
            } else {
                // p < i: the slot got the new dependant exactly when the
                // new row lists p.
                if newlist.contains(p as usize) {
                    assert(self.dependants@[p]@ == pre.dependants@[p]@.push(i as usize));
                    if self.dependants@[p]@.contains(i2) {
                        let k2 = choose|k2: int|
                            0 <= k2 < self.dependants@[p]@.len() && self.dependants@[p]@[k2]
                                == i2;
                        if k2 < pre.dependants@[p]@.len() {
                            assert(pre.dependants@[p]@[k2] == i2);
                            assert(pre.dependants@[p]@.contains(i2));
                            assert(0 <= i2 < i && pre.plan_dep_lists@[i2 as int]@.contains(
                                p as usize,
                            ));
                            assert(self.plan_dep_lists@[i2 as int]@ == pre.plan_dep_lists@[
                                i2 as int]@);
                        } else {
                            assert(i2 == i as usize);
                            assert(self.plan_dep_lists@[i2 as int]@.contains(p as usize));
                        }
                    }
                    if 0 <= i2 < n && self.plan_dep_lists@[i2 as int]@.contains(p as usize) {
                        if (i2 as int) < i {
                            assert(pre.plan_dep_lists@[i2 as int]@.contains(p as usize));
                            assert(pre.dependants@[p]@.contains(i2));
                            let k2 = choose|k2: int|
                                0 <= k2 < pre.dependants@[p]@.len() && pre.dependants@[
                                p]@[k2] == i2;
                            assert(self.dependants@[p]@[k2] == i2);
                        } else {
                            assert(self.dependants@[p]@[self.dependants@[p]@.len() - 1]
                                == i as usize);
                        }
                    }
                } else {
                    assert(self.dependants@[p]@ == pre.dependants@[p]@);
                    if self.dependants@[p]@.contains(i2) {
                        assert(pre.dependants@[p]@.contains(i2));
                        assert(0 <= i2 < i && pre.plan_dep_lists@[i2 as int]@.contains(
                            p as usize,
                        ));
                        assert(self.plan_dep_lists@[i2 as int]@ == pre.plan_dep_lists@[
                            i2 as int]@);
                    }
                    if 0 <= i2 < n && self.plan_dep_lists@[i2 as int]@.contains(p as usize) {
                        if (i2 as int) < i {
                            assert(pre.plan_dep_lists@[i2 as int]@.contains(p as usize));
                            assert(pre.dependants@[p]@.contains(i2));
                        } else {
                            assert(newlist.contains(p as usize));
                            assert(false);
                        }
                    }
                }
            }
        }
        assert forall|p: int| 0 <= p < n implies (
        #[trigger] self.dependants@[p]@).no_duplicates() by {
            if p < i as int {
                if newlist.contains(p as usize) {
                    assert(self.dependants@[p]@ == pre.dependants@[p]@.push(i as usize));
                    assert(!pre.dependants@[p]@.contains(i as usize)) by {
                        if pre.dependants@[p]@.contains(i as usize) {
                            let k2 = choose|k2: int|
                                0 <= k2 < pre.dependants@[p]@.len() && pre.dependants@[
                                p]@[k2] == i as usize;
                            assert(p < pre.dependants@[p]@[k2] < i);
                        }
                    };
                    crate::entity::lemma_push_fresh_usizes(pre.dependants@[p]@, i as usize);
                }
            }
        }
    }

    /// The plan is acyclic: every dependency of a position comes strictly
    /// earlier in the order, so the position itself is a rank that every
    /// dependency chain descends.
    pub proof fn lemma_plan_acyclic(&self)
        requires
            self.plan_wf(),
        ensures
            forall|i: int, k: int|
                0 <= i < self.plan().len() && 0 <= k < self.deps_at(i).len() ==> (
                #[trigger] self.deps_at(i)[k]) < i,
    {
    }

    /// Each cached initial counter is one (the frame driver's self-guard)
    /// plus the number of plan dependencies of its position.
    pub proof fn lemma_initial_counts(&self)
        requires
            self.plan_wf(),
        ensures
            forall|i: int|
                0 <= i < self.plan().len() ==> (#[trigger] self.initial_counters()[i]) == 1
                    + self.deps_at(i).len(),
    {
    }

    /// Reset every working counter to its cached initial value: after the
    /// reset, each position's remaining count equals one (the driver's
    /// guard) plus its number of plan dependencies.
    pub fn reset_counters(&mut self)
        requires
            old(self).plan_wf(),
        ensures
            final(self).plan_wf(),
            final(self).counters() == final(self).initial_counters(),
            final(self).plan() == old(self).plan(),
            final(self).initial_counters() == old(self).initial_counters(),
            forall|i: int|
                0 <= i < old(self).plan().len() ==> #[trigger] final(self).deps_at(i) == old(self).deps_at(i),
            forall|i: int|
                0 <= i < old(self).plan().len() ==> #[trigger] final(self).dependants_at(i)
                    == old(self).dependants_at(i),
            final(self).reader() == old(self).reader(),
            final(self).sys_reader() == old(self).sys_reader(),
    {
        let n = self.dependencies_counter.len();
        let mut i: usize = 0;
        while i < n
            invariant
                *self == (Scheduler { dependencies_counter: self.dependencies_counter, ..*old(self) }),
                old(self).plan_wf(),
                n == self.dependencies_counter@.len(),
                self.dependencies_counter@.len()
                    == self.dependencies_counter_cache@.len(),
                0 <= i <= n,
                forall|j: int|
                    0 <= j < i ==> #[trigger] self.dependencies_counter@[j]
                        == self.dependencies_counter_cache@[j],
            decreases n - i,
        {
            let v = self.dependencies_counter_cache[i];
            self.dependencies_counter[i] = v;
            i = i + 1;
        }
        proof {
            assert(self.counters() =~= self.initial_counters());
        }
    }

    /// One frame: refresh the plan when either change channel signalled,
    /// reset the counters, and hand back the execution order — every
    /// admitted system's identity, each after all its plan dependencies.
    /// The embedder runs the systems in that order, or drives them in
    /// parallel through [`Self::begin_system`] and
    /// [`Self::complete_system`].
    pub fn update<R, C>(
        &mut self,
        world: &mut World<R, C>,
        registry: &mut SystemRegistry,
    ) -> (r: Result<Vec<u64>, SortError>)
        requires
            old(world).wf(),
            old(registry).wf(),
            old(self).plan_wf(),
            old(world).spec_change_events().reader_live(old(self).reader().spec_index()),
            old(registry).spec_change_events().reader_live(
                old(self).sys_reader().spec_index(),
            ),
            old(self).sys_reader().spec_index() != old(registry).spec_reader().spec_index(),
            (old(world).spec_change_events().pending(old(self).reader().spec_index()).len()
                == 0 && old(registry).spec_change_events().pending(
                old(self).sys_reader().spec_index(),
            ).len() == 0) ==> old(self).plan_matches(&*old(world), old(registry)) && old(registry).graph_reflects(),
        ensures
            final(world).wf(),
            final(registry).wf(),
            final(self).plan_wf(),
            final(world).res_map() == old(world).res_map(),
            final(world).spec_entities() == old(world).spec_entities(),
            final(registry).admitted() == old(registry).admitted(),
            r matches Ok(ids) ==> ids@ == final(self).plan() && final(self).counters() == final(self).initial_counters(),
            r is Ok ==> final(self).plan_matches(&*final(world), final(registry)),
            final(registry).graph_reflects(),
            r is Err ==> exists|s: Set<u64>| stuck_set(final(registry).spec_graph(), s),
            (forall|x: u64| !final(registry).spec_graph().reaches(x, x)) ==> r is Ok,
            final(world).spec_change_events().reader_live(final(self).reader().spec_index()),
            final(registry).spec_change_events().reader_live(
                final(self).sys_reader().spec_index(),
            ),
            final(self).reader() == old(self).reader(),
            final(self).sys_reader() == old(self).sys_reader(),
            final(registry).spec_reader() == old(registry).spec_reader(),
    {
        let world_changed = world.resource_events_read_any(&self.resources_change_event_reader);
        let systems_changed = registry.changes_read_any(&self.system_change_reader);
        proof {
            let ch = registry.spec_change_events();
            ch.lemma_reader_live_in_range(self.system_change_reader.spec_index());
        }
        if world_changed || systems_changed {
            match self.refresh_systems(world, registry) {
                Ok(()) => {},
                Err(e) => {
                    return Err(e);
                },
            }
        } else {
            // Neither channel signalled, so the plan built last time is
            // still faithful: the world's resource set and the registry's
            // system set and graph are as the plan left them.
            proof {
                assert(old(self).plan_matches(&*old(world), old(registry)));
                assert(self.plan() == old(self).plan());
                assert(world.res_map() == old(world).res_map());
                assert(registry.admitted() == old(registry).admitted());
                assert(registry.spec_graph() == old(registry).spec_graph());
                assert forall|t: u64|
                    #[trigger] spec_kept(&*world, &*registry, t) == spec_kept(
                        &*old(world),
                        old(registry),
                        t,
                    ) by {
                        if spec_kept(&*world, &*registry, t) {
                            let i2 = choose|i2: int|
                                0 <= i2 < registry.admitted().len() && (
                                #[trigger] registry.admitted()[i2]).spec_type_id() == t
                                    && spec_resource_matched(
                                    &*world,
                                    &registry.admitted()[i2],
                                );
                            assert(old(registry).admitted()[i2] == registry.admitted()[i2]);
                            assert(spec_resource_matched(
                                &*old(world),
                                &old(registry).admitted()[i2],
                            ));
                        }
                        if spec_kept(&*old(world), old(registry), t) {
                            let i2 = choose|i2: int|
                                0 <= i2 < old(registry).admitted().len() && (
                                #[trigger] old(registry).admitted()[i2]).spec_type_id() == t
                                    && spec_resource_matched(
                                    &*old(world),
                                    &old(registry).admitted()[i2],
                                );
                            assert(registry.admitted()[i2] == old(registry).admitted()[i2]);
                            assert(spec_resource_matched(
                                &*world,
                                &registry.admitted()[i2],
                            ));
                        }
                }
                assert forall|t: u64|
                    #[trigger] self.plan().contains(t) <==> spec_kept(
                        &*world,
                        &*registry,
                        t,
                    ) by {
                    assert(old(self).plan().contains(t) <==> spec_kept(
                        &*old(world),
                        old(registry),
                        t,
                    ));
                    assert(spec_kept(&*world, &*registry, t) == spec_kept(
                        &*old(world),
                        old(registry),
                        t,
                    ));
                }
                assert forall|i2: int, k: int|
                    0 <= i2 < self.plan().len() && 0 <= k < self.deps_at(i2).len() implies ((
                #[trigger] self.deps_at(i2)[k]) as int) < i2 && registry.spec_graph().reaches(
                    self.plan()[i2],
                    self.plan()[self.deps_at(i2)[k] as int],
                ) by {
                    assert(self.deps_at(i2) == old(self).deps_at(i2));
                    assert((old(self).deps_at(i2)[k] as int) < i2 && old(registry).spec_graph().reaches(
                        old(self).plan()[i2],
                        old(self).plan()[old(self).deps_at(i2)[k] as int],
                    ));
                }
                assert forall|i2: int, p: int|
                    0 <= i2 < self.plan().len() && 0 <= p < self.plan().len()
                        && #[trigger] skipped_reaches(
                        &*world,
                        &*registry,
                        self.plan()[i2],
                        self.plan()[p],
                    ) implies self.deps_at(i2).contains(p as usize) by {
                    let pth = choose|pth: Seq<u64>|
                        skipped_chain(&*world, &*registry, pth) && pth.first() == self.plan()[
                            i2] && pth.last() == self.plan()[p];
                    assert(skipped_chain(&*old(world), old(registry), pth)) by {
                        assert(old(registry).spec_graph().is_path(pth));
                        assert forall|k: int|
                            0 < k < pth.len() - 1 implies !spec_kept(
                            &*old(world),
                            old(registry),
                            #[trigger] pth[k],
                        ) by {
                            assert(!spec_kept(&*world, &*registry, pth[k]));
                            assert(spec_kept(&*world, &*registry, pth[k]) == spec_kept(
                                &*old(world),
                                old(registry),
                                pth[k],
                            ));
                        }
                    };
                    assert(skipped_reaches(
                        &*old(world),
                        old(registry),
                        old(self).plan()[i2],
                        old(self).plan()[p],
                    ));
                    assert(old(self).deps_at(i2).contains(p as usize));
                    assert(self.deps_at(i2) == old(self).deps_at(i2));
                }
                assert(self.plan_matches(&*world, &*registry));
                assert(registry.graph_reflects());
            }
        }
        self.reset_counters();
        let mut ids: Vec<u64> = Vec::new();
        let mut i: usize = 0;
        let n = self.system_ids.len();
        while i < n
            invariant
                0 <= i <= n,
                n == self.system_ids@.len(),
                ids@ == self.system_ids@.take(i as int),
            decreases n - i,
        {
            ids.push(self.system_ids[i]);
            i = i + 1;
            proof {
                assert(ids@ =~= self.system_ids@.take(i as int));
            }
        }
        proof {
            assert(ids@ =~= self.system_ids@);
        }
        Ok(ids)
    }

    /// How many systems the plan holds.
    pub fn plan_len(&self) -> (r: usize)
        ensures
            r == self.plan().len(),
    {
        self.system_ids.len()
    }

    /// The cached initial counter of a position.
    pub fn initial_count_at(&self, i: usize) -> (r: usize)
        requires
            self.plan_wf(),
            0 <= i < self.plan().len(),
        ensures
            r == self.initial_counters()[i as int],
    {
        self.dependencies_counter_cache[i]
    }

    /// The working counter of a position.
    pub fn count_at(&self, i: usize) -> (r: usize)
        requires
            self.plan_wf(),
            0 <= i < self.plan().len(),
        ensures
            r == self.counters()[i as int],
    {
        self.dependencies_counter[i]
    }

    /// The frame driver's pass over one position: release its self-guard.
    /// The system is ready to run exactly when its counter hits zero.
    pub fn begin_system(&mut self, i: usize) -> (ready: bool)
        requires
            old(self).plan_wf(),
            0 <= i < old(self).plan().len(),
            old(self).counters()[i as int] >= 1,
        ensures
            final(self).plan_wf(),
            final(self).plan() == old(self).plan(),
            final(self).initial_counters() == old(self).initial_counters(),
            final(self).counters() == old(self).counters().update(
                i as int,
                (old(self).counters()[i as int] - 1) as usize,
            ),
            ready == (old(self).counters()[i as int] == 1),
            final(self).reader() == old(self).reader(),
            final(self).sys_reader() == old(self).sys_reader(),
    {
        let v = self.dependencies_counter[i] - 1;
        self.dependencies_counter[i] = v;
        proof {
            assert(self.counters() =~= old(self).counters().update(
                i as int,
                (old(self).counters()[i as int] - 1) as usize,
            ));
        }
        v == 0
    }

    /// A completed system releases its dependants: each of their counters
    /// drops by one, and the positions that hit zero are ready to run.
    pub fn complete_system(&mut self, i: usize) -> (ready: Vec<usize>)
        requires
            old(self).plan_wf(),
            0 <= i < old(self).plan().len(),
            forall|k: int|
                0 <= k < old(self).dependants_at(i as int).len() ==> old(self).counters()[old(self).dependants_at(i as int)[k] as int] >= 1,
        ensures
            final(self).plan_wf(),
            final(self).plan() == old(self).plan(),
            final(self).initial_counters() == old(self).initial_counters(),
            forall|j: int|
                0 <= j < final(self).counters().len() ==> #[trigger] final(self).counters()[j]
                    == (if old(self).dependants_at(i as int).contains(j as usize) {
                    (old(self).counters()[j] - 1) as int
                } else {
                    old(self).counters()[j] as int
                }),
            forall|j: usize|
                #[trigger] ready@.contains(j) <==> (old(self).dependants_at(i as int).contains(
                    j,
                ) && old(self).counters()[j as int] == 1),
            final(self).reader() == old(self).reader(),
            final(self).sys_reader() == old(self).sys_reader(),
    {
        let mut ready: Vec<usize> = Vec::new();
        let dlen = self.dependants[i].len();
        let ghost deps = self.dependants@[i as int]@;
        proof {
            assert(deps == old(self).dependants_at(i as int));
            assert forall|k2: int|
                0 <= k2 < deps.len() implies 0 <= (#[trigger] deps[k2])
                    < self.dependencies_counter@.len() by {
                assert((i as int) < deps[k2] < self.system_ids@.len());
            }
            assert forall|k2: int|
                0 <= k2 < deps.len() implies old(self).counters()[(
                #[trigger] deps[k2]) as int] >= 1 by {
                assert(old(self).dependants_at(i as int)[k2] == deps[k2]);
            }
        }
        let mut k: usize = 0;
        while k < dlen
            invariant
                old(self).plan_wf(),
                *self == (Scheduler { dependencies_counter: self.dependencies_counter, ..*old(self) }),
                0 <= i < self.system_ids@.len(),
                deps == self.dependants@[i as int]@,
                dlen == deps.len(),
                0 <= k <= dlen,
                deps.no_duplicates(),
                forall|k2: int|
                    0 <= k2 < deps.len() ==> 0 <= (#[trigger] deps[k2])
                        < self.dependencies_counter@.len(),
                forall|k2: int|
                    0 <= k2 < deps.len() ==> old(self).counters()[(#[trigger] deps[k2]) as int]
                        >= 1,
                self.dependencies_counter@.len() == old(self).dependencies_counter@.len(),
                forall|j: int|
                    0 <= j < self.dependencies_counter@.len()
                        ==> #[trigger] self.dependencies_counter@[j] == (if deps.take(
                        k as int,
                    ).contains(j as usize) {
                        (old(self).counters()[j] - 1) as usize
                    } else {
                        old(self).counters()[j] as usize
                    }),
                forall|j: usize|
                    #[trigger] ready@.contains(j) <==> (deps.take(k as int).contains(j) && old(self).counters()[j as int] == 1),
            decreases dlen - k,
        {
            let j = self.dependants[i][k];
            let ghost prefix_before = deps.take(k as int);
            let ghost prefix_now = deps.take(k + 1);
            proof {
                assert(deps[k as int] == j);
                assert(prefix_now[k as int] == j);
                assert(prefix_now.contains(j));
                assert(!prefix_before.contains(j)) by {
                    if prefix_before.contains(j) {
                        let k2 = choose|k2: int|
                            0 <= k2 < prefix_before.len() && prefix_before[k2] == j;
                        assert(deps[k2] == deps[k as int]);
                    }
                };
            }
            let v = self.dependencies_counter[j] - 1;
            self.dependencies_counter[j] = v;
            let ghost ready0 = ready@;
            if v == 0 {
                ready.push(j);
            }
            proof {
                assert(self.dependencies_counter@.len()
                    == vstd::std_specs::vec::spec_vec_len(&self.dependencies_counter));
                assert forall|j2: int|
                    0 <= j2 < self.dependencies_counter@.len()
                        implies #[trigger] self.dependencies_counter@[j2] == (if prefix_now
                    .contains(j2 as usize) {
                    (old(self).counters()[j2] - 1) as usize
                } else {
                    old(self).counters()[j2] as usize
                }) by {
                    if j2 == j as int {
                    } else {
                        if prefix_now.contains(j2 as usize) {
                            let k2 = choose|k2: int|
                                0 <= k2 < prefix_now.len() && prefix_now[k2] == j2 as usize;
                            assert(k2 != k as int) by {
                                if k2 == k as int {
                                    assert(prefix_now[k2] == j);
                                    assert(j2 as usize == j);
                                }
                            };
                            assert(prefix_before[k2] == j2 as usize);
                            assert(prefix_before.contains(j2 as usize));
                        }
                        if prefix_before.contains(j2 as usize) {
                            let k2 = choose|k2: int|
                                0 <= k2 < prefix_before.len() && prefix_before[k2] == j2
                                    as usize;
                            assert(prefix_now[k2] == j2 as usize);
                            assert(prefix_now.contains(j2 as usize));
                        }
                    }
                }
                assert forall|j2: usize|
                    #[trigger] ready@.contains(j2) <==> (prefix_now.contains(j2) && old(self).counters()[j2 as int] == 1) by {
                    if ready@.contains(j2) {
                        let k3 = choose|k3: int|
                            0 <= k3 < ready@.len() && ready@[k3] == j2;
                        if v == 0 {
                            if k3 < ready0.len() {
                                assert(ready0[k3] == j2);
                                assert(ready0.contains(j2));
                                assert(prefix_before.contains(j2));
                                let k2 = choose|k2: int|
                                    0 <= k2 < prefix_before.len() && prefix_before[k2]
                                        == j2;
                                assert(prefix_now[k2] == j2);
                            } else {
                                assert(j2 == j);
                                assert(old(self).counters()[j as int] == 1);
                            }
                        } else {
                            assert(ready@ == ready0);
                            assert(ready0.contains(j2));
                            assert(prefix_before.contains(j2));
                            let k2 = choose|k2: int|
                                0 <= k2 < prefix_before.len() && prefix_before[k2] == j2;
                            assert(prefix_now[k2] == j2);
                        }
                    }
                    if prefix_now.contains(j2) && old(self).counters()[j2 as int] == 1 {
                        let k2 = choose|k2: int|
                            0 <= k2 < prefix_now.len() && prefix_now[k2] == j2;
                        if k2 == k as int {
                            assert(j2 == j);
                            assert(v == 0);
                            assert(ready@[ready@.len() - 1] == j2);
                        } else {
                            assert(prefix_before[k2] == j2);
                            assert(prefix_before.contains(j2));
                            assert(ready0.contains(j2));
                            if v == 0 {
                                assert(ready@ == ready0.push(j));
                                let k3 = choose|k3: int|
                                    0 <= k3 < ready0.len() && ready0[k3] == j2;
                                assert(ready@[k3] == j2);
                                assert(ready@.contains(j2));
                            } else {
                                assert(ready@ == ready0);
                            }
                        }
                    }
                }
            }
            k = k + 1;
        }
        proof {
            assert(deps.take(dlen as int) =~= deps);
            assert(deps == old(self).dependants_at(i as int));
            assert forall|j: int|
                0 <= j < self.counters().len() implies #[trigger] self.counters()[j] == (if old(self).dependants_at(i as int).contains(j as usize) {
                    (old(self).counters()[j] - 1) as int
                } else {
                    old(self).counters()[j] as int
                }) by {
                assert(self.dependencies_counter@.len()
                    == vstd::std_specs::vec::spec_vec_len(&self.dependencies_counter));
                assert(self.counters()[j] == self.dependencies_counter@[j]);
                assert(deps.take(dlen as int) == deps);
                if deps.contains(j as usize) {
                    let k2 = choose|k2: int| 0 <= k2 < deps.len() && deps[k2] == j as usize;
                    assert(old(self).counters()[deps[k2] as int] >= 1);
                }
            }
        }
        ready
    }
}

} // verus!

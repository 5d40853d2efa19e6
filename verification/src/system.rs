//! System descriptors and the registry that derives a dependency graph
//! from their declared resource accesses.
//!
//! A system declares three disjoint resource sets: reads-before-write,
//! writes, and reads-after-write. The registry's rebuild gives the graph
//! three kinds of edges per written resource: every writer depends on
//! every reader-before-write, every reader-after-write depends on every
//! writer, and writers of the same resource form a chain broken by
//! admission order (the first admitted writer runs first, unless an edge
//! in the other direction is already implied).

use vstd::prelude::*;

use crate::event_channel::EventChannel;
use crate::event_channel::ReaderHandle;
use crate::topological_sort::TopologicalGraph;
use crate::topological_sort::Visitor;

verus! {

/// A system descriptor: its identity, display name, and the three
/// declared resource-access sets that drive scheduling.
pub struct SystemInfo {
    type_id: u64,
    name: String,
    reads_before_write: Vec<u64>,
    writes: Vec<u64>,
    reads_after_write: Vec<u64>,
}

impl SystemInfo {
    pub closed spec fn spec_type_id(&self) -> u64 {
        self.type_id
    }

    pub closed spec fn spec_name(&self) -> Seq<char> {
        self.name@
    }

    /// The resources the system reads before any writer runs.
    pub closed spec fn rbw(&self) -> Set<u64> {
        self.reads_before_write@.to_set()
    }

    /// The resources the system writes.
    pub closed spec fn spec_writes(&self) -> Set<u64> {
        self.writes@.to_set()
    }

    /// The resources the system reads after every writer ran.
    pub closed spec fn raw(&self) -> Set<u64> {
        self.reads_after_write@.to_set()
    }

    pub fn new(
        type_id: u64,
        name: String,
        reads_before_write: Vec<u64>,
        writes: Vec<u64>,
        reads_after_write: Vec<u64>,
    ) -> (r: SystemInfo)
        ensures
            r.spec_type_id() == type_id,
            r.spec_name() == name@,
            r.rbw() == reads_before_write@.to_set(),
            r.spec_writes() == writes@.to_set(),
            r.raw() == reads_after_write@.to_set(),
    {
        SystemInfo { type_id, name, reads_before_write, writes, reads_after_write }
    }

    pub fn name(&self) -> (r: &String)
        ensures
            r@ == self.spec_name(),
    {
        &self.name
    }

    pub fn system_type_id(&self) -> (r: u64)
        ensures
            r == self.spec_type_id(),
    {
        self.type_id
    }

    /// The declared reads-before-write, as a list.
    pub fn reads_before_write(&self) -> (r: &Vec<u64>)
        ensures
            r@.to_set() == self.rbw(),
    {
        &self.reads_before_write
    }

    /// The declared writes, as a list.
    pub fn writes(&self) -> (r: &Vec<u64>)
        ensures
            r@.to_set() == self.spec_writes(),
    {
        &self.writes
    }

    /// The declared reads-after-write, as a list.
    pub fn reads_after_write(&self) -> (r: &Vec<u64>)
        ensures
            r@.to_set() == self.raw(),
    {
        &self.reads_after_write
    }
}

/// Whether a descriptor sequence holds the given descriptor.
pub open spec fn holds_info(s: Seq<SystemInfo>, x: SystemInfo) -> bool {
    exists|k: int| 0 <= k < s.len() && s[k] == x
}

/// A dependency of `a` on `b` that the declared resource accesses force:
/// `a` writes a resource that `b` reads before writers run, or `a` reads
/// a resource after its writers run and `b` writes it.
pub open spec fn reader_pair(systems: Seq<SystemInfo>, a: u64, b: u64) -> bool {
    exists|p: int, q: int, r: u64|
        #![trigger systems[p].spec_writes().contains(r), systems[q].rbw().contains(r)]
        #![trigger systems[p].raw().contains(r), systems[q].spec_writes().contains(r)]
        0 <= p < systems.len() && 0 <= q < systems.len() && systems[p].spec_type_id() == a
            && systems[q].spec_type_id() == b && a != b && ((systems[p].spec_writes().contains(r)
            && systems[q].rbw().contains(r)) || (systems[p].raw().contains(r) && systems[
            q].spec_writes().contains(r)))
}

/// A dependency of `a` on `b` that the writer chain forces: both write a
/// common resource and `b` was admitted before `a`.
pub open spec fn chain_pair(systems: Seq<SystemInfo>, a: u64, b: u64) -> bool {
    exists|q: int, p: int, r: u64|
        #![trigger systems[p].spec_writes().contains(r), systems[q].spec_writes().contains(r)]
        0 <= q < p < systems.len() && systems[p].spec_type_id() == a && systems[q].spec_type_id()
            == b && a != b && systems[p].spec_writes().contains(r) && systems[
            q].spec_writes().contains(r)
}

/// A dependency step that the declared accesses and the admission order
/// account for on their own.
pub open spec fn justified_edge(systems: Seq<SystemInfo>, a: u64, b: u64) -> bool {
    reader_pair(systems, a, b) || chain_pair(systems, a, b)
}

/// A chain of justified steps.
pub open spec fn justified_path(systems: Seq<SystemInfo>, p: Seq<u64>) -> bool {
    &&& p.len() >= 2
    &&& forall|k: int| 0 <= k < p.len() - 1 ==> justified_edge(systems, #[trigger] p[k], p[k + 1])
}

/// `a` must run after `b` for reasons the declared accesses and the
/// admission order account for, step by step.
pub open spec fn justified_reaches(systems: Seq<SystemInfo>, a: u64, b: u64) -> bool {
    exists|p: Seq<u64>| justified_path(systems, p) && p.first() == a && p.last() == b
}

/// A single justified step is a justified chain.
pub proof fn lemma_justified_single(systems: Seq<SystemInfo>, a: u64, b: u64)
    requires
        justified_edge(systems, a, b),
    ensures
        justified_reaches(systems, a, b),
{
    let p = Seq::<u64>::empty().push(a).push(b);
    assert(p.len() == 2);
    assert(p[0] == a && p[1] == b);
    assert(justified_path(systems, p)) by {
        assert forall|k: int|
            0 <= k < p.len() - 1 implies justified_edge(systems, #[trigger] p[k], p[k + 1]) by {
            assert(k == 0);
        }
    };
    assert(p.first() == a && p.last() == b);
}

/// Justified chains splice end to end.
pub proof fn lemma_justified_trans(systems: Seq<SystemInfo>, a: u64, b: u64, c: u64)
    requires
        justified_reaches(systems, a, b),
        justified_reaches(systems, b, c),
    ensures
        justified_reaches(systems, a, c),
{
    let p1 = choose|p1: Seq<u64>| justified_path(systems, p1) && p1.first() == a && p1.last() == b;
    let p2 = choose|p2: Seq<u64>| justified_path(systems, p2) && p2.first() == b && p2.last() == c;
    let sp = p1 + p2.subrange(1, p2.len() as int);
    assert(sp.len() == p1.len() + p2.len() - 1);
    assert(justified_path(systems, sp)) by {
        assert forall|k: int|
            0 <= k < sp.len() - 1 implies justified_edge(systems, #[trigger] sp[k], sp[k + 1]) by {
            if k < p1.len() - 1 {
                assert(sp[k] == p1[k]);
                assert(sp[k + 1] == p1[k + 1]);
            } else if k == p1.len() - 1 {
                assert(sp[k] == p1[k]);
                assert(p1[k] == p1.last());
                assert(sp[k + 1] == p2[1]);
                assert(justified_edge(systems, p2[0], p2[1]));
            } else {
                assert(sp[k] == p2[k - p1.len() + 1]);
                assert(sp[k + 1] == p2[k - p1.len() + 2]);
                assert(justified_edge(systems, p2[k - p1.len() + 1], p2[k - p1.len() + 2]));
            }
        }
    };
    assert(sp.first() == a);
    assert(sp.last() == c) by {
        assert(sp[sp.len() - 1] == p2[p2.len() - 1]);
    };
}

/// In a graph whose every edge is a justified chain, every dependency
/// chain is justified too.
pub proof fn lemma_path_justified(g: TopologicalGraph, systems: Seq<SystemInfo>, p: Seq<u64>)
    requires
        forall|x: u64, y: u64| #[trigger] g.edge(x, y) ==> justified_reaches(systems, x, y),
        g.is_path(p),
    ensures
        justified_reaches(systems, p.first(), p.last()),
    decreases p.len(),
{
    assert(g.edge(p[0], p[1]));
    if p.len() == 2 {
        assert(p.last() == p[1]);
    } else {
        let q = p.subrange(1, p.len() as int);
        assert(g.is_path(q)) by {
            assert forall|k: int| 0 <= k < q.len() - 1 implies g.edge(#[trigger] q[k], q[k + 1]) by {
                assert(q[k] == p[k + 1]);
                assert(q[k + 1] == p[k + 2]);
            }
        };
        lemma_path_justified(g, systems, q);
        assert(q.first() == p[1] && q.last() == p.last());
        lemma_justified_trans(systems, p[0], p[1], p.last());
    }
}

/// Reachability in such a graph yields a justified chain between the
/// same endpoints.
pub proof fn lemma_reach_justified(g: TopologicalGraph, systems: Seq<SystemInfo>, a: u64, b: u64)
    requires
        forall|x: u64, y: u64| #[trigger] g.edge(x, y) ==> justified_reaches(systems, x, y),
        g.reaches(a, b),
    ensures
        justified_reaches(systems, a, b),
{
    let p = choose|p: Seq<u64>| g.is_path(p) && p.first() == a && p.last() == b;
    lemma_path_justified(g, systems, p);
}

/// The per-resource buckets of system identities: who reads a resource
/// before its writers, who writes it, and who reads it afterwards.
pub struct ResourceInfo {
    pub read_before_write_systems: Vec<u64>,
    pub write_systems: Vec<u64>,
    pub read_after_write_systems: Vec<u64>,
}

/// The set of admitted system descriptors and the dependency graph over
/// them.
pub struct SystemRegistry {
    systems: Vec<SystemInfo>,
    graph: TopologicalGraph,
    system_changed_events: EventChannel<()>,
    system_changed_reader: ReaderHandle,
}

impl SystemRegistry {
    /// The admitted descriptors, in admission order.
    pub closed spec fn admitted(&self) -> Seq<SystemInfo> {
        self.systems@
    }

    /// The dependency graph.
    pub closed spec fn spec_graph(&self) -> TopologicalGraph {
        self.graph
    }

    pub closed spec fn spec_change_events(&self) -> EventChannel<()> {
        self.system_changed_events
    }

    pub closed spec fn spec_reader(&self) -> ReaderHandle {
        self.system_changed_reader
    }

    /// The edges the rebuild owes the admitted systems: per written
    /// resource, writers depend on readers-before-write, readers-after-
    /// write depend on writers, and same-resource writers are pairwise
    /// ordered (an edge from the later-admitted to the earlier, unless
    /// the earlier already depends on the later). Conversely every edge
    /// of the graph is a justified chain: nothing beyond the declared
    /// accesses and the admission order ever orders two systems.
    pub open spec fn graph_reflects(&self) -> bool {
        let g = self.spec_graph();
        let systems = self.admitted();
        &&& g.item_set() == Set::new(
            |t: u64| exists|i: int| 0 <= i < systems.len() && systems[i].spec_type_id() == t,
        )
        &&& forall|i: int, j: int, r: u64|
            0 <= i < systems.len() && 0 <= j < systems.len() && #[trigger] systems[
                i].spec_writes().contains(r) && #[trigger] systems[j].rbw().contains(r)
                && systems[i].spec_type_id() != systems[j].spec_type_id() ==> g.edge(
                systems[i].spec_type_id(),
                systems[j].spec_type_id(),
            )
        &&& forall|i: int, j: int, r: u64|
            0 <= i < systems.len() && 0 <= j < systems.len() && #[trigger] systems[
                i].spec_writes().contains(r) && #[trigger] systems[j].raw().contains(r)
                && systems[i].spec_type_id() != systems[j].spec_type_id() ==> g.edge(
                systems[j].spec_type_id(),
                systems[i].spec_type_id(),
            )
        &&& forall|i: int, j: int, r: u64|
            0 <= i < j < systems.len() && #[trigger] systems[i].spec_writes().contains(r)
                && #[trigger] systems[j].spec_writes().contains(r) && systems[i].spec_type_id()
                != systems[j].spec_type_id() ==> g.edge(
                systems[j].spec_type_id(),
                systems[i].spec_type_id(),
            ) || g.reaches(systems[i].spec_type_id(), systems[j].spec_type_id())
        &&& forall|a: u64, b: u64| #[trigger] g.edge(a, b) ==> justified_reaches(systems, a, b)
    }

    pub closed spec fn base_wf(&self) -> bool {
        &&& forall|i: int, j: int|
            0 <= i < j < self.systems@.len() ==> (#[trigger] self.systems@[i]).spec_type_id()
                != (#[trigger] self.systems@[j]).spec_type_id()
        &&& self.graph.wf()
        &&& self.system_changed_events.wf()
        &&& self.system_changed_events.reader_live(self.system_changed_reader.spec_index())
    }

    pub closed spec fn wf(&self) -> bool {
        &&& self.base_wf()
        &&& (self.system_changed_events.pending(self.system_changed_reader.spec_index()).len()
            == 0 ==> self.graph_reflects())
    }

    pub fn new() -> (r: Self)
        ensures
            r.wf(),
            r.admitted().len() == 0,
            r.spec_change_events().stream_end() == 0,
            r.spec_change_events().reader_count() == 1,
    {
        let mut system_changed_events: EventChannel<()> = EventChannel::new();
        let system_changed_reader = system_changed_events.register();
        let graph = TopologicalGraph::new();
        let r = SystemRegistry {
            systems: Vec::new(),
            graph,
            system_changed_events,
            system_changed_reader,
        };
        proof {
            assert(r.spec_graph().item_set() =~= Set::new(
                |t: u64| exists|i: int|
                    0 <= i < r.admitted().len() && r.admitted()[i].spec_type_id() == t,
            ));
        }
        r
    }

    /// Admitted descriptors carry pairwise distinct type identities.
    pub proof fn lemma_admitted_distinct(&self)
        requires
            self.wf(),
        ensures
            forall|i: int, j: int|
                0 <= i < j < self.admitted().len() ==> (#[trigger] self.admitted()[
                    i]).spec_type_id() != (#[trigger] self.admitted()[j]).spec_type_id(),
    {
    }

    /// Find an admitted descriptor's position by its type identity.
    fn find_system(&self, type_id: u64) -> (r: Option<usize>)
        requires
            self.wf(),
        ensures
            r is Some <==> exists|i: int|
                0 <= i < self.admitted().len() && self.admitted()[i].spec_type_id() == type_id,
            r matches Some(i) ==> 0 <= i < self.admitted().len() && self.admitted()[
                i as int].spec_type_id() == type_id,
    {
        let mut i: usize = 0;
        while i < self.systems.len()
            invariant
                0 <= i <= self.systems@.len(),
                forall|i2: int|
                    0 <= i2 < i ==> (#[trigger] self.systems@[i2]).spec_type_id() != type_id,
            decreases self.systems@.len() - i,
        {
            if self.systems[i].system_type_id() == type_id {
                proof {
                    assert(self.admitted()[i as int].spec_type_id() == type_id);
                }
                return Some(i);
            }
            i = i + 1;
        }
        None
    }

    /// Admit descriptors: a new type identity is appended, a known one
    /// replaces its descriptor in place. Pushes a change event so the
    /// next plan rebuild sees the new set. Input identities must be
    /// pairwise distinct.
    pub fn add_system_infos(&mut self, infos: Vec<SystemInfo>)
        requires
            old(self).wf(),
            old(self).spec_change_events().stream_end() < u64::MAX,
            forall|m1: int, m2: int|
                0 <= m1 < m2 < infos@.len() ==> (#[trigger] infos@[m1]).spec_type_id() != (
                #[trigger] infos@[m2]).spec_type_id(),
        ensures
            final(self).wf(),
            forall|m: int|
                0 <= m < infos@.len() ==> holds_info(final(self).admitted(), #[trigger] infos@[
                    m]),
            forall|k: int|
                0 <= k < old(self).admitted().len() ==> (#[trigger] final(self).admitted()[
                    k]).spec_type_id() == old(self).admitted()[k].spec_type_id(),
            final(self).admitted().len() >= old(self).admitted().len(),
            final(self).spec_change_events().stream_end() <= old(self).spec_change_events().stream_end() + 1,
    {
        proof {
            old(self).system_changed_events.lemma_reader_live_in_range(
                old(self).system_changed_reader.spec_index(),
            );
        }
        self.system_changed_events.push(());
        let ghost after_push = *self;
        proof {
            assert(self.system_changed_events.reader_live(
                self.system_changed_reader.spec_index(),
            ));
            assert(self.system_changed_events.pending(
                self.system_changed_reader.spec_index(),
            ).len() > 0);
            assert(self.system_changed_events.stream_end() <= old(self).system_changed_events.stream_end() + 1);
        }
        let mut staged = infos;
        let ghost all = staged@;
        while staged.len() > 0
            invariant
                forall|m1: int, m2: int|
                    0 <= m1 < m2 < all.len() ==> (#[trigger] all[m1]).spec_type_id() != (
                    #[trigger] all[m2]).spec_type_id(),
                staged@ == all.skip(all.len() - staged@.len()),
                staged@.len() <= all.len(),
                forall|i: int, j: int|
                    0 <= i < j < self.systems@.len() ==> (#[trigger] self.systems@[
                        i]).spec_type_id() != (#[trigger] self.systems@[j]).spec_type_id(),
                self.graph == old(self).graph,
                self.system_changed_events == after_push.system_changed_events,
                self.system_changed_reader == after_push.system_changed_reader,
                after_push.system_changed_events.wf(),
                after_push.system_changed_events.reader_live(
                    after_push.system_changed_reader.spec_index(),
                ),
                after_push.system_changed_events.pending(
                    after_push.system_changed_reader.spec_index(),
                ).len() > 0,
                after_push.system_changed_events.stream_end() <= old(
                    self,
                ).system_changed_events.stream_end() + 1,
                old(self).wf(),
                forall|m: int|
                    0 <= m < all.len() - staged@.len() ==> exists|k: int|
                        0 <= k < self.systems@.len() && self.systems@[k] == (
                        #[trigger] all[m]),
                forall|k: int|
                    0 <= k < old(self).systems@.len() ==> (#[trigger] self.systems@[
                        k]).spec_type_id() == old(self).systems@[k].spec_type_id(),
                self.systems@.len() >= old(self).systems@.len(),
            decreases staged@.len(),
        {
            let ghost m0 = all.len() - staged@.len();
            let info = staged.remove(0);
            proof {
                assert(all.skip(m0)[0] == all[m0]);
                assert(info == all[m0]);
                assert(staged@ =~= all.skip(m0 + 1));
            }
            proof {
                assert(self.wf());
            }
            let ghost before = self.systems@;            let ghost before = self.systems@;
            let ghost at_find = *self;
            let found = self.find_system(info.system_type_id());
            match found {
                Some(k) => {
                    let tid = info.system_type_id();
                    self.systems[k] = info;
                    proof {
                        assert(self.systems@ == before.update(k as int, all[m0]));
                        assert forall|m: int|
                            0 <= m < m0 + 1 implies exists|k2: int|
                            0 <= k2 < self.systems@.len() && self.systems@[k2] == (
                            #[trigger] all[m]) by {
                            if m == m0 {
                                assert(self.systems@[k as int] == all[m]);
                            } else {
                                let k2 = choose|k2: int|
                                    0 <= k2 < before.len() && before[k2] == all[m];
                                assert(k2 != k) by {
                                    if k2 == k {
                                        assert(before[k as int].spec_type_id() == all[
                                            m0].spec_type_id());
                                        assert(all[m].spec_type_id() == all[
                                            m0].spec_type_id());
                                    }
                                };
                                assert(self.systems@[k2] == all[m]);
                            }
                        }
                    }
                },
                None => {
                    self.systems.push(info);
                    proof {
                        assert(self.systems@ == before.push(all[m0]));
                        assert forall|i: int, j: int|
                            0 <= i < j < self.systems@.len() implies (#[trigger] self.systems@[
                                i]).spec_type_id() != (#[trigger] self.systems@[
                            j]).spec_type_id() by {
                            if j == self.systems@.len() - 1 {
                                assert(self.systems@[i] == before[i]);
                                if before[i].spec_type_id() == all[m0].spec_type_id() {
                                    assert(at_find.admitted()[i].spec_type_id() == all[
                                        m0].spec_type_id());
                                    assert(exists|i2: int|
                                        0 <= i2 < at_find.admitted().len() && at_find
                                            .admitted()[i2].spec_type_id() == all[
                                            m0].spec_type_id());
                                    assert(false);
                                }
                            }
                        }
                        assert forall|m: int|
                            0 <= m < m0 + 1 implies exists|k2: int|
                            0 <= k2 < self.systems@.len() && self.systems@[k2] == (
                            #[trigger] all[m]) by {
                            if m == m0 {
                                assert(self.systems@[self.systems@.len() - 1] == all[m]);
                            } else {
                                let k2 = choose|k2: int|
                                    0 <= k2 < before.len() && before[k2] == all[m];
                                assert(self.systems@[k2] == all[m]);
                            }
                        }
                    }
                },
            }
        }
        proof {
            assert forall|m: int|
                0 <= m < infos@.len() implies holds_info(
                self.admitted(),
                #[trigger] infos@[m],
            ) by {
                assert(all[m] == infos@[m]);
                let k = choose|k: int|
                    0 <= k < self.systems@.len() && self.systems@[k] == all[m];
                assert(self.admitted()[k] == infos@[m]);
            }
        }
    }

    /// Whether a list holds a value.
    fn list_contains(v: &Vec<u64>, x: u64) -> (r: bool)
        ensures
            r == v@.to_set().contains(x),
    {
        let mut i: usize = 0;
        while i < v.len()
            invariant
                0 <= i <= v@.len(),
                forall|j: int| 0 <= j < i ==> v@[j] != x,
            decreases v@.len() - i,
        {
            if v[i] == x {
                proof {
                    assert(v@.contains(x));
                }
                return true;
            }
            i = i + 1;
        }
        proof {
            if v@.to_set().contains(x) {
                let j = choose|j: int| 0 <= j < v@.len() && v@[j] == x;
                assert(v@[j] == x);
            }
        }
        false
    }

    /// Edges never disappear between two graph states.
    proof fn lemma_keep(g1: TopologicalGraph, g2: TopologicalGraph, systems: Seq<SystemInfo>, hi: int, hw: int, hj: int)
        requires
            forall|x: u64, y: u64| #[trigger] g1.edge(x, y) ==> g2.edge(x, y),
            Self::chain_done_upto(g1, systems, hi, hw, hj),
        ensures
            Self::chain_done_upto(g2, systems, hi, hw, hj),
    {
        assert forall|i: int, w: int, j: int|
            Self::chain_obligation_applies(systems, i, w, j) && Self::lex_before(
                i,
                w,
                j,
                hi,
                hw,
                hj,
            ) implies Self::chain_obligation(g2, systems, i, j) by {
            assert(Self::chain_obligation(g1, systems, i, j));
            if g1.edge(systems[j].spec_type_id(), systems[i].spec_type_id()) {
            } else {
                crate::topological_sort::lemma_reaches_monotone(
                    &g1,
                    &g2,
                    systems[i].spec_type_id(),
                    systems[j].spec_type_id(),
                );
            }
        }
    }

    /// Whether the writer-chain obligation concerns the triple.
    spec fn chain_obligation_applies(
        systems: Seq<SystemInfo>,
        i: int,
        w: int,
        j: int,
    ) -> bool {
        &&& 0 <= i < systems.len()
        &&& 0 <= w < systems[i].writes@.len()
        &&& i < j < systems.len()
        &&& systems[j].spec_writes().contains(systems[i].writes@[w])
        &&& systems[i].spec_type_id() != systems[j].spec_type_id()
    }

    /// The writer-chain obligation itself: the later writer depends on
    /// the earlier, or the earlier already depends on the later.
    spec fn chain_obligation(
        g: TopologicalGraph,
        systems: Seq<SystemInfo>,
        i: int,
        j: int,
    ) -> bool {
        g.edge(systems[j].spec_type_id(), systems[i].spec_type_id()) || g.reaches(
            systems[i].spec_type_id(),
            systems[j].spec_type_id(),
        )
    }

    spec fn lex_before(i: int, w: int, j: int, hi: int, hw: int, hj: int) -> bool {
        i < hi || (i == hi && w < hw) || (i == hi && w == hw && j < hj)
    }

    /// The chain obligations settled so far, in pass order.
    spec fn chain_done_upto(
        g: TopologicalGraph,
        systems: Seq<SystemInfo>,
        hi: int,
        hw: int,
        hj: int,
    ) -> bool {
        forall|i: int, w: int, j: int|
            Self::chain_obligation_applies(systems, i, w, j) && Self::lex_before(
                i,
                w,
                j,
                hi,
                hw,
                hj,
            ) ==> Self::chain_obligation(g, systems, i, j)
    }

    /// Rebuild the dependency graph from the admitted descriptors.
    pub fn refresh(&mut self)
        requires
            old(self).base_wf(),
        ensures
            final(self).wf(),
            final(self).admitted() == old(self).admitted(),
            final(self).spec_change_events() == old(self).spec_change_events(),
            final(self).spec_reader() == old(self).spec_reader(),
            final(self).graph_reflects(),
    {
        let ghost systems = self.systems@;
        let n = self.systems.len();
        self.graph.clear();
        let mut i: usize = 0;
        while i < n
            invariant
                n == self.systems@.len(),
                self.systems@ == systems,
                *self == (SystemRegistry { graph: self.graph, ..*old(self) }),
                old(self).base_wf(),
                self.graph.wf(),
                0 <= i <= n,
                self.graph.item_set() =~= Set::new(
                    |t: u64| exists|i2: int|
                        0 <= i2 < i && systems[i2].spec_type_id() == t,
                ),
                forall|a: u64, b: u64| !self.graph.edge(a, b),
            decreases n - i,
        {
            let tid = self.systems[i].system_type_id();
            let ghost g0 = self.graph;
            self.graph.add_item(tid);
            i = i + 1;
            proof {
                assert forall|a: u64, b: u64| !self.graph.edge(a, b) by {
                    assert(self.graph.deps_of(a) == g0.deps_of(a));
                    assert(!g0.edge(a, b));
                }
                assert(self.graph.item_set() =~= Set::new(
                    |t: u64| exists|i2: int|
                        0 <= i2 < i && systems[i2].spec_type_id() == t,
                )) by {
                    assert forall|t: u64|
                        Set::new(
                            |t2: u64| exists|i2: int|
                                0 <= i2 < i && systems[i2].spec_type_id() == t2,
                        ).contains(t) == self.graph.item_set().contains(t) by {
                        if exists|i2: int| 0 <= i2 < i && systems[i2].spec_type_id() == t {
                            let i2 = choose|i2: int|
                                0 <= i2 < i && systems[i2].spec_type_id() == t;
                            if i2 == i - 1 {
                            } else {
                                assert(exists|i3: int|
                                    0 <= i3 < i - 1 && systems[i3].spec_type_id() == t);
                            }
                        }
                    }
                };
            }
        }
        proof {
            assert(self.graph.item_set() == Set::new(
                |t: u64| exists|i2: int|
                    0 <= i2 < systems.len() && systems[i2].spec_type_id() == t,
            )) by {
                assert(self.graph.item_set() =~= Set::new(
                    |t: u64| exists|i2: int|
                        0 <= i2 < systems.len() && systems[i2].spec_type_id() == t,
                ));
            };
        }
        let ghost items0 = self.graph.item_set();
        // Reader edges: every writer depends on every reader-before-write
        // of the resource; every reader-after-write depends on the writer.
        let mut i: usize = 0;
        while i < n
            invariant
                n == self.systems@.len(),
                self.systems@ == systems,
                *self == (SystemRegistry { graph: self.graph, ..*old(self) }),
                old(self).base_wf(),
                self.graph.wf(),
                self.graph.item_set() == items0,
                forall|a: u64, b: u64| #[trigger] self.graph.edge(a, b) ==> justified_reaches(
                    systems,
                    a,
                    b,
                ),
                items0 == Set::new(
                    |t: u64| exists|i2: int|
                        0 <= i2 < systems.len() && systems[i2].spec_type_id() == t,
                ),
                0 <= i <= n,
                forall|i2: int, j: int, r: u64|
                    0 <= i2 < i && 0 <= j < n && #[trigger] systems[i2].spec_writes().contains(
                        r,
                    ) && #[trigger] systems[j].rbw().contains(r) && systems[i2].spec_type_id()
                        != systems[j].spec_type_id() ==> self.graph.edge(
                        systems[i2].spec_type_id(),
                        systems[j].spec_type_id(),
                    ),
                forall|i2: int, j: int, r: u64|
                    0 <= i2 < i && 0 <= j < n && #[trigger] systems[i2].spec_writes().contains(
                        r,
                    ) && #[trigger] systems[j].raw().contains(r) && systems[i2].spec_type_id()
                        != systems[j].spec_type_id() ==> self.graph.edge(
                        systems[j].spec_type_id(),
                        systems[i2].spec_type_id(),
                    ),
            decreases n - i,
        {
            let wlen = self.systems[i].writes.len();
            let mut w: usize = 0;
            while w < wlen
                invariant
                    n == self.systems@.len(),
                    self.systems@ == systems,
                    *self == (SystemRegistry { graph: self.graph, ..*old(self) }),
                    old(self).base_wf(),
                    self.graph.wf(),
                    self.graph.item_set() == items0,
                forall|a: u64, b: u64| #[trigger] self.graph.edge(a, b) ==> justified_reaches(
                    systems,
                    a,
                    b,
                ),
                    items0 == Set::new(
                    |t: u64| exists|i2: int|
                        0 <= i2 < systems.len() && systems[i2].spec_type_id() == t,
                ),
                    0 <= i < n,
                    wlen == systems[i as int].writes@.len(),
                    0 <= w <= wlen,
                    forall|i2: int, j: int, r: u64|
                        0 <= i2 < i && 0 <= j < n && #[trigger] systems[
                            i2].spec_writes().contains(r) && #[trigger] systems[
                            j].rbw().contains(r) && systems[i2].spec_type_id() != systems[
                            j].spec_type_id() ==> self.graph.edge(
                            systems[i2].spec_type_id(),
                            systems[j].spec_type_id(),
                        ),
                    forall|i2: int, j: int, r: u64|
                        0 <= i2 < i && 0 <= j < n && #[trigger] systems[
                            i2].spec_writes().contains(r) && #[trigger] systems[
                            j].raw().contains(r) && systems[i2].spec_type_id() != systems[
                            j].spec_type_id() ==> self.graph.edge(
                            systems[j].spec_type_id(),
                            systems[i2].spec_type_id(),
                        ),
                    forall|w2: int, j: int|
                        0 <= w2 < w && 0 <= j < n && #[trigger] systems[j].rbw().contains(
                            systems[i as int].writes@[w2],
                        ) && systems[i as int].spec_type_id() != systems[j].spec_type_id()
                            ==> self.graph.edge(
                            systems[i as int].spec_type_id(),
                            systems[j].spec_type_id(),
                        ),
                    forall|w2: int, j: int|
                        0 <= w2 < w && 0 <= j < n && #[trigger] systems[j].raw().contains(
                            systems[i as int].writes@[w2],
                        ) && systems[i as int].spec_type_id() != systems[j].spec_type_id()
                            ==> self.graph.edge(
                            systems[j].spec_type_id(),
                            systems[i as int].spec_type_id(),
                        ),
                decreases wlen - w,
            {
                let r = self.systems[i].writes[w];
                let ti = self.systems[i].system_type_id();
                proof {
                    assert(items0.contains(ti)) by {
                        assert(systems[i as int].spec_type_id() == ti);
                        assert(Set::new(
                            |t: u64| exists|i2: int|
                                0 <= i2 < systems.len() && systems[i2].spec_type_id() == t,
                        ).contains(ti));
                    };
                }
                let mut j: usize = 0;
                while j < n
                    invariant
                        n == self.systems@.len(),
                        self.systems@ == systems,
                        *self == (SystemRegistry { graph: self.graph, ..*old(self) }),
                        old(self).base_wf(),
                        self.graph.wf(),
                        self.graph.item_set() == items0,
                forall|a: u64, b: u64| #[trigger] self.graph.edge(a, b) ==> justified_reaches(
                    systems,
                    a,
                    b,
                ),
                        items0 == Set::new(
                    |t: u64| exists|i2: int|
                        0 <= i2 < systems.len() && systems[i2].spec_type_id() == t,
                ),
                        0 <= i < n,
                        0 <= w < wlen,
                        wlen == systems[i as int].writes@.len(),
                        r == systems[i as int].writes@[w as int],
                        ti == systems[i as int].spec_type_id(),
                        items0.contains(ti),
                        0 <= j <= n,
                        forall|i2: int, j2: int, r2: u64|
                            0 <= i2 < i && 0 <= j2 < n && #[trigger] systems[
                                i2].spec_writes().contains(r2) && #[trigger] systems[
                                j2].rbw().contains(r2) && systems[i2].spec_type_id() != systems[
                                j2].spec_type_id() ==> self.graph.edge(
                                systems[i2].spec_type_id(),
                                systems[j2].spec_type_id(),
                            ),
                        forall|i2: int, j2: int, r2: u64|
                            0 <= i2 < i && 0 <= j2 < n && #[trigger] systems[
                                i2].spec_writes().contains(r2) && #[trigger] systems[
                                j2].raw().contains(r2) && systems[i2].spec_type_id() != systems[
                                j2].spec_type_id() ==> self.graph.edge(
                                systems[j2].spec_type_id(),
                                systems[i2].spec_type_id(),
                            ),
                        forall|w2: int, j2: int|
                            0 <= w2 < w && 0 <= j2 < n && #[trigger] systems[j2].rbw().contains(
                                systems[i as int].writes@[w2],
                            ) && systems[i as int].spec_type_id() != systems[j2].spec_type_id()
                                ==> self.graph.edge(
                                systems[i as int].spec_type_id(),
                                systems[j2].spec_type_id(),
                            ),
                        forall|w2: int, j2: int|
                            0 <= w2 < w && 0 <= j2 < n && #[trigger] systems[j2].raw().contains(
                                systems[i as int].writes@[w2],
                            ) && systems[i as int].spec_type_id() != systems[j2].spec_type_id()
                                ==> self.graph.edge(
                                systems[j2].spec_type_id(),
                                systems[i as int].spec_type_id(),
                            ),
                        forall|j2: int|
                            0 <= j2 < j && #[trigger] systems[j2].rbw().contains(r) && ti
                                != systems[j2].spec_type_id() ==> self.graph.edge(
                                ti,
                                systems[j2].spec_type_id(),
                            ),
                        forall|j2: int|
                            0 <= j2 < j && #[trigger] systems[j2].raw().contains(r) && ti
                                != systems[j2].spec_type_id() ==> self.graph.edge(
                                systems[j2].spec_type_id(),
                                ti,
                            ),
                    decreases n - j,
                {
                    let tj = self.systems[j].system_type_id();
                    proof {
                        assert(items0.contains(tj)) by {
                            assert(systems[j as int].spec_type_id() == tj);
                            assert(Set::new(
                                |t: u64| exists|i2: int|
                                    0 <= i2 < systems.len() && systems[i2].spec_type_id() == t,
                            ).contains(tj));
                        };
                    }
                    let has_rbw = Self::list_contains(&self.systems[j].reads_before_write, r);
                    if has_rbw {
                        let ghost g0 = self.graph;
                        self.graph.add_dependency(ti, tj);
                        proof {
                            Self::lemma_edge_monotone_step(g0, self.graph, ti, tj);
                            assert(self.graph.item_set() =~= items0);
                            assert forall|a: u64, b: u64|
                                #[trigger] self.graph.edge(a, b) implies justified_reaches(
                                systems,
                                a,
                                b,
                            ) by {
                                if ti == tj {
                                    assert(self.graph == g0);
                                    assert(g0.edge(a, b));
                                } else if a == ti && b == tj {
                                    assert(systems[i as int].writes@.contains(r));
                                    assert(systems[i as int].spec_writes().contains(r));
                                    assert(systems[j as int].rbw().contains(r));
                                    assert(reader_pair(systems, ti, tj));
                                    lemma_justified_single(systems, ti, tj);
                                } else if a == ti {
                                    assert(self.graph.deps_of(ti) == g0.deps_of(ti).insert(
                                        tj,
                                    ));
                                    assert(g0.deps_of(ti).contains(b));
                                    assert(g0.edge(a, b));
                                } else {
                                    assert(self.graph.deps_of(a) == g0.deps_of(a));
                                    assert(g0.edge(a, b));
                                }
                            }
                        }
                    }
                    let has_raw = Self::list_contains(&self.systems[j].reads_after_write, r);
                    if has_raw {
                        let ghost g0 = self.graph;
                        self.graph.add_dependency(tj, ti);
                        proof {
                            Self::lemma_edge_monotone_step(g0, self.graph, tj, ti);
                            assert(self.graph.item_set() =~= items0);
                            assert forall|a: u64, b: u64|
                                #[trigger] self.graph.edge(a, b) implies justified_reaches(
                                systems,
                                a,
                                b,
                            ) by {
                                if ti == tj {
                                    assert(self.graph == g0);
                                    assert(g0.edge(a, b));
                                } else if a == tj && b == ti {
                                    assert(systems[i as int].writes@.contains(r));
                                    assert(systems[i as int].spec_writes().contains(r));
                                    assert(systems[j as int].raw().contains(r));
                                    assert(reader_pair(systems, tj, ti));
                                    lemma_justified_single(systems, tj, ti);
                                } else if a == tj {
                                    assert(self.graph.deps_of(tj) == g0.deps_of(tj).insert(
                                        ti,
                                    ));
                                    assert(g0.deps_of(tj).contains(b));
                                    assert(g0.edge(a, b));
                                } else {
                                    assert(self.graph.deps_of(a) == g0.deps_of(a));
                                    assert(g0.edge(a, b));
                                }
                            }
                        }
                    }
                    j = j + 1;
                }
                w = w + 1;
                proof {
                    assert forall|w2: int, j2: int|
                        0 <= w2 < w && 0 <= j2 < n && #[trigger] systems[j2].rbw().contains(
                            systems[i as int].writes@[w2],
                        ) && systems[i as int].spec_type_id() != systems[
                        j2].spec_type_id() implies self.graph.edge(
                        systems[i as int].spec_type_id(),
                        systems[j2].spec_type_id(),
                    ) by {
                        if w2 == w - 1 {
                            assert(systems[i as int].writes@[w2] == r);
                        }
                    }
                    assert forall|w2: int, j2: int|
                        0 <= w2 < w && 0 <= j2 < n && #[trigger] systems[j2].raw().contains(
                            systems[i as int].writes@[w2],
                        ) && systems[i as int].spec_type_id() != systems[
                        j2].spec_type_id() implies self.graph.edge(
                        systems[j2].spec_type_id(),
                        systems[i as int].spec_type_id(),
                    ) by {
                        if w2 == w - 1 {
                            assert(systems[i as int].writes@[w2] == r);
                            assert(systems[j2].raw().contains(r));
                        }
                    }
                }
            }
            i = i + 1;
            proof {
                assert forall|i2: int, j: int, r: u64|
                    0 <= i2 < i && 0 <= j < n && #[trigger] systems[i2].spec_writes().contains(
                        r,
                    ) && #[trigger] systems[j].rbw().contains(r) && systems[i2].spec_type_id()
                        != systems[j].spec_type_id() implies self.graph.edge(
                    systems[i2].spec_type_id(),
                    systems[j].spec_type_id(),
                ) by {
                    if i2 == i - 1 {
                        let w2 = choose|w2: int|
                            0 <= w2 < systems[i2].writes@.len() && systems[i2].writes@[w2] == r;
                        assert(systems[j].rbw().contains(systems[i2].writes@[w2]));
                    }
                }
                assert forall|i2: int, j: int, r: u64|
                    0 <= i2 < i && 0 <= j < n && #[trigger] systems[i2].spec_writes().contains(
                        r,
                    ) && #[trigger] systems[j].raw().contains(r) && systems[i2].spec_type_id()
                        != systems[j].spec_type_id() implies self.graph.edge(
                    systems[j].spec_type_id(),
                    systems[i2].spec_type_id(),
                ) by {
                    if i2 == i - 1 {
                        let w2 = choose|w2: int|
                            0 <= w2 < systems[i2].writes@.len() && systems[i2].writes@[w2] == r;
                        assert(systems[j].raw().contains(systems[i2].writes@[w2]));
                    }
                }
            }
        }
        proof {
            assert(Self::chain_done_upto(self.graph, systems, 0, 0, 0));
        }
        let ghost rbw_edges_done = self.graph;
        // Writer chain: pairwise order among writers of a resource, the
        // earlier-admitted writer first unless already inverted.
        let mut i: usize = 0;
        while i < n
            invariant
                n == self.systems@.len(),
                self.systems@ == systems,
                *self == (SystemRegistry { graph: self.graph, ..*old(self) }),
                old(self).base_wf(),
                self.graph.wf(),
                self.graph.item_set() == items0,
                forall|a: u64, b: u64| #[trigger] self.graph.edge(a, b) ==> justified_reaches(
                    systems,
                    a,
                    b,
                ),
                items0 == Set::new(
                    |t: u64| exists|i2: int|
                        0 <= i2 < systems.len() && systems[i2].spec_type_id() == t,
                ),
                0 <= i <= n,
                forall|x: u64, y: u64| #[trigger] rbw_edges_done.edge(x, y) ==> self.graph.edge(
                    x,
                    y,
                ),
                Self::chain_done_upto(self.graph, systems, i as int, 0, 0),
            decreases n - i,
        {
            let wlen = self.systems[i].writes.len();
            let mut w: usize = 0;
            while w < wlen
                invariant
                    n == self.systems@.len(),
                    self.systems@ == systems,
                    *self == (SystemRegistry { graph: self.graph, ..*old(self) }),
                    old(self).base_wf(),
                    self.graph.wf(),
                    self.graph.item_set() == items0,
                forall|a: u64, b: u64| #[trigger] self.graph.edge(a, b) ==> justified_reaches(
                    systems,
                    a,
                    b,
                ),
                    items0 == Set::new(
                    |t: u64| exists|i2: int|
                        0 <= i2 < systems.len() && systems[i2].spec_type_id() == t,
                ),
                    0 <= i < n,
                    wlen == systems[i as int].writes@.len(),
                    0 <= w <= wlen,
                    forall|x: u64, y: u64| #[trigger] rbw_edges_done.edge(x, y)
                        ==> self.graph.edge(x, y),
                    Self::chain_done_upto(self.graph, systems, i as int, w as int, 0),
                decreases wlen - w,
            {
                let r = self.systems[i].writes[w];
                let ti = self.systems[i].system_type_id();
                let mut j: usize = 0;
                while j < n
                    invariant
                        n == self.systems@.len(),
                        self.systems@ == systems,
                        *self == (SystemRegistry { graph: self.graph, ..*old(self) }),
                        old(self).base_wf(),
                        self.graph.wf(),
                        self.graph.item_set() == items0,
                forall|a: u64, b: u64| #[trigger] self.graph.edge(a, b) ==> justified_reaches(
                    systems,
                    a,
                    b,
                ),
                        items0 == Set::new(
                    |t: u64| exists|i2: int|
                        0 <= i2 < systems.len() && systems[i2].spec_type_id() == t,
                ),
                        0 <= i < n,
                        0 <= w < wlen,
                        wlen == systems[i as int].writes@.len(),
                        r == systems[i as int].writes@[w as int],
                        ti == systems[i as int].spec_type_id(),
                        0 <= j <= n,
                        forall|x: u64, y: u64| #[trigger] rbw_edges_done.edge(x, y)
                            ==> self.graph.edge(x, y),
                        Self::chain_done_upto(self.graph, systems, i as int, w as int, j as int),
                    decreases n - j,
                {
                    let tj = self.systems[j].system_type_id();
                    proof {
                        assert(items0.contains(tj)) by {
                            assert(systems[j as int].spec_type_id() == tj);
                            assert(Set::new(
                                |t: u64| exists|i2: int|
                                    0 <= i2 < systems.len() && systems[i2].spec_type_id() == t,
                            ).contains(tj));
                        };
                        assert(items0.contains(ti)) by {
                            assert(systems[i as int].spec_type_id() == ti);
                            assert(Set::new(
                                |t: u64| exists|i2: int|
                                    0 <= i2 < systems.len() && systems[i2].spec_type_id() == t,
                            ).contains(ti));
                        };
                    }
                    let has_write = Self::list_contains(&self.systems[j].writes, r);
                    if has_write {
                        let ghost g0 = self.graph;
                        self.graph.add_dependency_if_non_inverse(tj, ti);
                        proof {
                            assert forall|x: u64, y: u64| #[trigger] g0.edge(x, y) implies self
                                .graph.edge(x, y) by {
                                if x == tj {
                                    assert(self.graph.deps_of(x).contains(y));
                                } else {
                                    assert(self.graph.deps_of(x) == g0.deps_of(x));
                                }
                            }
                            assert(self.graph.item_set() =~= items0);
                            assert forall|a: u64, b: u64|
                                #[trigger] self.graph.edge(a, b) implies justified_reaches(
                                systems,
                                a,
                                b,
                            ) by {
                                if tj == ti || g0.reaches(ti, tj) {
                                    assert(self.graph == g0);
                                    assert(g0.edge(a, b));
                                } else if a == tj && b == ti {
                                    assert(systems[i as int].writes@.contains(r));
                                    assert(systems[i as int].spec_writes().contains(r));
                                    assert(systems[j as int].spec_writes().contains(r));
                                    if (i as int) < j as int {
                                        assert(chain_pair(systems, tj, ti));
                                        lemma_justified_single(systems, tj, ti);
                                    } else {
                                        assert((j as int) < i as int) by {
                                            if j == i {
                                                assert(tj == ti);
                                            }
                                        };
                                        let w2 = choose|w2: int|
                                            0 <= w2 < systems[j as int].writes@.len() && systems[
                                                j as int].writes@[w2] == r;
                                        assert(Self::chain_obligation_applies(
                                            systems,
                                            j as int,
                                            w2,
                                            i as int,
                                        ));
                                        assert(Self::lex_before(
                                            j as int,
                                            w2,
                                            i as int,
                                            i as int,
                                            w as int,
                                            j as int,
                                        ));
                                        assert(Self::chain_obligation(
                                            g0,
                                            systems,
                                            j as int,
                                            i as int,
                                        ));
                                        if g0.edge(ti, tj) {
                                            crate::topological_sort::lemma_reaches_prepend(
                                                &g0,
                                                ti,
                                                tj,
                                                tj,
                                            );
                                            assert(false);
                                        }
                                        assert(g0.reaches(tj, ti));
                                        lemma_reach_justified(g0, systems, tj, ti);
                                    }
                                } else if a == tj {
                                    assert(self.graph.deps_of(tj) == g0.deps_of(tj).insert(
                                        ti,
                                    ));
                                    assert(g0.deps_of(tj).contains(b));
                                    assert(g0.edge(a, b));
                                } else {
                                    assert(self.graph.deps_of(a) == g0.deps_of(a));
                                    assert(g0.edge(a, b));
                                }
                            }
                            Self::lemma_keep(g0, self.graph, systems, i as int, w as int, j as int);
                            if (i as int) < j as int && systems[j as int].spec_writes().contains(
                                r,
                            ) && ti != tj {
                                if g0.reaches(ti, tj) {
                                    crate::topological_sort::lemma_reaches_monotone(
                                        &g0,
                                        &self.graph,
                                        ti,
                                        tj,
                                    );
                                } else {
                                    assert(self.graph.edge(tj, ti));
                                }
                                assert(Self::chain_obligation(self.graph, systems, i as int, j as int));
                            }
                        }
                    }
                    j = j + 1;
                    proof {
                        assert forall|i2: int, w2: int, j2: int|
                            Self::chain_obligation_applies(systems, i2, w2, j2)
                                && Self::lex_before(
                                i2,
                                w2,
                                j2,
                                i as int,
                                w as int,
                                j as int,
                            ) implies Self::chain_obligation(self.graph, systems, i2, j2) by {
                            if i2 == i as int && w2 == w as int && j2 == j - 1 {
                                assert(systems[j2].spec_writes().contains(r));
                            }
                        }
                    }
                }
                w = w + 1;
                proof {
                    assert forall|i2: int, w2: int, j2: int|
                        Self::chain_obligation_applies(systems, i2, w2, j2) && Self::lex_before(
                            i2,
                            w2,
                            j2,
                            i as int,
                            w as int,
                            0,
                        ) implies Self::chain_obligation(self.graph, systems, i2, j2) by {
                        assert(Self::lex_before(i2, w2, j2, i as int, w - 1, n as int));
                    }
                }
            }
            i = i + 1;
            proof {
                assert forall|i2: int, w2: int, j2: int|
                    Self::chain_obligation_applies(systems, i2, w2, j2) && Self::lex_before(
                        i2,
                        w2,
                        j2,
                        i as int,
                        0,
                        0,
                    ) implies Self::chain_obligation(self.graph, systems, i2, j2) by {
                    assert(Self::lex_before(i2, w2, j2, i - 1, wlen as int, 0) || (i2 == i - 1
                        && Self::lex_before(i2, w2, j2, i - 1, wlen as int, n as int)));
                }
            }
        }
        proof {
            assert(self.graph_reflects()) by {
                assert forall|i2: int, j2: int, r: u64|
                    0 <= i2 < j2 < systems.len() && #[trigger] systems[
                        i2].spec_writes().contains(r) && #[trigger] systems[
                        j2].spec_writes().contains(r) && systems[i2].spec_type_id() != systems[
                        j2].spec_type_id() implies self.graph.edge(
                    systems[j2].spec_type_id(),
                    systems[i2].spec_type_id(),
                ) || self.graph.reaches(
                    systems[i2].spec_type_id(),
                    systems[j2].spec_type_id(),
                ) by {
                    let w2 = choose|w2: int|
                        0 <= w2 < systems[i2].writes@.len() && systems[i2].writes@[w2] == r;
                    assert(Self::chain_obligation_applies(systems, i2, w2, j2));
                    assert(Self::lex_before(i2, w2, j2, n as int, 0, 0));
                }
                assert forall|i2: int, j2: int, r: u64|
                    0 <= i2 < systems.len() && 0 <= j2 < systems.len() && #[trigger] systems[
                        i2].spec_writes().contains(r) && #[trigger] systems[j2].rbw().contains(
                        r,
                    ) && systems[i2].spec_type_id() != systems[j2].spec_type_id() implies self
                    .graph.edge(
                    systems[i2].spec_type_id(),
                    systems[j2].spec_type_id(),
                ) by {
                    assert(rbw_edges_done.edge(
                        systems[i2].spec_type_id(),
                        systems[j2].spec_type_id(),
                    ));
                }
                assert forall|i2: int, j2: int, r: u64|
                    0 <= i2 < systems.len() && 0 <= j2 < systems.len() && #[trigger] systems[
                        i2].spec_writes().contains(r) && #[trigger] systems[j2].raw().contains(
                        r,
                    ) && systems[i2].spec_type_id() != systems[j2].spec_type_id() implies self
                    .graph.edge(
                    systems[j2].spec_type_id(),
                    systems[i2].spec_type_id(),
                ) by {
                    assert(rbw_edges_done.edge(
                        systems[j2].spec_type_id(),
                        systems[i2].spec_type_id(),
                    ));
                }
            };
        }
    }

    /// After `add_dependency(a, b)`, every old edge survives and the new
    /// one holds when the ends differ.
    proof fn lemma_edge_monotone_step(g0: TopologicalGraph, g1: TopologicalGraph, a: u64, b: u64)
        requires
            a == b ==> g1 == g0,
            a != b ==> {
                &&& g1.item_set() == g0.item_set().insert(b).insert(a)
                &&& g1.deps_of(a) == g0.deps_of(a).insert(b)
                &&& forall|x: u64| x != a ==> g1.deps_of(x) == g0.deps_of(x)
            },
        ensures
            forall|x: u64, y: u64| #[trigger] g0.edge(x, y) ==> g1.edge(x, y),
            a != b ==> g1.edge(a, b),
    {
        if a != b {
            assert forall|x: u64, y: u64| #[trigger] g0.edge(x, y) implies g1.edge(x, y) by {
                if x == a {
                    assert(g1.deps_of(x).contains(y));
                } else {
                    assert(g1.deps_of(x) == g0.deps_of(x));
                }
            }
        }
    }


    /// Index the admitted systems under one resource: the three buckets
    /// the dependency edges are drawn between.
    pub fn resource_info(&self, resource: u64) -> (r: ResourceInfo)
        requires
            self.wf(),
        ensures
            forall|t: u64|
                #[trigger] r.read_before_write_systems@.contains(t) <==> exists|i: int|
                    0 <= i < self.admitted().len() && self.admitted()[i].spec_type_id() == t
                        && self.admitted()[i].rbw().contains(resource),
            forall|t: u64|
                #[trigger] r.write_systems@.contains(t) <==> exists|i: int|
                    0 <= i < self.admitted().len() && self.admitted()[i].spec_type_id() == t
                        && self.admitted()[i].spec_writes().contains(resource),
            forall|t: u64|
                #[trigger] r.read_after_write_systems@.contains(t) <==> exists|i: int|
                    0 <= i < self.admitted().len() && self.admitted()[i].spec_type_id() == t
                        && self.admitted()[i].raw().contains(resource),
    {
        let mut read_before_write_systems: Vec<u64> = Vec::new();
        let mut write_systems: Vec<u64> = Vec::new();
        let mut read_after_write_systems: Vec<u64> = Vec::new();
        let n = self.systems.len();
        let mut i: usize = 0;
        while i < n
            invariant
                self.wf(),
                n == self.systems@.len(),
                0 <= i <= n,
                forall|t: u64|
                    #[trigger] read_before_write_systems@.contains(t) <==> exists|i2: int|
                        0 <= i2 < i && self.admitted()[i2].spec_type_id() == t
                            && self.admitted()[i2].rbw().contains(resource),
                forall|t: u64|
                    #[trigger] write_systems@.contains(t) <==> exists|i2: int|
                        0 <= i2 < i && self.admitted()[i2].spec_type_id() == t
                            && self.admitted()[i2].spec_writes().contains(resource),
                forall|t: u64|
                    #[trigger] read_after_write_systems@.contains(t) <==> exists|i2: int|
                        0 <= i2 < i && self.admitted()[i2].spec_type_id() == t
                            && self.admitted()[i2].raw().contains(resource),
            decreases n - i,
        {
            let tid = self.systems[i].system_type_id();
            let ghost rbw0 = read_before_write_systems@;
            let ghost w0 = write_systems@;
            let ghost raw0 = read_after_write_systems@;
            if Self::list_contains(&self.systems[i].reads_before_write, resource) {
                read_before_write_systems.push(tid);
                proof {
                    Self::lemma_bucket_extended(
                        rbw0,
                        read_before_write_systems@,
                        tid,
                        i as int,
                    );
                }
            }
            if Self::list_contains(&self.systems[i].writes, resource) {
                write_systems.push(tid);
                proof {
                    Self::lemma_bucket_extended(w0, write_systems@, tid, i as int);
                }
            }
            if Self::list_contains(&self.systems[i].reads_after_write, resource) {
                read_after_write_systems.push(tid);
                proof {
                    Self::lemma_bucket_extended(
                        raw0,
                        read_after_write_systems@,
                        tid,
                        i as int,
                    );
                }
            }
            i = i + 1;
            proof {
                assert forall|t: u64|
                    #[trigger] read_before_write_systems@.contains(t) <==> exists|i2: int|
                        0 <= i2 < i && self.admitted()[i2].spec_type_id() == t && self
                            .admitted()[i2].rbw().contains(resource) by {
                    if read_before_write_systems@.contains(t) {
                        if rbw0.contains(t) {
                            let i2 = choose|i2: int|
                                0 <= i2 < i - 1 && self.admitted()[i2].spec_type_id() == t
                                    && self.admitted()[i2].rbw().contains(resource);
                            assert(0 <= i2 < i && self.admitted()[i2].spec_type_id() == t
                                && self.admitted()[i2].rbw().contains(resource));
                        } else {
                            assert(t == tid);
                            assert(self.admitted()[i - 1].spec_type_id() == t && self
                                .admitted()[i - 1].rbw().contains(resource));
                        }
                    }
                    if exists|i2: int|
                        0 <= i2 < i && self.admitted()[i2].spec_type_id() == t && self
                            .admitted()[i2].rbw().contains(resource) {
                        let i2 = choose|i2: int|
                            0 <= i2 < i && self.admitted()[i2].spec_type_id() == t && self
                                .admitted()[i2].rbw().contains(resource);
                        if i2 < i - 1 {
                            assert(rbw0.contains(t));
                        }
                    }
                }
                assert forall|t: u64|
                    #[trigger] write_systems@.contains(t) <==> exists|i2: int|
                        0 <= i2 < i && self.admitted()[i2].spec_type_id() == t && self
                            .admitted()[i2].spec_writes().contains(resource) by {
                    if write_systems@.contains(t) {
                        if w0.contains(t) {
                            let i2 = choose|i2: int|
                                0 <= i2 < i - 1 && self.admitted()[i2].spec_type_id() == t
                                    && self.admitted()[i2].spec_writes().contains(resource);
                            assert(0 <= i2 < i && self.admitted()[i2].spec_type_id() == t
                                && self.admitted()[i2].spec_writes().contains(resource));
                        } else {
                            assert(t == tid);
                            assert(self.admitted()[i - 1].spec_type_id() == t && self
                                .admitted()[i - 1].spec_writes().contains(resource));
                        }
                    }
                    if exists|i2: int|
                        0 <= i2 < i && self.admitted()[i2].spec_type_id() == t && self
                            .admitted()[i2].spec_writes().contains(resource) {
                        let i2 = choose|i2: int|
                            0 <= i2 < i && self.admitted()[i2].spec_type_id() == t && self
                                .admitted()[i2].spec_writes().contains(resource);
                        if i2 < i - 1 {
                            assert(w0.contains(t));
                        }
                    }
                }
                assert forall|t: u64|
                    #[trigger] read_after_write_systems@.contains(t) <==> exists|i2: int|
                        0 <= i2 < i && self.admitted()[i2].spec_type_id() == t && self
                            .admitted()[i2].raw().contains(resource) by {
                    if read_after_write_systems@.contains(t) {
                        if raw0.contains(t) {
                            let i2 = choose|i2: int|
                                0 <= i2 < i - 1 && self.admitted()[i2].spec_type_id() == t
                                    && self.admitted()[i2].raw().contains(resource);
                            assert(0 <= i2 < i && self.admitted()[i2].spec_type_id() == t
                                && self.admitted()[i2].raw().contains(resource));
                        } else {
                            assert(t == tid);
                            assert(self.admitted()[i - 1].spec_type_id() == t && self
                                .admitted()[i - 1].raw().contains(resource));
                        }
                    }
                    if exists|i2: int|
                        0 <= i2 < i && self.admitted()[i2].spec_type_id() == t && self
                            .admitted()[i2].raw().contains(resource) {
                        let i2 = choose|i2: int|
                            0 <= i2 < i && self.admitted()[i2].spec_type_id() == t && self
                                .admitted()[i2].raw().contains(resource);
                        if i2 < i - 1 {
                            assert(raw0.contains(t));
                        }
                    }
                }
            }
        }
        ResourceInfo { read_before_write_systems, write_systems, read_after_write_systems }
    }

    /// A pushed identity is in the new bucket, and everything else is
    /// carried over.
    proof fn lemma_bucket_extended(before: Seq<u64>, after: Seq<u64>, tid: u64, i: int)
        requires
            after == before.push(tid),
        ensures
            forall|t: u64|
                #[trigger] after.contains(t) <==> (before.contains(t) || t == tid),
    {
        assert forall|t: u64|
            #[trigger] after.contains(t) <==> (before.contains(t) || t == tid) by {
            if after.contains(t) {
                let k = choose|k: int| 0 <= k < after.len() && after[k] == t;
                if k < before.len() {
                    assert(before[k] == t);
                }
            }
            if before.contains(t) {
                let k = choose|k: int| 0 <= k < before.len() && before[k] == t;
                assert(after[k] == t);
            }
            if t == tid {
                assert(after[after.len() - 1] == t);
            }
        }
    }


    /// A consistent snapshot: rebuild the graph if the system set changed
    /// since the last build, then hand out a topological walk of it.
    pub fn systems(&mut self) -> (r: Visitor)
        requires
            old(self).wf(),
        ensures
            final(self).wf(),
            final(self).admitted() == old(self).admitted(),
            final(self).graph_reflects(),
            r.wf(),
            r.order().no_duplicates(),
            r.spec_pos() == 0,
            !r.spec_reported(),
            r.respects(final(self).spec_graph()),
            !r.has_cycle() ==> r.order().to_set() == final(self).spec_graph().item_set(),
            r.has_cycle() ==> exists|s: Set<u64>|
                crate::topological_sort::stuck_set(final(self).spec_graph(), s),
            final(self).spec_change_events().reader_count() == old(self).spec_change_events().reader_count(),
            final(self).spec_change_events().stream_end() == old(self).spec_change_events().stream_end(),
            final(self).spec_reader() == old(self).spec_reader(),
            forall|i: int|
                0 <= i < old(self).spec_change_events().reader_count() && i != old(self).spec_reader().spec_index() ==> #[trigger] final(self).spec_change_events().reader_live(i) == old(self).spec_change_events()
                    .reader_live(i) && final(self).spec_change_events().pending(i) == old(self).spec_change_events().pending(i),
    {
        proof {
            self.system_changed_events.lemma_reader_live_in_range(
                self.system_changed_reader.spec_index(),
            );
        }
        let any = self.system_changed_events.read_any(&self.system_changed_reader);
        proof {
            assert(self.base_wf());
        }
        if any {
            self.refresh();
        }
        proof {
            assert(self.wf());
            assert(self.graph_reflects());
        }
        self.graph.visit()
    }

    /// How many descriptors are admitted.
    pub fn system_count(&self) -> (r: usize)
        ensures
            r == self.admitted().len(),
    {
        self.systems.len()
    }

    /// The admitted descriptor at a position.
    pub fn system_at(&self, i: usize) -> (r: &SystemInfo)
        requires
            0 <= i < self.admitted().len(),
        ensures
            *r == self.admitted()[i as int],
    {
        &self.systems[i]
    }

    /// The admitted descriptor with the given type identity, if any.
    pub fn info_by_type_id(&self, type_id: u64) -> (r: Option<&SystemInfo>)
        requires
            self.wf(),
        ensures
            r is Some <==> exists|i: int|
                0 <= i < self.admitted().len() && self.admitted()[i].spec_type_id() == type_id,
            r matches Some(v) ==> exists|i: int|
                0 <= i < self.admitted().len() && self.admitted()[i] == *v
                    && v.spec_type_id() == type_id,
    {
        match self.find_system(type_id) {
            Some(i) => {
                proof {
                    assert(self.admitted()[i as int].spec_type_id() == type_id);
                }
                Some(&self.systems[i])
            },
            None => None,
        }
    }

    /// The direct dependencies the graph records for a system.
    pub fn dependencies_of(&self, type_id: u64) -> (r: Vec<u64>)
        requires
            self.wf(),
        ensures
            r@.to_set() == self.spec_graph().deps_of(type_id),
            forall|k: int|
                0 <= k < r@.len() ==> self.spec_graph().item_set().contains(#[trigger] r@[k]),
    {
        self.graph.dependencies_of(type_id)
    }

    /// Register a reader on the system-change channel, so an embedder's
    /// scheduler can watch for plan-affecting changes.
    pub fn register_change_reader(&mut self) -> (r: ReaderHandle)
        requires
            old(self).wf(),
        ensures
            final(self).wf(),
            final(self).admitted() == old(self).admitted(),
            final(self).spec_graph() == old(self).spec_graph(),
            0 <= r.spec_index() < final(self).spec_change_events().reader_count(),
            !old(self).spec_change_events().reader_live(r.spec_index()),
            final(self).spec_change_events().reader_live(r.spec_index()),
            final(self).spec_change_events().pending(r.spec_index()) == Seq::<()>::empty(),
            r.spec_index() != final(self).spec_reader().spec_index(),
            final(self).spec_reader() == old(self).spec_reader(),
    {
        proof {
            self.system_changed_events.lemma_reader_live_in_range(
                self.system_changed_reader.spec_index(),
            );
        }
        let r = self.system_changed_events.register();
        proof {
            assert(self.system_changed_events.reader_live(
                self.system_changed_reader.spec_index(),
            ) == old(self).system_changed_events.reader_live(
                old(self).system_changed_reader.spec_index(),
            ));
            assert(self.system_changed_events.pending(
                self.system_changed_reader.spec_index(),
            ) == old(self).system_changed_events.pending(
                self.system_changed_reader.spec_index(),
            ));
        }
        r
    }

    /// Whether the system set changed since this reader last asked; the
    /// reader's cursor advances either way.
    pub fn changes_read_any(&mut self, reader: &ReaderHandle) -> (r: bool)
        requires
            old(self).wf(),
            old(self).spec_change_events().reader_live(reader.spec_index()),
            reader.spec_index() != old(self).spec_reader().spec_index(),
        ensures
            final(self).wf(),
            final(self).admitted() == old(self).admitted(),
            final(self).spec_graph() == old(self).spec_graph(),
            r == (old(self).spec_change_events().pending(reader.spec_index()).len() > 0),
            final(self).spec_change_events().pending(reader.spec_index()) == Seq::<()>::empty(),
            final(self).spec_change_events().reader_live(reader.spec_index()),
            final(self).spec_reader() == old(self).spec_reader(),
            final(self).spec_change_events().reader_count() == old(self).spec_change_events().reader_count(),
    {
        proof {
            self.system_changed_events.lemma_reader_live_in_range(
                self.system_changed_reader.spec_index(),
            );
        }
        let r = self.system_changed_events.read_any(reader);
        proof {
            assert(self.system_changed_events.reader_live(
                self.system_changed_reader.spec_index(),
            ) == old(self).system_changed_events.reader_live(
                old(self).system_changed_reader.spec_index(),
            ));
            assert(self.system_changed_events.pending(
                self.system_changed_reader.spec_index(),
            ) == old(self).system_changed_events.pending(
                self.system_changed_reader.spec_index(),
            ));
        }
        r
    }
}

} // verus!

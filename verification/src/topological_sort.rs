//! A dependency graph over integer-identified items, with reachability
//! queries and a topological walk.
//!
//! An edge `a -> b` records that `a` depends on `b`, so a topological walk
//! emits `b` before `a`. [`TopologicalGraph::add_dependency_if_non_inverse`]
//! refuses an edge whose reverse is already implied, which is how callers
//! keep the graph acyclic while normalizing writer chains.

use vstd::prelude::*;

verus! {

/// The error a [`Visitor`] reports when the graph cannot be linearized.
#[derive(Copy, Clone, PartialEq, Eq, Structural, Debug)]
pub enum SortError {
    CircularDependency,
}

pub struct TopologicalGraph {
    items: Vec<u64>,
    deps: Vec<Vec<u64>>,
}

impl TopologicalGraph {
    /// The items added so far.
    pub closed spec fn item_set(&self) -> Set<u64> {
        self.items@.to_set()
    }

    /// The index an item sits at.
    pub closed spec fn idx(&self, x: u64) -> int {
        self.items@.index_of(x)
    }

    /// The direct dependencies of an item.
    pub closed spec fn deps_of(&self, x: u64) -> Set<u64> {
        if self.item_set().contains(x) {
            self.deps@[self.idx(x)]@.to_set()
        } else {
            Set::empty()
        }
    }

    /// A direct dependency edge: `a` depends on `b`.
    pub open spec fn edge(&self, a: u64, b: u64) -> bool {
        self.deps_of(a).contains(b)
    }

    /// A dependency chain of one or more edges.
    pub open spec fn is_path(&self, p: Seq<u64>) -> bool {
        &&& p.len() >= 2
        &&& forall|k: int| 0 <= k < p.len() - 1 ==> self.edge(#[trigger] p[k], p[k + 1])
    }

    /// `a` depends on `b` through one or more edges.
    pub open spec fn reaches(&self, a: u64, b: u64) -> bool {
        exists|p: Seq<u64>|
            self.is_path(p) && p.first() == a && p.last() == b
    }

    pub closed spec fn wf(&self) -> bool {
        &&& self.items@.no_duplicates()
        &&& self.deps@.len() == self.items@.len()
        &&& forall|i: int, k: int|
            0 <= i < self.deps@.len() && 0 <= k < self.deps@[i]@.len() ==> self.items@.contains(
                #[trigger] self.deps@[i]@[k],
            )
    }

    pub fn new() -> (r: Self)
        ensures
            r.wf(),
            r.item_set() == Set::<u64>::empty(),
            forall|a: u64, b: u64| !r.edge(a, b),
    {
        let r = TopologicalGraph { items: Vec::new(), deps: Vec::new() };
        proof {
            assert(r.item_set() =~= Set::<u64>::empty());
        }
        r
    }

    /// Forget every item and edge.
    pub fn clear(&mut self)
        ensures
            final(self).wf(),
            final(self).item_set() == Set::<u64>::empty(),
            forall|a: u64, b: u64| !final(self).edge(a, b),
    {
        self.items.clear();
        self.deps.clear();
        proof {
            assert(self.item_set() =~= Set::<u64>::empty());
        }
    }

    /// Whether the item was added.
    pub fn contains_item(&self, x: u64) -> (r: bool)
        requires
            self.wf(),
        ensures
            r == self.item_set().contains(x),
    {
        let mut i: usize = 0;
        while i < self.items.len()
            invariant
                0 <= i <= self.items@.len(),
                forall|j: int| 0 <= j < i ==> self.items@[j] != x,
            decreases self.items@.len() - i,
        {
            if self.items[i] == x {
                return true;
            }
            i = i + 1;
        }
        proof {
            if self.item_set().contains(x) {
                let j = choose|j: int| 0 <= j < self.items@.len() && self.items@[j] == x;
                assert(self.items@[j] == x);
            }
        }
        false
    }

    /// The position of an item, when present.
    fn find_item(&self, x: u64) -> (r: Option<usize>)
        requires
            self.wf(),
        ensures
            r is Some <==> self.item_set().contains(x),
            r matches Some(i) ==> 0 <= i < self.items@.len() && self.items@[i as int] == x && i
                == self.idx(x),
    {
        let mut i: usize = 0;
        while i < self.items.len()
            invariant
                self.wf(),
                0 <= i <= self.items@.len(),
                forall|j: int| 0 <= j < i ==> self.items@[j] != x,
            decreases self.items@.len() - i,
        {
            if self.items[i] == x {
                proof {
                    self.lemma_idx(i as int);
                }
                return Some(i);
            }
            i = i + 1;
        }
        proof {
            if self.item_set().contains(x) {
                let j = choose|j: int| 0 <= j < self.items@.len() && self.items@[j] == x;
                assert(self.items@[j] == x);
            }
        }
        None
    }

    /// Add an item with no dependencies; adding an existing item changes
    /// nothing.
    pub fn add_item(&mut self, item: u64)
        requires
            old(self).wf(),
        ensures
            final(self).wf(),
            final(self).item_set() == old(self).item_set().insert(item),
            forall|x: u64| final(self).deps_of(x) == old(self).deps_of(x),
    {
        let found = self.find_item(item);
        if found.is_none() {
            let ghost pre = *self;
            self.items.push(item);
            self.deps.push(Vec::new());
            proof {
                Self::lemma_push_fresh(pre.items@, item);
                assert(self.item_set() =~= pre.item_set().insert(item));
                assert(self.wf()) by {
                    assert forall|i: int, k: int|
                        0 <= i < self.deps@.len() && 0 <= k < self.deps@[i]@.len() implies self
                        .items@.contains(#[trigger] self.deps@[i]@[k]) by {
                        assert(i < pre.deps@.len());
                        assert(self.deps@[i]@ == pre.deps@[i]@);
                        assert(pre.items@.contains(pre.deps@[i]@[k]));
                        let j = choose|j: int|
                            0 <= j < pre.items@.len() && pre.items@[j] == pre.deps@[i]@[k];
                        assert(self.items@[j] == pre.deps@[i]@[k]);
                    }
                };
                assert forall|x: u64| self.deps_of(x) == pre.deps_of(x) by {
                    self.lemma_deps_framed(pre, x);
                }
            }
        } else {
            proof {
                assert(self.item_set() =~= self.item_set().insert(item));
            }
        }
    }

    /// Appending a fresh element keeps a sequence duplicate-free and grows
    /// its set by that element.
    proof fn lemma_push_fresh(s: Seq<u64>, x: u64)
        requires
            s.no_duplicates(),
            !s.contains(x),
        ensures
            s.push(x).no_duplicates(),
            s.push(x).to_set() == s.to_set().insert(x),
    {
        let t = s.push(x);
        assert forall|i: int, j: int|
            0 <= i < t.len() && 0 <= j < t.len() && i != j implies t[i] != t[j] by {
            if i < s.len() && j < s.len() {
                assert(t[i] == s[i] && t[j] == s[j]);
            } else if i < s.len() {
                assert(t[j] == x && t[i] == s[i]);
                assert(s.contains(s[i]));
            } else {
                assert(t[i] == x && t[j] == s[j]);
                assert(s.contains(s[j]));
            }
        }
        assert forall|y: u64| t.to_set().contains(y) <==> s.to_set().insert(x).contains(
            y,
        ) by {
            if t.contains(y) {
                let j = choose|j: int| 0 <= j < t.len() && t[j] == y;
                if j < s.len() {
                    assert(s[j] == y);
                } else {
                    assert(y == x);
                }
            }
            if s.contains(y) {
                let j = choose|j: int| 0 <= j < s.len() && s[j] == y;
                assert(t[j] == y);
            }
            if y == x {
                assert(t[t.len() - 1] == x);
            }
        }
        assert(t.to_set() =~= s.to_set().insert(x));
    }

    /// With distinct items, `idx` inverts indexing.
    proof fn lemma_idx(&self, i: int)
        requires
            self.wf(),
            0 <= i < self.items@.len(),
        ensures
            self.idx(self.items@[i]) == i,
            self.item_set().contains(self.items@[i]),
    {
        let x = self.items@[i];
        assert(self.items@.contains(x));
        assert(self.item_set().contains(x));
        let j = self.idx(x);
        assert(0 <= j < self.items@.len() && self.items@[j] == x);
        if i != j {
            assert(self.items@[i] == self.items@[j]);
        }
    }

    /// After appending items/deps or updating one dep list, relate `deps_of`
    /// between two graph states that agree where it matters.
    proof fn lemma_deps_framed(&self, pre: Self, x: u64)
        requires
            pre.wf(),
            self.wf(),
            pre.items@.is_prefix_of(self.items@),
            pre.deps@.len() == pre.items@.len(),
            self.deps@.len() == self.items@.len(),
            forall|i: int| 0 <= i < pre.deps@.len() ==> pre.deps@[i]@ == #[trigger] self.deps@[i]@,
            forall|i: int|
                pre.items@.len() <= i < self.deps@.len() ==> (#[trigger] self.deps@[i]@).len()
                    == 0,
        ensures
            self.deps_of(x) == pre.deps_of(x),
    {
        if pre.item_set().contains(x) {
            let i = pre.items@.index_of(x);
            assert(0 <= i < pre.items@.len() && pre.items@[i] == x);
            assert(self.items@[i] == x);
            self.lemma_idx(i);
            pre.lemma_idx(i);
            assert(self.deps_of(x) =~= pre.deps_of(x));
        } else if self.item_set().contains(x) {
            let i = self.idx(x);
            assert(0 <= i < self.items@.len() && self.items@[i] == x);
            self.lemma_idx(i);
            if i < pre.items@.len() {
                assert(pre.items@[i] == x);
                assert(pre.item_set().contains(x));
            }
            assert(self.deps@[i]@.len() == 0);
            assert(self.deps_of(x) =~= Set::<u64>::empty());
            assert(pre.deps_of(x) =~= Set::<u64>::empty());
        } else {
            assert(self.deps_of(x) =~= pre.deps_of(x));
        }
    }

    /// Record that `a` depends on `b`, adding either item as needed.
    /// A self-dependency is ignored.
    pub fn add_dependency(&mut self, a: u64, b: u64)
        requires
            old(self).wf(),
        ensures
            final(self).wf(),
            a == b ==> *final(self) == *old(self),
            a != b ==> {
                &&& final(self).item_set() == old(self).item_set().insert(b).insert(a)
                &&& final(self).deps_of(a) == old(self).deps_of(a).insert(b)
                &&& forall|x: u64| x != a ==> final(self).deps_of(x) == old(self).deps_of(x)
            },
    {
        if a == b {
            return ;
        }
        self.add_item(b);
        self.add_item(a);
        let ghost mid = *self;
        let ia = match self.find_item(a) {
            Some(i) => i,
            None => {
                proof {
                    assert(false);
                }
                0
            },
        };
        let dep_list = &self.deps[ia];
        let mut present = false;
        let mut k: usize = 0;
        while k < dep_list.len()
            invariant
                0 <= k <= dep_list@.len(),
                present <==> exists|j: int| 0 <= j < k && dep_list@[j] == b,
            decreases dep_list@.len() - k,
        {
            if dep_list[k] == b {
                present = true;
            }
            k = k + 1;
        }
        if !present {
            self.deps[ia].push(b);
        }
        proof {
            mid.lemma_idx(ia as int);
            if !present {
                let di = ia as int;
                assert(self.deps@[di]@ == mid.deps@[di]@.push(b));
                assert(self.items@ == mid.items@);
                assert(mid.item_set().contains(b));
                assert(self.items@.contains(b));
                assert(self.wf()) by {
                    assert forall|i: int, k2: int|
                        0 <= i < self.deps@.len() && 0 <= k2 < self.deps@[i]@.len() implies self
                        .items@.contains(#[trigger] self.deps@[i]@[k2]) by {
                        if i == di && k2 == self.deps@[i]@.len() - 1 {
                            assert(self.deps@[i]@[k2] == b);
                        } else {
                            assert(self.deps@[i]@[k2] == mid.deps@[i]@[k2]);
                        }
                    }
                };
                assert(self.idx(a) == mid.idx(a));
                assert forall|y: u64| #[trigger]
                    self.deps_of(a).contains(y) <==> mid.deps_of(a).insert(b).contains(y) by {
                    if self.deps_of(a).contains(y) {
                        let j = choose|j: int|
                            0 <= j < self.deps@[di]@.len() && self.deps@[di]@[j] == y;
                        if j < mid.deps@[di]@.len() {
                            assert(mid.deps@[di]@[j] == y);
                        } else {
                            assert(y == b);
                        }
                    }
                    if mid.deps_of(a).contains(y) {
                        let j = choose|j: int|
                            0 <= j < mid.deps@[di]@.len() && mid.deps@[di]@[j] == y;
                        assert(self.deps@[di]@[j] == y);
                    }
                    if y == b {
                        assert(self.deps@[di]@[self.deps@[di]@.len() - 1] == b);
                    }
                }
                assert(self.deps_of(a) =~= mid.deps_of(a).insert(b));
                assert forall|x: u64| x != a implies self.deps_of(x) == mid.deps_of(x) by {
                    self.lemma_deps_other_framed(mid, ia as int, x);
                }
            } else {
                let j = choose|j: int| 0 <= j < self.deps@[ia as int]@.len() && self.deps@[ia
                    as int]@[j] == b;
                assert(self.deps@[ia as int]@[j] == b);
                assert(self.deps_of(a).contains(b));
                assert(self.deps_of(a) =~= mid.deps_of(a).insert(b));
            }
        }
    }

    /// The direct dependencies of an item as a list; empty for an item
    /// never added.
    pub fn dependencies_of(&self, x: u64) -> (r: Vec<u64>)
        requires
            self.wf(),
        ensures
            r@.to_set() == self.deps_of(x),
            forall|k: int| 0 <= k < r@.len() ==> self.item_set().contains(#[trigger] r@[k]),
    {
        match self.find_item(x) {
            None => {
                let r: Vec<u64> = Vec::new();
                proof {
                    assert(r@.to_set() =~= self.deps_of(x));
                }
                r
            },
            Some(i) => {
                let mut r: Vec<u64> = Vec::new();
                let dep_list = &self.deps[i];
                let mut k: usize = 0;
                while k < dep_list.len()
                    invariant
                        0 <= k <= dep_list@.len(),
                        r@ == dep_list@.subrange(0, k as int),
                    decreases dep_list@.len() - k,
                {
                    r.push(dep_list[k]);
                    k = k + 1;
                    assert(r@ =~= dep_list@.subrange(0, k as int));
                }
                proof {
                    assert(r@ =~= dep_list@);
                    assert(r@.to_set() =~= self.deps_of(x));
                }
                r
            },
        }
    }

    /// Record that `a` depends on `b`, unless that would invert a
    /// dependency the graph already implies (or `a == b`): an edge whose
    /// reverse is reachable is refused, which keeps an acyclic graph
    /// acyclic and lets the first recorded direction of a pair win.
    pub fn add_dependency_if_non_inverse(&mut self, a: u64, b: u64)
        requires
            old(self).wf(),
        ensures
            final(self).wf(),
            (a == b || old(self).reaches(b, a)) ==> *final(self) == *old(self),
            !(a == b || old(self).reaches(b, a)) ==> {
                &&& final(self).item_set() == old(self).item_set().insert(b).insert(a)
                &&& final(self).deps_of(a) == old(self).deps_of(a).insert(b)
                &&& forall|x: u64| x != a ==> final(self).deps_of(x) == old(self).deps_of(x)
            },
    {
        if a == b {
            return ;
        }
        if self.is_dependent(&b, &a) {
            return ;
        }
        self.add_dependency(a, b)
    }

    /// How many entries of a flag sequence are set.
    pub closed spec fn count_true(s: Seq<bool>) -> int
        decreases s.len(),
    {
        if s.len() == 0 {
            0
        } else {
            Self::count_true(s.drop_last()) + if s.last() {
                1int
            } else {
                0int
            }
        }
    }

    proof fn lemma_count_true_bounds(s: Seq<bool>)
        ensures
            0 <= Self::count_true(s) <= s.len(),
        decreases s.len(),
    {
        if s.len() > 0 {
            Self::lemma_count_true_bounds(s.drop_last());
        }
    }

    proof fn lemma_count_true_update(s: Seq<bool>, i: int)
        requires
            0 <= i < s.len(),
            !s[i],
        ensures
            Self::count_true(s.update(i, true)) == Self::count_true(s) + 1,
        decreases s.len(),
    {
        let t = s.update(i, true);
        if i == s.len() - 1 {
            assert(t.drop_last() =~= s.drop_last());
        } else {
            assert(t.drop_last() =~= s.drop_last().update(i, true));
            Self::lemma_count_true_update(s.drop_last(), i);
        }
    }

    proof fn lemma_count_false(s: Seq<bool>)
        requires
            forall|i: int| 0 <= i < s.len() ==> !s[i],
        ensures
            Self::count_true(s) == 0,
        decreases s.len(),
    {
        if s.len() > 0 {
            assert forall|i: int| 0 <= i < s.drop_last().len() implies !s.drop_last()[i] by {
                assert(!s[i]);
            }
            Self::lemma_count_false(s.drop_last());
        }
    }

    proof fn lemma_count_full(s: Seq<bool>)
        requires
            Self::count_true(s) == s.len(),
        ensures
            forall|i: int| 0 <= i < s.len() ==> s[i],
        decreases s.len(),
    {
        if s.len() > 0 {
            Self::lemma_count_true_bounds(s.drop_last());
            Self::lemma_count_full(s.drop_last());
            assert forall|i: int| 0 <= i < s.len() implies s[i] by {
                if i < s.len() - 1 {
                    assert(s.drop_last()[i]);
                }
            }
        }
    }

    proof fn lemma_count_not_full(s: Seq<bool>)
        requires
            Self::count_true(s) < s.len(),
        ensures
            exists|i: int| 0 <= i < s.len() && !s[i],
        decreases s.len(),
    {
        Self::lemma_count_true_bounds(s.drop_last());
        if !s.last() {
            assert(!s[s.len() - 1]);
        } else {
            Self::lemma_count_not_full(s.drop_last());
            let i = choose|i: int| 0 <= i < s.len() - 1 && !s.drop_last()[i];
            assert(!s[i]);
        }
    }

    /// A path may be extended along an edge from its last item.
    proof fn lemma_reaches_step(&self, a: u64, x: u64, y: u64)
        requires
            self.edge(x, y),
            a == x || self.reaches(a, x),
        ensures
            self.reaches(a, y),
    {
        if a == x {
            let p = seq![a, y];
            assert(p.first() == a && p.last() == y);
            assert(self.edge(p[0], p[1]));
            assert(self.is_path(p));
        } else {
            let p = choose|p: Seq<u64>|
                self.is_path(p) && p.first() == a && p.last() == x;
            let q = p.push(y);
            assert forall|k: int| 0 <= k < q.len() - 1 implies self.edge(
                #[trigger] q[k],
                q[k + 1],
            ) by {
                if k < p.len() - 1 {
                    assert(q[k] == p[k] && q[k + 1] == p[k + 1]);
                } else {
                    assert(q[k] == p.last() && q[k + 1] == y);
                }
            }
            assert(q.first() == a && q.last() == y);
            assert(self.is_path(q));
        }
    }

    /// A visited-flag table closed under edges (and avoiding `b`) traps
    /// every path that starts inside it.
    proof fn lemma_closed_no_path(&self, visited: Seq<bool>, b: u64, p: Seq<u64>)
        requires
            self.wf(),
            visited.len() == self.items@.len(),
            forall|k: int, m: int|
                0 <= k < visited.len() && visited[k] && 0 <= m < self.deps@[k]@.len() ==> (
                #[trigger] self.deps@[k]@[m]) != b && visited[self.idx(self.deps@[k]@[m])],
            self.is_path(p),
            self.item_set().contains(p.first()),
            visited[self.idx(p.first())],
        ensures
            p.last() != b,
            self.item_set().contains(p.last()),
            visited[self.idx(p.last())],
        decreases p.len(),
    {
        if p.len() == 2 {
            self.lemma_closed_edge(visited, b, p[0], p[1]);
        } else {
            let q = p.drop_last();
            assert(self.is_path(q)) by {
                assert forall|k: int| 0 <= k < q.len() - 1 implies self.edge(
                    #[trigger] q[k],
                    q[k + 1],
                ) by {
                    assert(q[k] == p[k] && q[k + 1] == p[k + 1]);
                }
            };
            assert(q.first() == p.first());
            self.lemma_closed_no_path(visited, b, q);
            assert(self.edge(p[p.len() - 2], p[p.len() - 1]));
            self.lemma_closed_edge(visited, b, p[p.len() - 2], p[p.len() - 1]);
        }
    }

    /// One closed step: an edge from a visited item lands on a visited
    /// item other than `b`.
    proof fn lemma_closed_edge(&self, visited: Seq<bool>, b: u64, x: u64, y: u64)
        requires
            self.wf(),
            visited.len() == self.items@.len(),
            forall|k: int, m: int|
                0 <= k < visited.len() && visited[k] && 0 <= m < self.deps@[k]@.len() ==> (
                #[trigger] self.deps@[k]@[m]) != b && visited[self.idx(self.deps@[k]@[m])],
            self.edge(x, y),
            self.item_set().contains(x),
            visited[self.idx(x)],
        ensures
            y != b,
            self.item_set().contains(y),
            visited[self.idx(y)],
    {
        let k = self.idx(x);
        assert(0 <= k < self.items@.len() && self.items@[k] == x);
        self.lemma_idx(k);
        assert(self.deps_of(x).contains(y));
        let m = choose|m: int| 0 <= m < self.deps@[k]@.len() && self.deps@[k]@[m] == y;
        assert(self.deps@[k]@[m] == y);
        assert(self.items@.contains(y));
    }

    /// Whether `a` depends on `b` through one or more edges.
    pub fn is_dependent(&self, a: &u64, b: &u64) -> (r: bool)
        requires
            self.wf(),
        ensures
            r == self.reaches(*a, *b),
    {
        let ghost g = *self;
        let ia = match self.find_item(*a) {
            None => {
                proof {
                    if g.reaches(*a, *b) {
                        let p = choose|p: Seq<u64>|
                            g.is_path(p) && p.first() == *a && p.last() == *b;
                        assert(g.edge(p[0], p[1]));
                    }
                }
                return false;
            },
            Some(i) => i,
        };
        let n = self.items.len();
        let mut visited: Vec<bool> = vec![false; n];
        visited[ia] = true;
        let mut stack: Vec<usize> = Vec::new();
        stack.push(ia);
        proof {
            assert(stack@[0] == ia);
            assert(stack@.contains(ia));
        }
        while stack.len() > 0
            invariant
                self.wf(),
                *self == g,
                0 <= ia < n,
                n == self.items@.len(),
                self.items@[ia as int] == *a,
                visited@.len() == n,
                visited@[ia as int],
                forall|k: int|
                    0 <= k < n && #[trigger] visited@[k] ==> k == ia || self.reaches(
                        *a,
                        self.items@[k],
                    ),
                forall|t: int|
                    0 <= t < stack@.len() ==> 0 <= #[trigger] stack@[t] < n
                        && visited@[stack@[t] as int],
                forall|k: int, m: int|
                    0 <= k < n && visited@[k] && !stack@.contains(k as usize) && 0 <= m
                        < self.deps@[k]@.len() ==> (#[trigger] self.deps@[k]@[m]) != *b
                        && visited@[self.idx(self.deps@[k]@[m])],
            decreases n - Self::count_true(visited@), stack@.len(),
    {
            let ghost count0 = Self::count_true(visited@);
            let ghost slen0 = stack@.len();
            let ghost stack_head = stack@;
            let j = match stack.pop() {
                Some(j) => j,
                None => {
                    proof {
                        assert(false);
                    }
                    0
                },
            };
            let ghost stack1 = stack@;
            proof {
                assert forall|k: int|
                    0 <= k < n && visited@[k] && k != j as int && !(#[trigger] stack@.contains(
                        k as usize,
                    )) implies !stack_head.contains(k as usize) by {
                    if stack_head.contains(k as usize) {
                        let t = choose|t: int|
                            0 <= t < stack_head.len() && stack_head[t] == k as usize;
                        if t < stack_head.len() - 1 {
                            assert(stack@[t] == k as usize);
                        } else {
                            assert(stack_head[t] == j);
                        }
                    }
                }
            }
            let dep_len = self.deps[j].len();
            let mut m: usize = 0;
            while m < dep_len
                invariant
                    self.wf(),
                    *self == g,
                    0 <= ia < n,
                    n == self.items@.len(),
                    self.items@[ia as int] == *a,
                    0 <= j < n,
                    dep_len == self.deps@[j as int]@.len(),
                    0 <= m <= dep_len,
                    visited@.len() == n,
                    visited@[ia as int],
                    visited@[j as int],
                    forall|k: int|
                        0 <= k < n && #[trigger] visited@[k] ==> k == ia || self.reaches(
                            *a,
                            self.items@[k],
                        ),
                    forall|t: int|
                        0 <= t < stack@.len() ==> 0 <= #[trigger] stack@[t] < n
                            && visited@[stack@[t] as int],
                    forall|k: int, m2: int|
                        0 <= k < n && visited@[k] && k != j && !stack@.contains(k as usize) && 0
                            <= m2 < self.deps@[k]@.len() ==> (#[trigger] self.deps@[k]@[m2]) != *b
                            && visited@[self.idx(self.deps@[k]@[m2])],
                    forall|m2: int|
                        0 <= m2 < m ==> (#[trigger] self.deps@[j as int]@[m2]) != *b && visited@[
                            self.idx(self.deps@[j as int]@[m2])],
                    Self::count_true(visited@) - count0 == stack@.len() - stack1.len(),
                    Self::count_true(visited@) >= count0,
                    stack1.len() == slen0 - 1,
                decreases dep_len - m,
            {
                let d = self.deps[j][m];
                if d == *b {
                    proof {
                        assert(self.edge(self.items@[j as int], d)) by {
                            self.lemma_idx(j as int);
                        };
                        if j == ia {
                            self.lemma_reaches_step(*a, *a, d);
                        } else {
                            self.lemma_reaches_step(*a, self.items@[j as int], d);
                        }
                    }
                    return true;
                }
                let kd = match self.find_item(d) {
                    Some(kd) => kd,
                    None => {
                        proof {
                            assert(self.items@.contains(d));
                        }
                        0
                    },
                };
                if !visited[kd] {
                    proof {
                        Self::lemma_count_true_update(visited@, kd as int);
                        Self::lemma_count_true_bounds(visited@);
                        assert(self.edge(self.items@[j as int], d)) by {
                            self.lemma_idx(j as int);
                        };
                        if j == ia {
                            self.lemma_reaches_step(*a, *a, d);
                        } else {
                            self.lemma_reaches_step(*a, self.items@[j as int], d);
                        }
                    }
                    let ghost stack_before = stack@;
                    visited[kd] = true;
                    stack.push(kd);
                    proof {
                        assert(stack@[stack@.len() - 1] == kd);
                        assert(stack@.contains(kd));
                        assert forall|k: int|
                            0 <= k < n && k != kd as int && !(#[trigger] stack@.contains(
                                k as usize,
                            )) implies !stack_before.contains(k as usize) by {
                            if stack_before.contains(k as usize) {
                                let t = choose|t: int|
                                    0 <= t < stack_before.len() && stack_before[t] == k as usize;
                                assert(stack@[t] == k as usize);
                            }
                        }
                    }
                }
                m = m + 1;
            }
            proof {
                Self::lemma_count_true_bounds(visited@);
            }
        }
        proof {
            if g.reaches(*a, *b) {
                let p = choose|p: Seq<u64>|
                    g.is_path(p) && p.first() == *a && p.last() == *b;
                g.lemma_idx(ia as int);
                g.lemma_closed_no_path(visited@, *b, p);
            }
        }
        false
    }

    /// A topological walk of the graph: items come after their
    /// dependencies.
    pub fn visit(&self) -> (r: Visitor)
        requires
            self.wf(),
        ensures
            r.wf(),
            r.order().no_duplicates(),
            r.spec_pos() == 0,
            !r.spec_reported(),
            r.respects(*self),
            !r.has_cycle() ==> r.order().to_set() == self.item_set(),
            r.has_cycle() ==> exists|s: Set<u64>| stuck_set(*self, s),
    {
        Visitor::new(self)
    }

    /// Relate `deps_of` for items other than the one at a changed index.
    proof fn lemma_deps_other_framed(&self, pre: Self, changed: int, x: u64)
        requires
            pre.wf(),
            self.wf(),
            self.items@ == pre.items@,
            self.deps@.len() == pre.deps@.len(),
            0 <= changed < self.deps@.len(),
            forall|i: int|
                0 <= i < self.deps@.len() && i != changed ==> pre.deps@[i]@ == (
                #[trigger] self.deps@[i]@),
            x != pre.items@[changed],
        ensures
            self.deps_of(x) == pre.deps_of(x),
    {
        if pre.item_set().contains(x) {
            let i = pre.idx(x);
            assert(0 <= i < pre.items@.len() && pre.items@[i] == x);
            pre.lemma_idx(i);
            self.lemma_idx(i);
            assert(i != changed);
            assert(self.deps_of(x) =~= pre.deps_of(x));
        } else {
            assert(self.deps_of(x) =~= pre.deps_of(x));
        }
    }
}


/// An item contained in a duplicate-free sequence sits at its `index_of`.
proof fn lemma_index_of_unique(s: Seq<u64>, j: int)
    requires
        s.no_duplicates(),
        0 <= j < s.len(),
    ensures
        s.index_of(s[j]) == j,
{
    let x = s[j];
    assert(s.contains(x));
    let j2 = s.index_of(x);
    assert(0 <= j2 < s.len() && s[j2] == x);
    if j != j2 {
        assert(s[j] == s[j2]);
    }
}


/// A set of items each of which depends on another item of the set: the
/// witness that a topological walk is stuck.
pub open spec fn stuck_set(g: TopologicalGraph, s: Set<u64>) -> bool {
    &&& s.subset_of(g.item_set())
    &&& exists|x: u64| s.contains(x)
    &&& forall|x: u64|
        #[trigger] s.contains(x) ==> exists|d: u64| s.contains(d) && g.deps_of(x).contains(d)
}

/// A topological walk over a [`TopologicalGraph`], dependencies first.
/// When the graph cannot be linearized the walk ends with a
/// [`SortError::CircularDependency`] report.
pub struct Visitor {
    order: Vec<u64>,
    cycle: bool,
    pos: usize,
    reported: bool,
}

impl Visitor {
    /// The linearized items, dependencies first.
    pub closed spec fn order(&self) -> Seq<u64> {
        self.order@
    }

    /// Whether linearization got stuck on a dependency cycle.
    pub closed spec fn has_cycle(&self) -> bool {
        self.cycle
    }

    /// How many items `next` has yielded so far.
    pub closed spec fn spec_pos(&self) -> int {
        self.pos as int
    }

    pub closed spec fn spec_reported(&self) -> bool {
        self.reported
    }

    pub closed spec fn wf(&self) -> bool {
        self.order@.no_duplicates()
    }

    /// The walk lists only graph items, and every item after all its
    /// dependencies.
    pub open spec fn respects(&self, g: TopologicalGraph) -> bool {
        &&& forall|m: int|
            0 <= m < self.order().len() ==> g.item_set().contains(#[trigger] self.order()[m])
        &&& forall|m: int, d: u64|
            0 <= m < self.order().len() && #[trigger] g.deps_of(self.order()[m]).contains(d)
                ==> exists|j: int| 0 <= j < m && self.order()[j] == d
    }

    /// Linearize the graph: repeatedly emit an item whose dependencies
    /// have all been emitted; report a cycle when none is left but items
    /// remain.
    pub fn new(graph: &TopologicalGraph) -> (r: Visitor)
        requires
            graph.wf(),
        ensures
            r.wf(),
            r.order().no_duplicates(),
            r.respects(*graph),
            r.spec_pos() == 0,
            !r.spec_reported(),
            !r.has_cycle() ==> r.order().to_set() == graph.item_set(),
            r.has_cycle() ==> exists|s: Set<u64>| stuck_set(*graph, s),
    {
        let n = graph.items.len();
        let mut done: Vec<bool> = vec![false; n];
        let mut order: Vec<u64> = Vec::new();
        proof {
            TopologicalGraph::lemma_count_false(done@);
        }
        let mut cycle: bool = false;
        loop
            invariant
                graph.wf(),
                n == graph.items@.len(),
                done@.len() == n,
                order@.no_duplicates(),
                order@.len() == TopologicalGraph::count_true(done@),
                forall|k: int|
                    0 <= k < n ==> (#[trigger] done@[k] <==> order@.contains(graph.items@[k])),
                forall|m: int|
                    0 <= m < order@.len() ==> graph.item_set().contains(#[trigger] order@[m]),
                forall|m: int, d: u64|
                    0 <= m < order@.len() && #[trigger] graph.deps_of(order@[m]).contains(d)
                        ==> exists|j: int| 0 <= j < m && order@[j] == d,
            ensures
                order@.no_duplicates(),
                forall|m: int|
                    0 <= m < order@.len() ==> graph.item_set().contains(#[trigger] order@[m]),
                forall|m: int, d: u64|
                    0 <= m < order@.len() && #[trigger] graph.deps_of(order@[m]).contains(d)
                        ==> exists|j: int| 0 <= j < m && order@[j] == d,
                !cycle ==> order@.to_set() == graph.item_set(),
                cycle ==> exists|s: Set<u64>| stuck_set(*graph, s),
            decreases n - order@.len(),
        {
            proof {
                TopologicalGraph::lemma_count_true_bounds(done@);
            }
            let mut found: Option<usize> = None;
            let mut i: usize = 0;
            while i < n && found.is_none()
                invariant
                    graph.wf(),
                    n == graph.items@.len(),
                    done@.len() == n,
                    0 <= i <= n,
                    found is None ==> forall|k: int|
                        0 <= k < i ==> #[trigger] done@[k] || exists|m: int|
                            0 <= m < graph.deps@[k]@.len() && !order@.contains(
                                graph.deps@[k]@[m],
                            ),
                    found matches Some(fi) ==> 0 <= fi < n && !done@[fi as int] && forall|m: int|
                        0 <= m < graph.deps@[fi as int]@.len() ==> order@.contains(
                            #[trigger] graph.deps@[fi as int]@[m],
                        ),
                decreases n - i, (if found is None { 1int } else { 0int }),
            {
                if !done[i] && Self::deps_ready(graph, i, &order) {
                    found = Some(i);
                } else {
                    i = i + 1;
                }
            }
            match found {
                Some(fi) => {
                    let ghost done0 = done@;
                    let ghost order0 = order@;
                    let item = graph.items[fi];
                    done[fi] = true;
                    order.push(item);
                    proof {
                        graph.lemma_idx(fi as int);
                        TopologicalGraph::lemma_count_true_update(done0, fi as int);
                        TopologicalGraph::lemma_count_true_bounds(done0);
                        if order0.len() >= n {
                            TopologicalGraph::lemma_count_full(done0);
                        }
                        assert(!order0.contains(item));
                        TopologicalGraph::lemma_push_fresh(order0, item);
                        assert forall|k: int|
                            0 <= k < n implies (#[trigger] done@[k] <==> order@.contains(
                            graph.items@[k],
                        )) by {
                            if k == fi as int {
                                assert(order@[order@.len() - 1] == item);
                            } else {
                                assert(done@[k] == done0[k]);
                                if order@.contains(graph.items@[k]) {
                                    let j = choose|j: int|
                                        0 <= j < order@.len() && order@[j] == graph.items@[k];
                                    if j < order0.len() {
                                        assert(order0[j] == graph.items@[k]);
                                    } else {
                                        assert(graph.items@[k] == item);
                                        graph.lemma_idx(k);
                                    }
                                }
                                if order0.contains(graph.items@[k]) {
                                    let j = choose|j: int|
                                        0 <= j < order0.len() && order0[j] == graph.items@[k];
                                    assert(order@[j] == graph.items@[k]);
                                }
                            }
                        }
                        assert forall|m: int, d: u64|
                            0 <= m < order@.len() && #[trigger] graph.deps_of(order@[m]).contains(
                                d,
                            ) implies exists|j: int| 0 <= j < m && order@[j] == d by {
                            if m < order0.len() {
                                assert(order0[m] == order@[m]);
                                let j = choose|j: int| 0 <= j < m && order0[j] == d;
                                assert(order@[j] == d);
                            } else {
                                assert(order@[m] == item);
                                assert(graph.deps_of(item) == graph.deps@[fi as int]@.to_set());
                                let dm = choose|dm: int|
                                    0 <= dm < graph.deps@[fi as int]@.len() && graph.deps@[fi
                                        as int]@[dm] == d;
                                assert(order0.contains(d));
                                let j = choose|j: int| 0 <= j < order0.len() && order0[j] == d;
                                assert(order@[j] == d);
                            }
                        }
                    }
                },
                None => {
                    if order.len() == n {
                        cycle = false;
                        proof {
                            TopologicalGraph::lemma_count_full(done@);
                            assert forall|x: u64|
                                graph.item_set().contains(x) implies order@.to_set().contains(
                                x,
                            ) by {
                                let k = choose|k: int|
                                    0 <= k < graph.items@.len() && graph.items@[k] == x;
                                assert(done@[k]);
                            }
                            assert(order@.to_set() =~= graph.item_set());
                        }
                    } else {
                        cycle = true;
                        proof {
                            let s = Set::new(
                                |x: u64|
                                    graph.item_set().contains(x) && !order@.to_set().contains(x),
                            );
                            TopologicalGraph::lemma_count_true_bounds(done@);
                            TopologicalGraph::lemma_count_not_full(done@);
                            let k0 = choose|k0: int| 0 <= k0 < done@.len() && !done@[k0];
                            assert(graph.items@.contains(graph.items@[k0]));
                            assert(s.contains(graph.items@[k0]));
                            assert forall|x: u64| #[trigger]
                                s.contains(x) implies exists|d: u64|
                                s.contains(d) && graph.deps_of(x).contains(d) by {
                                let k = choose|k: int|
                                    0 <= k < graph.items@.len() && graph.items@[k] == x;
                                graph.lemma_idx(k);
                                assert(!done@[k]);
                                let m = choose|m: int|
                                    0 <= m < graph.deps@[k]@.len() && !order@.contains(
                                        graph.deps@[k]@[m],
                                    );
                                let d = graph.deps@[k]@[m];
                                assert(graph.items@.contains(d));
                                assert(s.contains(d));
                                assert(graph.deps_of(x).contains(d));
                            }
                            assert(s.subset_of(graph.item_set()));
                            assert(exists|x: u64| s.contains(x));
                            assert(stuck_set(*graph, s));
                        }
                    }
                    break ;
                },
            }
        }
        Visitor { order, cycle, pos: 0, reported: false }
    }

    /// Whether every dependency of the item at `i` was already emitted.
    fn deps_ready(graph: &TopologicalGraph, i: usize, order: &Vec<u64>) -> (r: bool)
        requires
            graph.wf(),
            0 <= i < graph.items@.len(),
        ensures
            r == forall|m: int|
                0 <= m < graph.deps@[i as int]@.len() ==> order@.contains(
                    #[trigger] graph.deps@[i as int]@[m],
                ),
    {
        let dep_list = &graph.deps[i];
        let mut m: usize = 0;
        while m < dep_list.len()
            invariant
                0 <= m <= dep_list@.len(),
                dep_list@ == graph.deps@[i as int]@,
                forall|m2: int| 0 <= m2 < m ==> order@.contains(#[trigger] dep_list@[m2]),
            decreases dep_list@.len() - m,
        {
            if !Self::order_contains(order, dep_list[m]) {
                return false;
            }
            m = m + 1;
        }
        true
    }

    fn order_contains(order: &Vec<u64>, x: u64) -> (r: bool)
        ensures
            r == order@.contains(x),
    {
        let mut i: usize = 0;
        while i < order.len()
            invariant
                0 <= i <= order@.len(),
                forall|j: int| 0 <= j < i ==> order@[j] != x,
            decreases order@.len() - i,
        {
            if order[i] == x {
                return true;
            }
            i = i + 1;
        }
        false
    }

    /// Whether the walk ends in a cycle report.
    pub fn has_cycle_flag(&self) -> (r: bool)
        ensures
            r == self.has_cycle(),
    {
        self.cycle
    }

    /// The whole walk at once, dependencies first.
    pub fn order_items(&self) -> (r: Vec<u64>)
        ensures
            r@ == self.order(),
    {
        let mut out: Vec<u64> = Vec::new();
        let mut i: usize = 0;
        while i < self.order.len()
            invariant
                0 <= i <= self.order@.len(),
                out@ == self.order@.take(i as int),
            decreases self.order@.len() - i,
        {
            out.push(self.order[i]);
            i = i + 1;
            proof {
                assert(out@ =~= self.order@.take(i as int));
            }
        }
        proof {
            assert(out@ =~= self.order@);
        }
        out
    }

    /// The next item of the walk; after the items, one cycle report if the
    /// graph had one, then `None`.
    pub fn next(&mut self) -> (r: Option<Result<u64, SortError>>)
        requires
            old(self).wf(),
        ensures
            final(self).wf(),
            final(self).order() == old(self).order(),
            final(self).has_cycle() == old(self).has_cycle(),
            old(self).spec_pos() < old(self).order().len() ==> {
                &&& r == Some(Result::<u64, SortError>::Ok(
                    old(self).order()[old(self).spec_pos()],
                ))
                &&& final(self).spec_pos() == old(self).spec_pos() + 1
                &&& final(self).spec_reported() == old(self).spec_reported()
            },
            old(self).spec_pos() >= old(self).order().len() && old(self).has_cycle() && !old(
                self,
            ).spec_reported() ==> {
                &&& r == Some(Result::<u64, SortError>::Err(SortError::CircularDependency))
                &&& final(self).spec_reported()
            },
            old(self).spec_pos() >= old(self).order().len() && (!old(self).has_cycle() || old(
                self,
            ).spec_reported()) ==> r is None,
    {
        if self.pos < self.order.len() {
            let item = self.order[self.pos];
            self.pos = self.pos + 1;
            Some(Ok(item))
        } else if self.cycle && !self.reported {
            self.reported = true;
            Some(Err(SortError::CircularDependency))
        } else {
            None
        }
    }
}


/// An edge out of an item listed in a dependency-respecting walk leads to
/// an item listed strictly earlier.
proof fn lemma_rank_edge(g: &TopologicalGraph, order: Seq<u64>, a: u64, b: u64)
    requires
        order.no_duplicates(),
        forall|m: int, d: u64|
            0 <= m < order.len() && #[trigger] g.deps_of(order[m]).contains(d) ==> exists|j: int|
                0 <= j < m && order[j] == d,
        g.edge(a, b),
        order.contains(a),
    ensures
        order.contains(b),
        order.index_of(b) < order.index_of(a),
{
    let m = order.index_of(a);
    assert(0 <= m < order.len() && order[m] == a);
    assert(g.deps_of(order[m]).contains(b));
    let j = choose|j: int| 0 <= j < m && order[j] == b;
    assert(order[j] == b);
    assert(order.contains(b));
    lemma_index_of_unique(order, j);
    lemma_index_of_unique(order, m);
}

/// Along a dependency chain, positions in a dependency-respecting walk
/// strictly decrease.
proof fn lemma_path_rank(g: &TopologicalGraph, order: Seq<u64>, p: Seq<u64>)
    requires
        order.no_duplicates(),
        forall|m: int, d: u64|
            0 <= m < order.len() && #[trigger] g.deps_of(order[m]).contains(d) ==> exists|j: int|
                0 <= j < m && order[j] == d,
        g.is_path(p),
        order.contains(p.first()),
    ensures
        order.contains(p.last()),
        order.index_of(p.last()) < order.index_of(p.first()),
    decreases p.len(),
{
    if p.len() == 2 {
        assert(g.edge(p[0], p[1]));
        lemma_rank_edge(g, order, p[0], p[1]);
    } else {
        let q = p.drop_last();
        assert(g.is_path(q)) by {
            assert forall|k: int| 0 <= k < q.len() - 1 implies g.edge(
                #[trigger] q[k],
                q[k + 1],
            ) by {
                assert(q[k] == p[k] && q[k + 1] == p[k + 1]);
            }
        };
        assert(q.first() == p.first());
        lemma_path_rank(g, order, q);
        assert(g.edge(p[p.len() - 2], p[p.len() - 1]));
        lemma_rank_edge(g, order, p[p.len() - 2], p[p.len() - 1]);
    }
}

/// A topological walk that covers the whole graph without reporting a
/// cycle certifies that no item depends on itself, even transitively:
/// the dependency graph is acyclic.
pub proof fn lemma_complete_visit_acyclic(g: &TopologicalGraph, v: &Visitor)
    requires
        v.wf(),
        v.respects(*g),
        !v.has_cycle(),
        v.order().to_set() == g.item_set(),
    ensures
        forall|x: u64| !g.reaches(x, x),
{
    let order = v.order();
    assert forall|x: u64| !g.reaches(x, x) by {
        if g.reaches(x, x) {
            let p = choose|p: Seq<u64>| g.is_path(p) && p.first() == x && p.last() == x;
            assert(g.edge(p[0], p[1]));
            assert(g.item_set().contains(x)) by {
                if !g.item_set().contains(x) {
                    assert(g.deps_of(x) =~= Set::<u64>::empty());
                }
            };
            assert(order.to_set().contains(x));
            lemma_path_rank(g, order, p);
        }
    }
}


/// Reachability only grows as edges are added.
pub proof fn lemma_reaches_monotone(g1: &TopologicalGraph, g2: &TopologicalGraph, a: u64, b: u64)
    requires
        forall|x: u64, y: u64| #[trigger] g1.edge(x, y) ==> g2.edge(x, y),
        g1.reaches(a, b),
    ensures
        g2.reaches(a, b),
{
    let p = choose|p: Seq<u64>| g1.is_path(p) && p.first() == a && p.last() == b;
    assert(g2.is_path(p)) by {
        assert forall|k: int| 0 <= k < p.len() - 1 implies g2.edge(#[trigger] p[k], p[k + 1]) by {
            assert(g1.edge(p[k], p[k + 1]));
        }
    };
}


/// A walk of any requested length can be carved out of a stuck set:
/// every member has a dependency in the set, so steps never run out.
#[verifier::rlimit(50)]
proof fn lemma_stuck_walk(g: &TopologicalGraph, s: Set<u64>, x: u64, n: nat) -> (p: Seq<u64>)
    requires
        stuck_set(*g, s),
        s.contains(x),
    ensures
        p.len() == n + 1,
        p[0] == x,
        forall|k: int| 0 <= k < p.len() ==> s.contains(#[trigger] p[k]),
        forall|k: int| 0 <= k < p.len() - 1 ==> g.edge(#[trigger] p[k], p[k + 1]),
    decreases n,
{
    if n == 0 {
        let p = seq![x];
        p
    } else {
        let q = lemma_stuck_walk(g, s, x, (n - 1) as nat);
        let last = q[q.len() - 1];
        assert(s.contains(last));
        let d = choose|d: u64| s.contains(d) && g.deps_of(last).contains(d);
        let p = q.push(d);
        assert forall|k: int| 0 <= k < p.len() - 1 implies g.edge(#[trigger] p[k], p[k + 1]) by {
            if k < q.len() - 1 {
                assert(p[k] == q[k] && p[k + 1] == q[k + 1]);
            } else {
                assert(p[k] == last && p[k + 1] == d);
            }
        }
        p
    }
}

/// A stuck set is the witness of a real cycle: some item depends on
/// itself through one or more edges.
/// A sequence longer than a finite set it draws from must repeat.
proof fn lemma_pigeonhole(p: Seq<u64>, s: Set<u64>)
    requires
        s.finite(),
        p.len() > s.len(),
        forall|k: int| 0 <= k < p.len() ==> s.contains(#[trigger] p[k]),
    ensures
        exists|i: int, j: int| 0 <= i < j < p.len() && p[i] == p[j],
{
    if forall|i: int, j: int| 0 <= i < p.len() && 0 <= j < p.len() && i != j ==> p[i] != p[j] {
        assert(p.no_duplicates());
        p.unique_seq_to_set();
        assert(p.to_set().subset_of(s)) by {
            assert forall|y: u64| p.to_set().contains(y) implies s.contains(y) by {
                let k = choose|k: int| 0 <= k < p.len() && p[k] == y;
                assert(s.contains(p[k]));
            }
        };
        vstd::set_lib::lemma_len_subset(p.to_set(), s);
        assert(false);
    } else {
        let (i0, j0) = choose|i0: int, j0: int|
            0 <= i0 < p.len() && 0 <= j0 < p.len() && i0 != j0 && p[i0] == p[j0];
        if i0 < j0 {
            assert(0 <= i0 < j0 < p.len() && p[i0] == p[j0]);
        } else {
            assert(0 <= j0 < i0 < p.len() && p[j0] == p[i0]);
        }
    }
}

/// A repeated item in a walk closes a dependency cycle.
proof fn lemma_walk_repeat_cycle(g: &TopologicalGraph, p: Seq<u64>, i: int, j: int)
    requires
        0 <= i < j < p.len(),
        p[i] == p[j],
        forall|k: int| 0 <= k < p.len() - 1 ==> g.edge(#[trigger] p[k], p[k + 1]),
    ensures
        g.reaches(p[i], p[i]),
{
    let c = p.subrange(i, j + 1);
    assert(c.len() >= 2);
    assert forall|k: int| 0 <= k < c.len() - 1 implies g.edge(#[trigger] c[k], c[k + 1]) by {
        assert(c[k] == p[i + k] && c[k + 1] == p[i + k + 1]);
    }
    assert(g.is_path(c));
    assert(c.first() == p[i] && c.last() == p[j]);
}

/// A stuck set is the witness of a real cycle: some item depends on
/// itself through one or more edges.
pub proof fn lemma_stuck_set_has_cycle(g: &TopologicalGraph, s: Set<u64>)
    requires
        stuck_set(*g, s),
    ensures
        exists|x: u64| g.reaches(x, x),
{
    assert(g.item_set().finite()) by {
        broadcast use vstd::seq_lib::seq_to_set_is_finite;

        assert(g.item_set() == g.items@.to_set());
    };
    vstd::set_lib::lemma_set_subset_finite(g.item_set(), s);
    let x0 = choose|x0: u64| s.contains(x0);
    let p = lemma_stuck_walk(g, s, x0, s.len());
    lemma_pigeonhole(p, s);
    let (i, j) = choose|i: int, j: int| 0 <= i < j < p.len() && p[i] == p[j];
    lemma_walk_repeat_cycle(g, p, i, j);
}


/// In a duplicate-free walk that lists every item after its direct
/// dependencies, reachability always points strictly backwards: whatever
/// an item transitively depends on sits earlier in the walk.
pub proof fn lemma_order_rank(g: &TopologicalGraph, order: Seq<u64>, a: u64, b: u64)
    requires
        order.no_duplicates(),
        forall|m: int, d: u64|
            0 <= m < order.len() && #[trigger] g.deps_of(order[m]).contains(d) ==> exists|j: int|
                0 <= j < m && order[j] == d,
        order.contains(a),
        g.reaches(a, b),
    ensures
        order.contains(b),
        order.index_of(b) < order.index_of(a),
{
    let p = choose|p: Seq<u64>| g.is_path(p) && p.first() == a && p.last() == b;
    lemma_path_rank(g, order, p);
}


/// An edge followed by a chain (or by nothing) is a chain from the
/// edge's source.
pub proof fn lemma_reaches_prepend(g: &TopologicalGraph, t: u64, d: u64, q: u64)
    requires
        g.edge(t, d),
        d == q || g.reaches(d, q),
    ensures
        g.reaches(t, q),
{
    if d == q {
        let p = seq![t, q];
        assert(g.edge(p[0], p[1]));
        assert(g.is_path(p));
        assert(p.first() == t && p.last() == q);
    } else {
        let p = choose|p: Seq<u64>| g.is_path(p) && p.first() == d && p.last() == q;
        let joined = seq![t] + p;
        assert forall|k: int| 0 <= k < joined.len() - 1 implies g.edge(
            #[trigger] joined[k],
            joined[k + 1],
        ) by {
            if k == 0 {
                assert(joined[0] == t && joined[1] == p[0]);
            } else {
                assert(joined[k] == p[k - 1] && joined[k + 1] == p[k]);
            }
        }
        assert(g.is_path(joined));
        assert(joined.first() == t && joined.last() == q);
    }
}

} // verus!

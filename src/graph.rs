use vstd::prelude::*;

use crate::arena::{Arena, SlotHandle};

verus! {

pub type NodeHandle = SlotHandle;

/// A payload and the handles of its successors, in insertion order.
pub struct Node<T> {
    data: T,
    edges: Vec<NodeHandle>,
}

impl<T> Node<T> {
    pub closed spec fn data_view(&self) -> T {
        self.data
    }

    pub closed spec fn edges_view(&self) -> Seq<NodeHandle> {
        self.edges@
    }

    pub fn data(&self) -> (r: &T)
        ensures
            *r == self.data_view(),
    {
        &self.data
    }

    pub fn edges(&self) -> (r: &Vec<NodeHandle>)
        ensures
            r@ == self.edges_view(),
    {
        &self.edges
    }
}

#[derive(Debug, Clone, Copy, PartialEq, Eq, Structural)]
pub enum TopologicalSortError {
    MissingNode,
    Cycle,
}

/// Mark of a node during the depth-first walk of `tsort`.
#[derive(Clone, Copy, PartialEq, Eq, Structural)]
pub enum SortStatus {
    Unseen,
    Seen,
    Processed,
}

/// Number of `Unseen` marks in `s`.
pub open spec fn unseen_count(s: Seq<SortStatus>) -> nat
    decreases s.len(),
{
    if s.len() == 0 {
        0
    } else {
        unseen_count(s.drop_last()) + if s.last() == SortStatus::Unseen { 1nat } else { 0nat }
    }
}

proof fn lemma_unseen_count_update(s: Seq<SortStatus>, j: int, x: SortStatus)
    requires
        0 <= j < s.len(),
    ensures
        unseen_count(s.update(j, x)) + (if s[j] == SortStatus::Unseen { 1int } else { 0int })
            == unseen_count(s) + (if x == SortStatus::Unseen { 1int } else { 0int }),
    decreases s.len(),
{
    if j < s.len() - 1 {
        lemma_unseen_count_update(s.drop_last(), j, x);
        assert(s.update(j, x).drop_last() =~= s.drop_last().update(j, x));
    } else {
        assert(s.update(j, x).drop_last() =~= s.drop_last());
    }
}

/// A directed graph whose nodes live in an arena.
pub struct Digraph<T> {
    nodes: Arena<Node<T>>,
}

/// A value that occurs in `v` has a last occurrence.
proof fn lemma_last_occurrence<A>(v: Seq<A>, x: A)
    requires
        v.contains(x),
    ensures
        exists|k: int| 0 <= k < v.len() && v[k] == x && forall|j: int| k < j < v.len() ==> v[j] != x,
    decreases v.len(),
{
    if v[v.len() - 1] == x {
        assert(forall|j: int| v.len() - 1 < j < v.len() ==> v[j] != x);
    } else {
        let w = v.drop_last();
        let k0 = choose|k: int| 0 <= k < v.len() && v[k] == x;
        assert(w[k0] == x);
        lemma_last_occurrence(w, x);
        let k = choose|k: int| 0 <= k < w.len() && w[k] == x && forall|j: int| k < j < w.len() ==> w[j] != x;
        assert(v[k] == x);
        assert forall|j: int| k < j < v.len() implies v[j] != x by {
            if j < w.len() {
                assert(v[j] == w[j]);
            }
        }
    }
}

impl<T> Digraph<T> {
    pub open spec fn wf(&self) -> bool {
        self.arena().wf()
    }

    /// The node storage.
    pub closed spec fn arena(&self) -> Arena<Node<T>> {
        self.nodes
    }

    /// `h` names a node of the graph.
    pub open spec fn live(&self, h: NodeHandle) -> bool {
        self.arena().live(h)
    }

    /// Payload of the node `h`.
    pub open spec fn data_of(&self, h: NodeHandle) -> T {
        self.arena().value(h).data_view()
    }

    /// Successors of the node `h`, in insertion order.
    pub open spec fn edges_of(&self, h: NodeHandle) -> Seq<NodeHandle> {
        self.arena().value(h).edges_view()
    }

    pub open spec fn count(&self) -> nat {
        self.arena().live_count()
    }

    pub fn new() -> (r: Digraph<T>)
        ensures
            r.wf(),
            r.count() == 0,
            r.arena().slot_len() == 0,
    {
        Digraph { nodes: Arena::new() }
    }

    pub fn node_count(&self) -> (r: usize)
        ensures
            r == self.count(),
    {
        self.nodes.count()
    }

    /// Adds a node without edges.
    pub fn add_node(&mut self, data: T) -> (r: NodeHandle)
        requires
            old(self).wf(),
            old(self).arena().slot_len() < usize::MAX,
        ensures
            final(self).wf(),
            final(self).count() == old(self).count() + 1,
            !old(self).live(r),
            final(self).live(r),
            final(self).data_of(r) == data,
            final(self).edges_of(r) == Seq::<NodeHandle>::empty(),
            final(self).arena().slot_len() <= old(self).arena().slot_len() + 1,
            final(self).arena().slot_len() >= old(self).arena().slot_len(),
            forall|h: NodeHandle| #[trigger] old(self).live(h) ==> {
                &&& final(self).live(h)
                &&& final(self).arena().value(h) == old(self).arena().value(h)
            },
            forall|h: NodeHandle| #[trigger] old(self).arena().stale(h) ==> final(self).arena().stale(h),
            forall|h: NodeHandle| #[trigger] final(self).live(h) ==> old(self).live(h) || h == r,
            r.index <= old(self).arena().slot_len(),
            r.index < old(self).arena().slot_len() ==> {
                &&& !old(self).arena().allocated_at(r.index as int)
                &&& r.generation == old(self).arena().generation_at(r.index as int)
                &&& final(self).arena().slot_len() == old(self).arena().slot_len()
            },
            r.index == old(self).arena().slot_len() ==> {
                &&& r.generation == 0
                &&& final(self).arena().slot_len() == old(self).arena().slot_len() + 1
            },
            forall|i: int| 0 <= i < r.index ==> old(self).arena().allocated_at(i) || old(
                self,
            ).arena().generation_at(i) == usize::MAX,
    {
        let node = Node { data, edges: Vec::new() };
        self.nodes.add(node)
    }

    pub fn node(&self, handle: NodeHandle) -> (r: Option<&Node<T>>)
        ensures
            r matches Some(n) ==> self.live(handle) && *n == self.arena().value(handle),
            r is None ==> !self.live(handle),
    {
        self.nodes.get(handle)
    }

    /// Removes the node `handle`; edges of other nodes that point at it stay.
    pub fn remove_node(&mut self, handle: NodeHandle)
        requires
            old(self).wf(),
        ensures
            final(self).wf(),
            !final(self).live(handle),
            !old(self).live(handle) ==> *final(self) == *old(self),
            old(self).live(handle) ==> final(self).count() == old(self).count() - 1,
            old(self).live(handle) ==> forall|h: NodeHandle| #[trigger] h.index == handle.index
                ==> !final(self).live(h),
            forall|h: NodeHandle| h.index != handle.index ==> {
                &&& final(self).live(h) == old(self).live(h)
                &&& (old(self).live(h) ==> final(self).arena().value(h) == old(self).arena().value(h))
            },
    {
        self.nodes.remove(handle);
    }

    /// Appends `h2` to the edges of `h1` when `h1` is a node; `h2` is not
    /// checked here.
    pub fn add_edge(&mut self, h1: NodeHandle, h2: NodeHandle)
        requires
            old(self).wf(),
        ensures
            final(self).wf(),
            !old(self).live(h1) ==> *final(self) == *old(self),
            final(self).count() == old(self).count(),
            final(self).arena().slot_len() == old(self).arena().slot_len(),
            forall|h: NodeHandle| #[trigger] final(self).live(h) == old(self).live(h),
            forall|h: NodeHandle| #[trigger] old(self).live(h) ==> final(self).data_of(h)
                == old(self).data_of(h),
            forall|h: NodeHandle| #[trigger] old(self).live(h) && h != h1 ==> final(self).edges_of(h)
                == old(self).edges_of(h),
            old(self).live(h1) ==> final(self).edges_of(h1) == old(self).edges_of(h1).push(h2),
    {
        if let Some(node) = self.nodes.get_mut(h1) {
            node.edges.push(h2);
        }
    }

    /// Number of slots in the node storage, live or free.
    pub(crate) fn slot_count(&self) -> (r: usize)
        ensures
            r == self.arena().slot_len(),
    {
        self.nodes.slot_count()
    }

    /// Some live node has an edge to a handle that does not resolve.
    pub open spec fn has_dangling_edge(&self) -> bool {
        exists|u: NodeHandle, m: int|
            self.live(u) && 0 <= m < self.edges_of(u).len() && !self.live(
                #[trigger] self.edges_of(u)[m],
            )
    }

    /// The walk from `h`, given marks `st` and emitted nodes `out`: the
    /// outcome, the marks and the emitted nodes after it.
    pub open spec fn visit(&self, h: NodeHandle, st: Seq<SortStatus>, out: Seq<NodeHandle>) -> (
        Result<(), TopologicalSortError>,
        Seq<SortStatus>,
        Seq<NodeHandle>,
    )
        decreases unseen_count(st), 0nat
        via Self::lemma_visit_decreases
    {
        if !self.live(h) || h.index >= st.len() {
            (Err(TopologicalSortError::MissingNode), st, out)
        } else if st[h.index as int] == SortStatus::Seen {
            (Err(TopologicalSortError::Cycle), st, out)
        } else if st[h.index as int] == SortStatus::Processed {
            (Ok(()), st, out)
        } else {
            self.visit_edges(h, 0, st.update(h.index as int, SortStatus::Seen), out)
        }
    }

    #[via_fn]
    proof fn lemma_visit_decreases(&self, h: NodeHandle, st: Seq<SortStatus>, out: Seq<NodeHandle>) {
        if self.live(h) && h.index < st.len() && st[h.index as int] == SortStatus::Unseen {
            lemma_unseen_count_update(st, h.index as int, SortStatus::Seen);
        }
    }

    /// The walk through the successors of `h` from the `j`-th on, then the
    /// emission of `h`.
    pub open spec fn visit_edges(
        &self,
        h: NodeHandle,
        j: int,
        st: Seq<SortStatus>,
        out: Seq<NodeHandle>,
    ) -> (Result<(), TopologicalSortError>, Seq<SortStatus>, Seq<NodeHandle>)
        decreases unseen_count(st), (self.edges_of(h).len() - j + 1) as nat,
    {
        if j < 0 || j >= self.edges_of(h).len() {
            (Ok(()), st.update(h.index as int, SortStatus::Processed), out.push(h))
        } else {
            let (r, st2, out2) = self.visit(self.edges_of(h)[j], st, out);
            if r is Err {
                (r, st2, out2)
            } else if unseen_count(st2) <= unseen_count(st) {
                self.visit_edges(h, j + 1, st2, out2)
            } else {
                // never taken (see `lemma_visit_keeps_unseen`); the test
                // above is what lets the measure go down
                (r, st2, out2)
            }
        }
    }

    /// A walk never adds `Unseen` marks and keeps the number of marks.
    pub proof fn lemma_visit_keeps_unseen(&self, h: NodeHandle, st: Seq<SortStatus>, out: Seq<NodeHandle>)
        ensures
            unseen_count(self.visit(h, st, out).1) <= unseen_count(st),
            self.visit(h, st, out).1.len() == st.len(),
        decreases unseen_count(st), 0nat,
    {
        if self.live(h) && h.index < st.len() && st[h.index as int] == SortStatus::Unseen {
            lemma_unseen_count_update(st, h.index as int, SortStatus::Seen);
            self.lemma_visit_edges_keeps_unseen(h, 0, st.update(h.index as int, SortStatus::Seen), out);
        }
    }

    /// The same for the walk through the successors of `h`.
    pub proof fn lemma_visit_edges_keeps_unseen(
        &self,
        h: NodeHandle,
        j: int,
        st: Seq<SortStatus>,
        out: Seq<NodeHandle>,
    )
        requires
            h.index < st.len(),
        ensures
            unseen_count(self.visit_edges(h, j, st, out).1) <= unseen_count(st),
            self.visit_edges(h, j, st, out).1.len() == st.len(),
        decreases unseen_count(st), (self.edges_of(h).len() - j + 1) as nat,
    {
        if j < 0 || j >= self.edges_of(h).len() {
            lemma_unseen_count_update(st, h.index as int, SortStatus::Processed);
        } else {
            self.lemma_visit_keeps_unseen(self.edges_of(h)[j], st, out);
            let (r, st2, out2) = self.visit(self.edges_of(h)[j], st, out);
            if r is Ok {
                self.lemma_visit_edges_keeps_unseen(h, j + 1, st2, out2);
            }
        }
    }

    /// The walks from `starts[k..]`, in order, stopping at the first error.
    pub open spec fn visit_all(
        &self,
        starts: Seq<NodeHandle>,
        k: int,
        st: Seq<SortStatus>,
        out: Seq<NodeHandle>,
    ) -> (Result<(), TopologicalSortError>, Seq<SortStatus>, Seq<NodeHandle>)
        decreases starts.len() - k,
    {
        if k < 0 || k >= starts.len() {
            (Ok(()), st, out)
        } else {
            let (r, st2, out2) = self.visit(starts[k], st, out);
            if r is Err {
                (r, st2, out2)
            } else {
                self.visit_all(starts, k + 1, st2, out2)
            }
        }
    }

    /// What `tsort` returns: the reversed emission order of the walks from
    /// every node in arena order, or the first error they meet.
    pub open spec fn sort_result(&self) -> Result<Seq<NodeHandle>, TopologicalSortError> {
        let (r, _st, out) = self.visit_all(
            self.arena().handles(),
            0,
            Seq::new(self.arena().slot_len(), |_i: int| SortStatus::Unseen),
            Seq::empty(),
        );
        match r {
            Ok(_) => Ok(out.reverse()),
            Err(e) => Err(e),
        }
    }

    /// `p` is a closed walk along edges of live nodes.
    pub open spec fn is_cycle(&self, p: Seq<NodeHandle>) -> bool {
        &&& p.len() >= 2
        &&& p[0] == p[p.len() - 1]
        &&& forall|i: int|
            0 <= i < p.len() - 1 ==> self.live(#[trigger] p[i]) && self.edges_of(p[i]).contains(
                p[i + 1],
            )
    }

    /// A sequence in which every successor of each entry appears after that
    /// entry holds no node of a cycle. Since a successful `tsort` lists every
    /// live node in such an order, a graph with a cycle gets an error.
    pub proof fn lemma_cycle_has_no_order(&self, p: Seq<NodeHandle>, v: Seq<NodeHandle>)
        requires
            self.is_cycle(p),
            forall|k: int, m: int|
                0 <= k < v.len() && 0 <= m < self.edges_of(v[k]).len() ==> {
                    &&& self.live(#[trigger] self.edges_of(v[k])[m])
                    &&& exists|j: int| k < j < v.len() && v[j] == self.edges_of(v[k])[m]
                },
        ensures
            !v.contains(p[0]),
    {
        if v.contains(p[0]) {
            let last = choose|k: int| 0 <= k < v.len() && v[k] == p[0] && forall|j: int|
                k < j < v.len() ==> v[j] != p[0];
            assert(exists|k: int| 0 <= k < v.len() && v[k] == p[0] && forall|j: int|
                k < j < v.len() ==> v[j] != p[0]) by {
                lemma_last_occurrence(v, p[0]);
            }
            self.lemma_walk_moves_later(p, v, last, p.len() - 1);
        }
    }

    /// Following `i` edges of `p` from an entry of `v` at `k` reaches an entry
    /// of `v` after `k`.
    proof fn lemma_walk_moves_later(&self, p: Seq<NodeHandle>, v: Seq<NodeHandle>, k: int, i: int)
        requires
            self.is_cycle(p),
            0 <= k < v.len(),
            v[k] == p[0],
            1 <= i < p.len(),
            forall|k: int, m: int|
                0 <= k < v.len() && 0 <= m < self.edges_of(v[k]).len() ==> {
                    &&& self.live(#[trigger] self.edges_of(v[k])[m])
                    &&& exists|j: int| k < j < v.len() && v[j] == self.edges_of(v[k])[m]
                },
        ensures
            exists|j: int| k < j < v.len() && v[j] == p[i],
        decreases i,
    {
        let (prev, base) = if i == 1 {
            (p[0], k)
        } else {
            self.lemma_walk_moves_later(p, v, k, i - 1);
            let j0 = choose|j: int| k < j < v.len() && v[j] == p[i - 1];
            (p[i - 1], j0)
        };
        assert(self.live(p[i - 1]) && self.edges_of(p[i - 1]).contains(p[i]));
        let m = choose|m: int| 0 <= m < self.edges_of(prev).len() && self.edges_of(prev)[m] == p[i];
        assert(self.live(self.edges_of(v[base])[m]));
    }

    /// `path` is the chain of nodes being explored, each with an edge to the
    /// next and the last with an edge to `h`; every node marked `Seen` is on it.
    spec fn on_path(&self, path: Seq<NodeHandle>, h: NodeHandle, status: Seq<SortStatus>) -> bool {
        &&& forall|a: int| 0 <= a < path.len() ==> self.live(#[trigger] path[a])
        &&& forall|a: int|
            0 <= a < path.len() - 1 ==> self.edges_of(#[trigger] path[a]).contains(path[a + 1])
        &&& path.len() > 0 ==> self.edges_of(path.last()).contains(h)
        &&& forall|q: int|
            0 <= q < status.len() && status[q] == SortStatus::Seen ==> exists|a: int|
                0 <= a < path.len() && #[trigger] path[a].index == q
    }

    /// Reversing an emission order in which successors come first gives one in
    /// which successors come later.
    proof fn lemma_reversed_walk_order(&self, sorted: Seq<NodeHandle>, out: Seq<NodeHandle>)
        requires
            out.len() == sorted.len(),
            forall|q: int| 0 <= q < out.len() ==> out[q] == sorted[sorted.len() - 1 - q],
            forall|k: int, m: int|
                0 <= k < sorted.len() && 0 <= m < self.edges_of(sorted[k]).len() ==> {
                    &&& self.live(#[trigger] self.edges_of(sorted[k])[m])
                    &&& exists|j: int| 0 <= j < k && sorted[j] == self.edges_of(sorted[k])[m]
                },
        ensures
            forall|k: int, m: int|
                0 <= k < out.len() && 0 <= m < self.edges_of(out[k]).len() ==> {
                    &&& self.live(#[trigger] self.edges_of(out[k])[m])
                    &&& exists|j: int| k < j < out.len() && out[j] == self.edges_of(out[k])[m]
                },
    {
        assert(forall|q: int| 0 <= q < out.len() ==> out[q] == sorted[sorted.len() - 1 - q]);
        let len = sorted.len();
        assert forall|a: int, b: int|
            0 <= a < out.len() && 0 <= b < self.edges_of(out[a]).len() implies {
                &&& self.live(#[trigger] self.edges_of(out[a])[b])
                &&& exists|j: int| a < j < out.len() && out[j] == self.edges_of(out[a])[b]
            } by {
            let ka = len - 1 - a;
            assert(out[a] == sorted[ka]);
            assert(0 <= b < self.edges_of(sorted[ka]).len());
            assert(self.live(self.edges_of(sorted[ka])[b]));
            let j = choose|j: int| 0 <= j < ka && sorted[j] == self.edges_of(sorted[ka])[b];
            assert(out[len - 1 - j] == sorted[j]);
            assert(a < len - 1 - j < out.len() && out[len - 1 - j] == self.edges_of(out[a])[b]);
        }
    }

    /// Marking an unseen node `Seen` keeps the walk's invariant.
    proof fn lemma_walk_inv_mark_seen(&self, sorted: Seq<NodeHandle>, status: Seq<SortStatus>, i: int)
        requires
            self.walk_inv(sorted, status),
            0 <= i < status.len(),
            status[i] == SortStatus::Unseen,
        ensures
            self.walk_inv(sorted, status.update(i, SortStatus::Seen)),
    {
        let st = status.update(i, SortStatus::Seen);
        assert forall|hh: NodeHandle|
            self.live(hh) && st[hh.index as int] == SortStatus::Processed implies
            #[trigger] sorted.contains(hh) by {
            assert(status[hh.index as int] == SortStatus::Processed);
        }
        assert forall|k: int| 0 <= k < sorted.len() implies {
            &&& self.live(#[trigger] sorted[k])
            &&& st[sorted[k].index as int] == SortStatus::Processed
        } by {
            assert(status[sorted[k].index as int] == SortStatus::Processed);
        }
    }

    /// What holds between the emitted nodes and the marks during the walk:
    /// emitted nodes are finished, finished nodes are emitted, and each
    /// emitted node's successors were emitted before it.
    spec fn walk_inv(&self, sorted: Seq<NodeHandle>, status: Seq<SortStatus>) -> bool {
        &&& status.len() == self.arena().slot_len()
        &&& sorted.no_duplicates()
        &&& forall|k: int|
            0 <= k < sorted.len() ==> {
                &&& self.live(#[trigger] sorted[k])
                &&& status[sorted[k].index as int] == SortStatus::Processed
            }
        &&& forall|h: NodeHandle|
            self.live(h) && status[h.index as int] == SortStatus::Processed ==> #[trigger] sorted.contains(h)
        &&& forall|k: int, m: int|
            0 <= k < sorted.len() && 0 <= m < self.edges_of(sorted[k]).len() ==> {
                &&& self.live(#[trigger] self.edges_of(sorted[k])[m])
                &&& exists|j: int| 0 <= j < k && sorted[j] == self.edges_of(sorted[k])[m]
            }
    }

    /// Orders the nodes so that each node comes before its successors: a
    /// depth-first walk from every node in arena order, following edges in
    /// insertion order, emits each node after its successors; the emitted
    /// sequence is then reversed. The walk stops at the first edge to a node
    /// that does not exist (`MissingNode`) or that is still being explored
    /// (`Cycle`).
    #[verifier::spinoff_prover]
    pub fn tsort(&self) -> (r: Result<Vec<NodeHandle>, TopologicalSortError>)
        requires
            self.wf(),
        ensures
            r matches Ok(v) ==> {
                &&& v@.len() == self.count()
                &&& v@.no_duplicates()
                &&& forall|k: int| 0 <= k < v@.len() ==> self.live(#[trigger] v@[k])
                &&& forall|h: NodeHandle| self.live(h) ==> #[trigger] v@.contains(h)
                &&& forall|k: int, m: int|
                    0 <= k < v@.len() && 0 <= m < self.edges_of(v@[k]).len() ==> {
                        &&& self.live(#[trigger] self.edges_of(v@[k])[m])
                        &&& exists|j: int| k < j < v@.len() && v@[j] == self.edges_of(v@[k])[m]
                    }
            },
            r == Err::<Vec<NodeHandle>, TopologicalSortError>(TopologicalSortError::MissingNode)
                ==> self.has_dangling_edge(),
            r == Err::<Vec<NodeHandle>, TopologicalSortError>(TopologicalSortError::Cycle) ==> exists|
                p: Seq<NodeHandle>,
            | self.is_cycle(p),
            !self.has_dangling_edge() && !(exists|p: Seq<NodeHandle>| self.is_cycle(p)) ==> r is Ok,
            r matches Ok(v) ==> self.sort_result() == Ok::<Seq<NodeHandle>, TopologicalSortError>(v@),
            r matches Err(e) ==> self.sort_result() == Err::<Seq<NodeHandle>, TopologicalSortError>(e),
    {
        let n = self.nodes.slot_count();
        let mut status: Vec<SortStatus> = Vec::new();
        let mut i: usize = 0;
        while i < n
            invariant
                i <= n,
                status@.len() == i,
                forall|q: int| 0 <= q < i ==> status@[q] == SortStatus::Unseen,
            decreases n - i,
        {
            status.push(SortStatus::Unseen);
            i += 1;
        }
        let mut sorted: Vec<NodeHandle> = Vec::new();
        let starts = self.nodes.iter();
        assert(status@ =~= Seq::new(self.arena().slot_len(), |_i: int| SortStatus::Unseen));
        let ghost whole = self.visit_all(starts@, 0, status@, sorted@);
        proof {
            self.nodes.lemma_handles_are_live();
        }
        let mut k: usize = 0;
        while k < starts.len()
            invariant
                self.wf(),
                starts@ == self.arena().handles(),
                k <= starts@.len(),
                self.walk_inv(sorted@, status@),
                forall|q: int| 0 <= q < starts@.len() ==> self.live(#[trigger] starts@[q]),
                forall|q: int| 0 <= q < k ==> status@[#[trigger] starts@[q].index as int]
                    == SortStatus::Processed,
                forall|q: int| 0 <= q < status@.len() ==> #[trigger] status@[q] != SortStatus::Seen,
                self.visit_all(starts@, k as int, status@, sorted@) == whole,
                whole == self.visit_all(
                    self.arena().handles(),
                    0,
                    Seq::new(self.arena().slot_len(), |_i: int| SortStatus::Unseen),
                    Seq::<NodeHandle>::empty(),
                ),
            decreases starts.len() - k,
        {
            let ghost s0 = status@;
            assert(self.on_path(Seq::empty(), starts@[k as int], status@));
            let res = self.tsort_internal(starts[k], &mut sorted, &mut status, Ghost(Seq::empty()));
            if let Err(e) = res {
                return Err(e);
            }
            proof {
                assert forall|q: int| 0 <= q < status@.len() implies #[trigger] status@[q]
                    != SortStatus::Seen by {
                    if status@[q] == SortStatus::Seen {
                        assert(s0[q] == SortStatus::Seen);
                    }
                }
                assert forall|q: int| 0 <= q < k + 1 implies status@[#[trigger] starts@[q].index as int]
                    == SortStatus::Processed by {
                    if q < k {
                        assert(s0[starts@[q].index as int] == SortStatus::Processed);
                    }
                }
            }
            k += 1;
        }
        proof {
            self.nodes.lemma_live_in_handles();
        }
        let mut out: Vec<NodeHandle> = Vec::new();
        let mut m: usize = sorted.len();
        while m > 0
            invariant
                m <= sorted@.len(),
                out@ == sorted@.subrange(m as int, sorted@.len() as int).reverse(),
            decreases m,
        {
            m -= 1;
            out.push(sorted[m]);
            assert(out@ =~= sorted@.subrange(m as int, sorted@.len() as int).reverse());
        }
        assert(sorted@.subrange(0, sorted@.len() as int) =~= sorted@);
        let ghost len = sorted@.len();
        assert forall|q: int| 0 <= q < out@.len() implies self.live(#[trigger] out@[q]) by {
            assert(out@[q] == sorted@[len - 1 - q]);
        }
        assert forall|h: NodeHandle| self.live(h) implies #[trigger] out@.contains(h) by {
            let q = choose|q: int| 0 <= q < starts@.len() && starts@[q] == h;
            assert(status@[starts@[q].index as int] == SortStatus::Processed);
            assert(sorted@.contains(h));
            let j = choose|j: int| 0 <= j < len && sorted@[j] == h;
            assert(out@[len - 1 - j] == h);
        }
        proof {
            self.lemma_reversed_walk_order(sorted@, out@);
        }
        proof {
            assert(out@.no_duplicates()) by {
                assert forall|x: int, y: int|
                    0 <= x < out@.len() && 0 <= y < out@.len() && x != y implies out@[x] != out@[y] by {
                    assert(out@[x] == sorted@[len - 1 - x]);
                    assert(out@[y] == sorted@[len - 1 - y]);
                }
            }
            self.nodes.lemma_handles_distinct();
            self.nodes.lemma_count_matches_handles();
            assert(out@.to_set() =~= self.arena().handles().to_set()) by {
                assert forall|x: NodeHandle| out@.to_set().contains(x) implies self.arena().handles().to_set().contains(x) by {
                    let q = choose|q: int| 0 <= q < out@.len() && out@[q] == x;
                    assert(self.live(out@[q]));
                }
                assert forall|x: NodeHandle| self.arena().handles().to_set().contains(x) implies out@.to_set().contains(x) by {
                    let q = choose|q: int| 0 <= q < starts@.len() && starts@[q] == x;
                    assert(self.live(starts@[q]));
                    assert(out@.contains(x));
                }
            }
            out@.unique_seq_to_set();
            self.arena().handles().unique_seq_to_set();
        }
        Ok(out)
    }

    /// Visits `h`: fails on a missing node or on a node on the current path,
    /// returns at once for a finished node, and otherwise visits every
    /// successor before emitting `h`.
    #[verifier::spinoff_prover]
    fn tsort_internal(
        &self,
        h: NodeHandle,
        sorted: &mut Vec<NodeHandle>,
        status: &mut Vec<SortStatus>,
        path: Ghost<Seq<NodeHandle>>,
    ) -> (r: Result<(), TopologicalSortError>)
        requires
            self.wf(),
            self.walk_inv(old(sorted)@, old(status)@),
            self.on_path(path@, h, old(status)@),
            self.live(h) || exists|u: NodeHandle, m: int|
                self.live(u) && 0 <= m < self.edges_of(u).len() && #[trigger] self.edges_of(u)[m] == h,
        ensures
            r == Err::<(), TopologicalSortError>(TopologicalSortError::MissingNode)
                ==> self.has_dangling_edge(),
            final(status)@.len() == old(status)@.len(),
            unseen_count(final(status)@) <= unseen_count(old(status)@),
            self.walk_inv(final(sorted)@, final(status)@),
            forall|q: int| 0 <= q < old(status)@.len() && old(status)@[q] == SortStatus::Processed
                ==> #[trigger] final(status)@[q] == SortStatus::Processed,
            forall|q: int| 0 <= q < old(status)@.len() && old(status)@[q] == SortStatus::Seen
                ==> #[trigger] final(status)@[q] == SortStatus::Seen,
            old(sorted)@.is_prefix_of(final(sorted)@),
            r is Ok ==> self.live(h) && final(status)@[h.index as int] == SortStatus::Processed,
            r is Ok ==> forall|q: int| 0 <= q < old(status)@.len() && #[trigger] final(status)@[q]
                == SortStatus::Seen ==> old(status)@[q] == SortStatus::Seen,
            !self.live(h) ==> r == Err::<(), TopologicalSortError>(TopologicalSortError::MissingNode),
            self.live(h) && old(status)@[h.index as int] == SortStatus::Seen ==> r == Err::<
                (),
                TopologicalSortError,
            >(TopologicalSortError::Cycle),
            self.live(h) && old(status)@[h.index as int] == SortStatus::Processed ==> {
                &&& r is Ok
                &&& final(sorted)@ == old(sorted)@
                &&& final(status)@ == old(status)@
            },
            r == Err::<(), TopologicalSortError>(TopologicalSortError::Cycle) ==> exists|
                p: Seq<NodeHandle>,
            | self.is_cycle(p),
            (r, final(status)@, final(sorted)@) == self.visit(h, old(status)@, old(sorted)@),
        decreases unseen_count(old(status)@),
    {
        match self.nodes.get(h) {
            None => Err(TopologicalSortError::MissingNode),
            Some(node) => {
                let i = h.index;
                let st = status[i];
                if st == SortStatus::Seen {
                    proof {
                        let a = choose|a: int| 0 <= a < path@.len() && #[trigger] path@[a].index
                            == h.index;
                        assert(path@[a] == h);
                        let p = path@.subrange(a, path@.len() as int).push(h);
                        assert forall|x: int| 0 <= x < p.len() - 1 implies self.live(#[trigger] p[x])
                            && self.edges_of(p[x]).contains(p[x + 1]) by {
                            assert(p[x] == path@[a + x]);
                            if x < p.len() - 2 {
                                assert(p[x + 1] == path@[a + x + 1]);
                                assert(self.edges_of(path@[a + x]).contains(path@[a + x + 1]));
                            }
                        }
                        assert(self.is_cycle(p));
                    }
                    return Err(TopologicalSortError::Cycle);
                }
                if st == SortStatus::Processed {
                    return Ok(());
                }
                proof {
                    lemma_unseen_count_update(status@, i as int, SortStatus::Seen);
                }
                let ghost s0 = status@;
                status.set(i, SortStatus::Seen);
                assert(self.visit(h, old(status)@, old(sorted)@) == self.visit_edges(h, 0, status@, sorted@));
                proof {
                    self.lemma_walk_inv_mark_seen(sorted@, s0, i as int);
                    assert(status@ == s0.update(i as int, SortStatus::Seen));
                }
                let ghost edges = node.edges@;
                let mut j: usize = 0;
                while j < node.edges.len()
                    invariant
                        self.wf(),
                        self.live(h),
                        *node == self.arena().value(h),
                        edges == node.edges@,
                        edges == self.edges_of(h),
                        j <= edges.len(),
                        i == h.index,
                        old(status)@.len() == self.arena().slot_len(),
                        unseen_count(status@) < unseen_count(old(status)@),
                        self.walk_inv(sorted@, status@),
                        status@[i as int] == SortStatus::Seen,
                        old(status)@[i as int] == SortStatus::Unseen,
                        self.on_path(path@, h, old(status)@),
                        forall|q: int| 0 <= q < status@.len() && #[trigger] status@[q]
                            == SortStatus::Seen ==> q == i || old(status)@[q] == SortStatus::Seen,
                        self.visit_edges(h, j as int, status@, sorted@) == self.visit(
                            h,
                            old(status)@,
                            old(sorted)@,
                        ),
                        forall|q: int| 0 <= q < old(status)@.len() && old(status)@[q]
                            == SortStatus::Processed ==> #[trigger] status@[q]
                            == SortStatus::Processed,
                        forall|q: int| 0 <= q < old(status)@.len() && old(status)@[q]
                            == SortStatus::Seen ==> #[trigger] status@[q] == SortStatus::Seen,
                        old(sorted)@.is_prefix_of(sorted@),
                        forall|q: int| 0 <= q < j ==> {
                            &&& self.live(#[trigger] edges[q])
                            &&& status@[edges[q].index as int] == SortStatus::Processed
                        },
                    decreases node.edges.len() - j,
                {
                    assert(self.edges_of(h)[j as int] == node.edges@[j as int]);
                    let ghost next = path@.push(h);
                    proof {
                        assert(next.last() == h);
                        assert(self.edges_of(h).contains(edges[j as int]));
                        assert forall|q: int| 0 <= q < status@.len() && status@[q] == SortStatus::Seen
                            implies exists|a: int| 0 <= a < next.len() && #[trigger] next[a].index == q by {
                            if q == i {
                                assert(next[path@.len() as int].index == q);
                            } else {
                                let a = choose|a: int| 0 <= a < path@.len() && #[trigger] path@[a].index
                                    == q;
                                assert(next[a] == path@[a]);
                            }
                        }
                        assert forall|a: int| 0 <= a < next.len() - 1 implies self.edges_of(
                            #[trigger] next[a],
                        ).contains(next[a + 1]) by {
                            assert(next[a] == path@[a]);
                            if a < next.len() - 2 {
                                assert(next[a + 1] == path@[a + 1]);
                            }
                        }
                        assert forall|a: int| 0 <= a < next.len() implies self.live(#[trigger] next[a]) by {
                            if a < path@.len() {
                                assert(next[a] == path@[a]);
                            }
                        }
                        assert(self.on_path(next, node.edges@[j as int], status@));
                    }
                    let ghost s_before = status@;
                    let ghost o_before = sorted@;
                    let res = self.tsort_internal(node.edges[j], sorted, status, Ghost(next));
                    proof {
                        assert(edges[j as int] == self.edges_of(h)[j as int]);
                        assert(self.visit_edges(h, j as int, s_before, o_before) == if res is Err {
                            (res, status@, sorted@)
                        } else {
                            self.visit_edges(h, j + 1, status@, sorted@)
                        });
                    }
                    if let Err(e) = res {
                        return Err(e);
                    }
                    proof {
                        assert forall|q: int| 0 <= q < status@.len() && #[trigger] status@[q]
                            == SortStatus::Seen implies q == i || old(status)@[q] == SortStatus::Seen by {
                            assert(s_before[q] == SortStatus::Seen);
                        }
                    }
                    j += 1;
                }
                let ghost before = sorted@;
                assert(!before.contains(h)) by {
                    if before.contains(h) {
                        let w = choose|w: int| 0 <= w < before.len() && before[w] == h;
                        assert(status@[before[w].index as int] == SortStatus::Processed);
                    }
                }
                sorted.push(h);
                proof {
                    lemma_unseen_count_update(status@, i as int, SortStatus::Processed);
                }
                let ghost s1 = status@;
                status.set(i, SortStatus::Processed);
                proof {
                    assert forall|k: int| 0 <= k < sorted@.len() implies {
                        &&& self.live(#[trigger] sorted@[k])
                        &&& status@[sorted@[k].index as int] == SortStatus::Processed
                    } by {
                        if k < before.len() {
                            assert(sorted@[k] == before[k]);
                        }
                    }
                    assert forall|hh: NodeHandle|
                        self.live(hh) && status@[hh.index as int] == SortStatus::Processed implies
                        #[trigger] sorted@.contains(hh) by {
                        if hh.index != h.index {
                            assert(s1[hh.index as int] == SortStatus::Processed);
                            assert(before.contains(hh));
                            let w = choose|w: int| 0 <= w < before.len() && before[w] == hh;
                            assert(sorted@[w] == hh);
                        } else {
                            assert(hh == h);
                            assert(sorted@[before.len() as int] == h);
                        }
                    }
                    assert forall|k: int, m: int|
                        0 <= k < sorted@.len() && 0 <= m < self.edges_of(sorted@[k]).len()
                        implies {
                            &&& self.live(#[trigger] self.edges_of(sorted@[k])[m])
                            &&& exists|jj: int| 0 <= jj < k && sorted@[jj] == self.edges_of(sorted@[k])[m]
                        } by {
                        if k < before.len() {
                            assert(sorted@[k] == before[k]);
                            let w = choose|w: int| 0 <= w < k && before[w] == self.edges_of(before[k])[m];
                            assert(sorted@[w] == before[w]);
                        } else {
                            let e = edges[m];
                            assert(s1[e.index as int] == SortStatus::Processed);
                            assert(before.contains(e));
                            let w = choose|w: int| 0 <= w < before.len() && before[w] == e;
                            assert(sorted@[w] == e);
                        }
                    }
                    assert forall|q: int| 0 <= q < old(status)@.len() && old(status)@[q]
                        == SortStatus::Processed implies #[trigger] status@[q]
                        == SortStatus::Processed by {
                        assert(s1[q] == SortStatus::Processed);
                    }
                    assert forall|q: int| 0 <= q < old(status)@.len() && old(status)@[q]
                        == SortStatus::Seen implies #[trigger] status@[q] == SortStatus::Seen by {
                        assert(s1[q] == SortStatus::Seen);
                    }
                    assert forall|q: int| 0 <= q < old(status)@.len() && #[trigger] status@[q]
                        == SortStatus::Seen implies old(status)@[q] == SortStatus::Seen by {
                        assert(s1[q] == SortStatus::Seen);
                    }
                    assert(self.walk_inv(sorted@, status@));
                }
                Ok(())
            },
        }
    }
}

} // verus!

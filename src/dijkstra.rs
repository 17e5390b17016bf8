//! Dijkstra's shortest paths with a lazily pruned frontier, one pop per step.
use std::collections::HashMap;
use vstd::std_specs::iter::IteratorSpec;
use vstd::prelude::*;

verus! {

broadcast use vstd::std_specs::hash::group_hash_axioms;

/// The distance recorded for `v`, or `usize::MAX` ("unreached") where none is.
pub open spec fn dist_of(dist: Map<usize, usize>, v: usize) -> usize {
    if dist.contains_key(v) {
        dist[v]
    } else {
        usize::MAX
    }
}

/// `a + b`, held at `usize::MAX`.
pub open spec fn sat_add(a: usize, b: usize) -> usize {
    if a + b > usize::MAX {
        usize::MAX
    } else {
        (a + b) as usize
    }
}

/// The frontier's order: by cost, then by node.
pub open spec fn entry_lt(a: (usize, usize), b: (usize, usize)) -> bool {
    a.0 < b.0 || (a.0 == b.0 && a.1 < b.1)
}

/// Position of the first least entry of a non-empty frontier.
pub open spec fn min_index(h: Seq<(usize, usize)>) -> int
    decreases h.len(),
{
    if h.len() <= 1 {
        0
    } else {
        let j = min_index(h.drop_last());
        if entry_lt(h.last(), h[j]) {
            h.len() - 1
        } else {
            j
        }
    }
}

proof fn lemma_min_index(h: Seq<(usize, usize)>)
    requires
        h.len() > 0,
    ensures
        0 <= min_index(h) < h.len(),
        forall|k: int| 0 <= k < h.len() ==> !entry_lt(#[trigger] h[k], h[min_index(h)]),
    decreases h.len(),
{
    if h.len() > 1 {
        let t = h.drop_last();
        lemma_min_index(t);
        assert forall|k: int| 0 <= k < h.len() implies !entry_lt(#[trigger] h[k], h[min_index(h)]) by {
            if k < h.len() - 1 {
                assert(h[k] == t[k]);
            }
        }
    }
}

/// Distances, predecessors and frontier, as one relaxation leaves them.
pub struct Relaxed {
    pub dist: Map<usize, usize>,
    pub prev: Map<usize, Option<usize>>,
    pub heap: Seq<(usize, usize)>,
}

/// Relaxes edge `e = (v, w)` out of `u`, reached at cost `c`.
pub open spec fn relax_edge(st: Relaxed, u: usize, c: usize, e: (usize, usize)) -> Relaxed {
    let new_cost = sat_add(c, e.1);
    if new_cost < dist_of(st.dist, e.0) {
        Relaxed {
            dist: st.dist.insert(e.0, new_cost),
            prev: st.prev.insert(e.0, Some(u)),
            heap: st.heap.push((new_cost, e.0)),
        }
    } else {
        st
    }
}

/// Relaxes `edges` in order.
pub open spec fn relax_edges(st: Relaxed, u: usize, c: usize, edges: Seq<(usize, usize)>) -> Relaxed
    decreases edges.len(),
{
    if edges.len() == 0 {
        st
    } else {
        relax_edge(relax_edges(st, u, c, edges.drop_last()), u, c, edges.last())
    }
}

pub struct DijkstraVisualizer {
    graph: HashMap<usize, Vec<(usize, usize)>>,
    distances: HashMap<usize, usize>,
    previous: HashMap<usize, Option<usize>>,
    visited: Vec<usize>,
    current: Option<usize>,
    source: usize,
    target: Option<usize>,
    is_running: bool,
    last_step_time: Option<u64>,
    auto_play: bool,
    heap: Vec<(usize, usize)>,
}

/// What a `DijkstraVisualizer` holds, as mathematical values. The frontier
/// `heap` is a sequence whose order carries no meaning: it is popped by `entry_lt`.
pub struct DijkstraState {
    pub graph: Map<usize, Vec<(usize, usize)>>,
    pub dist: Map<usize, usize>,
    pub prev: Map<usize, Option<usize>>,
    pub visited: Seq<usize>,
    pub current: Option<usize>,
    pub source: usize,
    pub target: Option<usize>,
    pub is_running: bool,
    pub last_step_time: Option<u64>,
    pub auto_play: bool,
    pub heap: Seq<(usize, usize)>,
}

impl View for DijkstraVisualizer {
    type V = DijkstraState;

    closed spec fn view(&self) -> DijkstraState {
        DijkstraState {
            graph: self.graph@,
            dist: self.distances@,
            prev: self.previous@,
            visited: self.visited@,
            current: self.current,
            source: self.source,
            target: self.target,
            is_running: self.is_running,
            last_step_time: self.last_step_time,
            auto_play: self.auto_play,
            heap: self.heap@,
        }
    }
}

impl DijkstraState {
    /// The frontier entry that the next step pops.
    pub open spec fn popped(&self) -> (usize, usize) {
        self.heap[min_index(self.heap)]
    }

    /// The frontier once that entry is gone.
    pub open spec fn rest(&self) -> Seq<(usize, usize)> {
        self.heap.remove(min_index(self.heap))
    }

    /// The edges out of `u`; none for a node outside the graph.
    pub open spec fn out_edges(&self, u: usize) -> Seq<(usize, usize)> {
        if self.graph.contains_key(u) {
            self.graph[u]@
        } else {
            Seq::empty()
        }
    }

    /// Distances, predecessors and frontier once the popped node has relaxed its edges.
    pub open spec fn after_relax(&self) -> Relaxed {
        relax_edges(
            Relaxed { dist: self.dist, prev: self.prev, heap: self.rest() },
            self.popped().1,
            self.popped().0,
            self.out_edges(self.popped().1),
        )
    }

    /// Midway through the relaxation of `node`'s edges, reached at `cost`: the first
    /// `k` of them are done.
    pub open spec fn relaxing(&self, node: usize, cost: usize, k: int) -> bool {
        &&& self.wf_core()
        &&& forall|x: usize|
            #[trigger] self.visited.contains(x) && self.target != Some(x) && x != node
                ==> self.relaxed_from(x)
        &&& self.relaxed_upto(node, k)
        &&& dist_of(self.dist, node) == cost
        &&& self.visited.len() > 0
        &&& self.visited.last() == node
        &&& self.target != Some(node)
    }

    proof fn lemma_rest(&self)
        requires
            self.heap.len() > 0,
        ensures
            forall|j: int|
                0 <= j < self.rest().len() ==> (#[trigger] self.rest()[j] == self.heap[j] && j
                    < min_index(self.heap)) || (self.rest()[j] == self.heap[j + 1] && j >= min_index(
                    self.heap,
                )),
            forall|j: int|
                0 <= j < self.rest().len() ==> !entry_lt(#[trigger] self.rest()[j], self.popped()),
            forall|e: (usize, usize)|
                #[trigger] self.heap.contains(e) && e != self.popped() ==> self.rest().contains(e),
            self.rest().len() == self.heap.len() - 1,
    {
        lemma_min_index(self.heap);
        let i = min_index(self.heap);
        assert forall|e: (usize, usize)| #[trigger] self.heap.contains(e) && e != self.popped() implies self.rest().contains(e) by {
            let j = choose|j: int| 0 <= j < self.heap.len() && self.heap[j] == e;
            if j < i {
                assert(self.rest()[j] == e);
            } else {
                assert(self.rest()[j - 1] == e);
            }
        }
        assert forall|j: int| 0 <= j < self.rest().len() implies !entry_lt(#[trigger] self.rest()[j], self.popped()) by {
            if j < i {
                assert(self.rest()[j] == self.heap[j]);
            } else {
                assert(self.rest()[j] == self.heap[j + 1]);
            }
        }
    }

    /// Dropping a frontier entry of a settled node keeps the invariant.
    proof fn lemma_drop_settled(&self, next: DijkstraState)
        requires
            self.wf(),
            self.heap.len() > 0,
            self.visited.contains(self.popped().1),
            next == (DijkstraState { heap: self.rest(), ..*self }),
        ensures
            next.wf(),
    {
        self.lemma_rest();
        assert forall|v: usize| !next.visited.contains(v) && #[trigger] dist_of(next.dist, v) < usize::MAX
            implies next.heap.contains((dist_of(next.dist, v), v)) by {
            assert(self.heap.contains((dist_of(self.dist, v), v)));
            assert((dist_of(self.dist, v), v) != self.popped());
        }
        assert forall|j: int| 0 <= j < next.heap.len() implies dist_of(next.dist, (#[trigger] next.heap[j]).1) <= next.heap[j].0 by {
            if j < min_index(self.heap) {
                assert(next.heap[j] == self.heap[j]);
            } else {
                assert(next.heap[j] == self.heap[j + 1]);
            }
        }
        assert(next.visited.len() > 0 ==> forall|j: int|
            0 <= j < next.heap.len() && !next.visited.contains(#[trigger] next.heap[j].1)
                ==> next.heap[j].0 >= dist_of(next.dist, next.visited.last())) by {
            if next.visited.len() > 0 {
                assert forall|j: int| 0 <= j < next.heap.len() && !next.visited.contains(#[trigger] next.heap[j].1)
                    implies next.heap[j].0 >= dist_of(next.dist, next.visited.last()) by {
                    if j < min_index(self.heap) {
                        assert(next.heap[j] == self.heap[j]);
                    } else {
                        assert(next.heap[j] == self.heap[j + 1]);
                    }
                }
            }
        }
    }

    /// Settling the popped node keeps all of the invariant but the relaxation of its edges.
    proof fn lemma_settle(&self, next: DijkstraState)
        requires
            self.wf(),
            self.heap.len() > 0,
            !self.visited.contains(self.popped().1),
            next == (DijkstraState {
                heap: self.rest(),
                visited: self.visited.push(self.popped().1),
                current: Some(self.popped().1),
                ..*self
            }),
        ensures
            next.target != Some(self.popped().1) ==> next.relaxing(self.popped().1, self.popped().0, 0),
            next.target == Some(self.popped().1) ==> next.wf(),
            dist_of(next.dist, self.popped().1) == self.popped().0,
    {
        self.lemma_rest();
        lemma_min_index(self.heap);
        let (cost, node) = self.popped();
        assert(next.visited[self.visited.len() as int] == node);
        assert(next.visited.contains(node));
        if dist_of(self.dist, node) < usize::MAX {
            let j = choose|j: int| 0 <= j < self.heap.len() && self.heap[j] == (dist_of(self.dist, node), node);
            assert(!entry_lt(self.heap[j], self.popped()));
        }
        assert(dist_of(self.dist, node) == cost);
        assert forall|x: usize| #[trigger] next.visited.contains(x) implies self.visited.contains(x) || x == node by {
            let j = choose|j: int| 0 <= j < next.visited.len() && next.visited[j] == x;
            if j < self.visited.len() {
                assert(self.visited[j] == x);
            }
        }
        assert forall|x: usize| #[trigger] self.visited.contains(x) implies next.visited.contains(x) by {
            let j = choose|j: int| 0 <= j < self.visited.len() && self.visited[j] == x;
            assert(next.visited[j] == x);
        }
        self.lemma_settle_order(next);
        assert forall|v: usize| !next.visited.contains(v) && #[trigger] dist_of(next.dist, v) < usize::MAX
            implies next.heap.contains((dist_of(next.dist, v), v)) by {
            assert(v != node);
            assert(!self.visited.contains(v));
            assert(self.heap.contains((dist_of(self.dist, v), v)));
            assert((dist_of(self.dist, v), v) != self.popped());
        }
        assert forall|j: int| 0 <= j < next.heap.len() && !next.visited.contains(#[trigger] next.heap[j].1)
            implies next.heap[j].0 >= dist_of(next.dist, next.visited.last()) by {
            assert(!entry_lt(self.rest()[j], self.popped()));
        }
        assert forall|j: int| 0 <= j < next.heap.len() implies dist_of(next.dist, (#[trigger] next.heap[j]).1) <= next.heap[j].0 by {
            if j < min_index(self.heap) {
                assert(next.heap[j] == self.heap[j]);
            } else {
                assert(next.heap[j] == self.heap[j + 1]);
            }
        }
        assert forall|j: int| 0 <= j < next.heap.len() implies (#[trigger] next.heap[j]).0 < usize::MAX by {
            if j < min_index(self.heap) {
                assert(next.heap[j] == self.heap[j]);
            } else {
                assert(next.heap[j] == self.heap[j + 1]);
            }
        }
        assert(next.visited.last() == node);
        assert(next.frontier_ok());
        assert forall|v: usize| #[trigger] next.prev.contains_key(v) && next.prev[v] is Some implies next.visited.contains(next.prev[v]->Some_0) by {
            assert(self.visited.contains(self.prev[v]->Some_0));
        }
        assert(next.preds_ok());
        assert(next.source_ok());
        assert(next.wf_core());
    }

    /// Settling the popped node keeps the settled nodes distinct, finite and in order.
    proof fn lemma_settle_order(&self, next: DijkstraState)
        requires
            self.settled_ok(),
            self.frontier_ok(),
            self.heap.len() > 0,
            !self.visited.contains(self.popped().1),
            next == (DijkstraState {
                heap: self.rest(),
                visited: self.visited.push(self.popped().1),
                current: Some(self.popped().1),
                ..*self
            }),
            dist_of(self.dist, self.popped().1) == self.popped().0,
        ensures
            next.settled_ok(),
    {
        lemma_min_index(self.heap);
        let (cost, node) = self.popped();
        assert(self.heap[min_index(self.heap)].0 < usize::MAX);
        assert(cost < usize::MAX);
        assert forall|a: int, b: int| 0 <= a < b < next.visited.len() implies next.visited[a] != next.visited[b] by {
            assert(next.visited[a] == self.visited[a]);
            if b == self.visited.len() {
                assert(self.visited.contains(self.visited[a]));
                assert(next.visited[b] == node);
            } else {
                assert(next.visited[b] == self.visited[b]);
            }
        }
        assert forall|i: int| 0 <= i < next.visited.len() implies dist_of(next.dist, #[trigger] next.visited[i]) < usize::MAX by {
            if i < self.visited.len() {
                assert(next.visited[i] == self.visited[i]);
            }
        }
        assert forall|a: int, b: int| 0 <= a < b < next.visited.len() implies dist_of(next.dist,
            #[trigger] next.visited[a],
        ) <= dist_of(next.dist, #[trigger] next.visited[b]) by {
            if b == self.visited.len() && self.visited.len() > 0 {
                assert(dist_of(self.dist, self.visited[a]) <= dist_of(self.dist, self.visited.last()));
                let i = min_index(self.heap);
                assert(!self.visited.contains(self.heap[i].1));
                assert(self.heap[i].0 >= dist_of(self.dist, self.visited.last()));
            }
        }
    }

    /// The facts that relaxing an improving edge `k` of `node` rests on.
    pub open spec fn improving(&self, next: DijkstraState, node: usize, cost: usize, k: int) -> bool {
        &&& self.relaxing(node, cost, k)
        &&& self.graph.contains_key(node)
        &&& 0 <= k < self.graph[node]@.len()
        &&& sat_add(cost, self.graph[node]@[k].1) < dist_of(self.dist, self.graph[node]@[k].0)
        &&& next == (DijkstraState {
            dist: relax_edge(Relaxed { dist: self.dist, prev: self.prev, heap: self.heap }, node, cost, self.graph[node]@[k]).dist,
            prev: relax_edge(Relaxed { dist: self.dist, prev: self.prev, heap: self.heap }, node, cost, self.graph[node]@[k]).prev,
            heap: relax_edge(Relaxed { dist: self.dist, prev: self.prev, heap: self.heap }, node, cost, self.graph[node]@[k]).heap,
            ..*self
        })
    }

    /// Every settled node is within `cost`, the distance of the last one.
    proof fn lemma_settled_within(&self, node: usize, cost: usize)
        requires
            self.settled_ok(),
            self.visited.len() > 0,
            self.visited.last() == node,
            dist_of(self.dist, node) == cost,
        ensures
            forall|x: usize| #[trigger] self.visited.contains(x) ==> dist_of(self.dist, x) <= cost,
    {
        assert forall|x: usize| #[trigger] self.visited.contains(x) implies dist_of(self.dist, x) <= cost by {
            let j = choose|j: int| 0 <= j < self.visited.len() && self.visited[j] == x;
            if j < self.visited.len() - 1 {
                assert(dist_of(self.dist, self.visited[j]) <= dist_of(self.dist, self.visited[self.visited.len() - 1]));
            }
        }
    }

    proof fn lemma_improve_frontier(&self, next: DijkstraState, node: usize, cost: usize, k: int)
        requires
            self.improving(next, node, cost, k),
        ensures
            next.frontier_ok(),
            next.settled_ok(),
            next.source_ok(),
    {
        let (neighbor, weight) = self.graph[node]@[k];
        self.lemma_settled_within(node, cost);
        assert(!self.visited.contains(neighbor));
        assert forall|x: usize| x != neighbor implies #[trigger] dist_of(next.dist, x) == dist_of(self.dist, x) by {}
        assert forall|j: int| 0 <= j < next.heap.len() implies dist_of(next.dist, (#[trigger] next.heap[j]).1) <= next.heap[j].0 by {
            if j < self.heap.len() {
                assert(next.heap[j] == self.heap[j]);
            }
        }
        assert forall|v: usize| !next.visited.contains(v) && #[trigger] dist_of(next.dist, v) < usize::MAX
            implies next.heap.contains((dist_of(next.dist, v), v)) by {
            if v == neighbor {
                assert(next.heap[next.heap.len() - 1] == (dist_of(next.dist, v), v));
            } else {
                let j = choose|j: int| 0 <= j < self.heap.len() && self.heap[j] == (dist_of(self.dist, v), v);
                assert(next.heap[j] == self.heap[j]);
            }
        }
        assert forall|j: int| 0 <= j < next.heap.len() && !next.visited.contains(#[trigger] next.heap[j].1)
            implies next.heap[j].0 >= dist_of(next.dist, next.visited.last()) by {
            if j < self.heap.len() {
                assert(next.heap[j] == self.heap[j]);
            }
        }
        assert forall|a: int, b: int| 0 <= a < b < next.visited.len() implies dist_of(next.dist,
            #[trigger] next.visited[a],
        ) <= dist_of(next.dist, #[trigger] next.visited[b]) by {
            assert(dist_of(self.dist, self.visited[a]) <= dist_of(self.dist, self.visited[b]));
        }
    }

    proof fn lemma_improve_preds(&self, next: DijkstraState, node: usize, cost: usize, k: int)
        requires
            self.improving(next, node, cost, k),
        ensures
            next.preds_ok(),
    {
        let (neighbor, weight) = self.graph[node]@[k];
        self.lemma_settled_within(node, cost);
        assert(!self.visited.contains(neighbor));
        assert(neighbor != node);
        assert(next.visited == self.visited && next.graph == self.graph);
        assert forall|v: usize| #[trigger] next.prev.contains_key(v) && next.prev[v] is Some implies {
            let u = next.prev[v]->Some_0;
            &&& next.visited.contains(u)
            &&& next.graph.contains_key(u)
            &&& exists|kk: int|
                0 <= kk < next.graph[u]@.len() && #[trigger] next.graph[u]@[kk].0 == v && dist_of(next.dist, v)
                    == dist_of(next.dist, u) + next.graph[u]@[kk].1
        } by {
            if v == neighbor {
                assert(next.visited[next.visited.len() - 1] == node);
                assert(next.visited.contains(node));
                assert(next.prev[v] == Some(node));
                assert(next.graph.contains_key(node));
                let w = next.prev[v]->Some_0;
                assert(w == node);
                assert(0 <= k < next.graph[w]@.len() && next.graph[w]@[k].0 == v && dist_of(next.dist, v) == dist_of(next.dist, w) + next.graph[w]@[k].1);
            } else {
                let u = self.prev[v]->Some_0;
                assert(self.visited.contains(u));
                assert(u != neighbor);
                assert(next.prev[v] == self.prev[v]);
                assert(dist_of(next.dist, u) == dist_of(self.dist, u));
                assert(dist_of(next.dist, v) == dist_of(self.dist, v));
                let kk = choose|kk: int|
                    0 <= kk < self.graph[u]@.len() && #[trigger] self.graph[u]@[kk].0 == v && dist_of(self.dist, v)
                        == dist_of(self.dist, u) + self.graph[u]@[kk].1;
                assert(next.visited.contains(u));
                assert(next.graph.contains_key(u));
                let w = next.prev[v]->Some_0;
                assert(w == u);
                assert(0 <= kk < next.graph[w]@.len() && next.graph[w]@[kk].0 == v && dist_of(next.dist, v)
                    == dist_of(next.dist, w) + next.graph[w]@[kk].1);
            }
        }
    }

    proof fn lemma_improve_paths(&self, next: DijkstraState, node: usize, cost: usize, k: int)
        requires
            self.improving(next, node, cost, k),
        ensures
            next.preds_ok(),
            forall|x: usize|
                #[trigger] next.visited.contains(x) && next.target != Some(x) && x != node
                    ==> next.relaxed_from(x),
            next.relaxed_upto(node, k + 1),
            dist_of(next.dist, node) == cost,
    {
        let (neighbor, weight) = self.graph[node]@[k];
        self.lemma_settled_within(node, cost);
        assert(!self.visited.contains(neighbor));
        assert(neighbor != node);
        assert forall|x: usize| x != neighbor implies #[trigger] dist_of(next.dist, x) == dist_of(self.dist, x) by {}
        assert forall|x: usize| #[trigger] dist_of(next.dist, x) <= dist_of(self.dist, x) by {}
        assert forall|u: usize| #[trigger] next.visited.contains(u) && next.target != Some(u) && u != node
            implies next.relaxed_from(u) by {
            assert(self.relaxed_from(u));
            if next.graph.contains_key(u) {
                assert forall|kk: int| 0 <= kk < next.graph[u]@.len() implies dist_of(next.dist, #[trigger] next.graph[u]@[kk].0)
                    <= sat_add(dist_of(next.dist, u), next.graph[u]@[kk].1) by {
                    assert(dist_of(self.dist, self.graph[u]@[kk].0) <= sat_add(dist_of(self.dist, u), self.graph[u]@[kk].1));
                }
            }
        }
        assert forall|kk: int| 0 <= kk < k + 1 && kk < next.graph[node]@.len() implies dist_of(next.dist,
            #[trigger] next.graph[node]@[kk].0,
        ) <= sat_add(dist_of(next.dist, node), next.graph[node]@[kk].1) by {
            if kk < k {
                assert(dist_of(self.dist, self.graph[node]@[kk].0) <= sat_add(dist_of(self.dist, node), self.graph[node]@[kk].1));
            }
        }
        self.lemma_improve_preds(next, node, cost, k);
    }

    /// Relaxing edge `k` of `node` advances the relaxation by one edge.
    proof fn lemma_relax_edge(&self, next: DijkstraState, node: usize, cost: usize, k: int)
        requires
            self.relaxing(node, cost, k),
            self.graph.contains_key(node),
            0 <= k < self.graph[node]@.len(),
            next == (DijkstraState {
                dist: relax_edge(Relaxed { dist: self.dist, prev: self.prev, heap: self.heap }, node, cost, self.graph[node]@[k]).dist,
                prev: relax_edge(Relaxed { dist: self.dist, prev: self.prev, heap: self.heap }, node, cost, self.graph[node]@[k]).prev,
                heap: relax_edge(Relaxed { dist: self.dist, prev: self.prev, heap: self.heap }, node, cost, self.graph[node]@[k]).heap,
                ..*self
            }),
        ensures
            next.relaxing(node, cost, k + 1),
    {
        if sat_add(cost, self.graph[node]@[k].1) < dist_of(self.dist, self.graph[node]@[k].0) {
            self.lemma_improve_frontier(next, node, cost, k);
            self.lemma_improve_paths(next, node, cost, k);
        } else {
            assert(next == *self);
            assert forall|kk: int| 0 <= kk < k + 1 && kk < next.graph[node]@.len() implies dist_of(next.dist,
                #[trigger] next.graph[node]@[kk].0,
            ) <= sat_add(dist_of(next.dist, node), next.graph[node]@[kk].1) by {
                if kk < k {
                    assert(dist_of(self.dist, self.graph[node]@[kk].0) <= sat_add(dist_of(self.dist, node), self.graph[node]@[kk].1));
                }
            }
        }
    }

    /// One step: a stopped search changes nothing; an empty frontier stops the
    /// search; otherwise pop the least entry, drop it if its node is settled, else
    /// settle the node and either stop (it is the target) or relax its edges.
    pub open spec fn after_step(&self) -> DijkstraState {
        if !self.is_running {
            *self
        } else if self.heap.len() == 0 {
            DijkstraState { is_running: false, ..*self }
        } else if self.visited.contains(self.popped().1) {
            DijkstraState { heap: self.rest(), ..*self }
        } else if self.target == Some(self.popped().1) {
            DijkstraState {
                heap: self.rest(),
                visited: self.visited.push(self.popped().1),
                current: Some(self.popped().1),
                is_running: false,
                ..*self
            }
        } else {
            DijkstraState {
                dist: self.after_relax().dist,
                prev: self.after_relax().prev,
                heap: self.after_relax().heap,
                visited: self.visited.push(self.popped().1),
                current: Some(self.popped().1),
                ..*self
            }
        }
    }

    /// `next` is this state after `start`: with the source in the graph, the search
    /// runs with auto-play on and the frontier seeded with the source if it was
    /// empty; otherwise nothing changes.
    pub open spec fn started(&self, next: DijkstraState) -> bool {
        &&& !self.graph.contains_key(self.source) ==> next == *self
        &&& self.graph.contains_key(self.source) ==> next == (DijkstraState {
            is_running: true,
            auto_play: true,
            heap: if self.heap.len() == 0 {
                seq![(0usize, self.source)]
            } else {
                self.heap
            },
            ..*self
        })
    }

    /// The search has stopped: stepping changes nothing.
    pub open spec fn is_done(&self) -> bool {
        !self.is_running
    }

    /// Every edge out of `u` has been relaxed: its head is no farther than `u` plus the weight.
    pub open spec fn relaxed_from(&self, u: usize) -> bool {
        self.graph.contains_key(u) ==> forall|k: int|
            0 <= k < self.graph[u]@.len() ==> dist_of(self.dist, #[trigger] self.graph[u]@[k].0) <= sat_add(
                dist_of(self.dist, u),
                self.graph[u]@[k].1,
            )
    }

    /// The first `n` edges out of `u` have been relaxed.
    pub open spec fn relaxed_upto(&self, u: usize, n: int) -> bool {
        self.graph.contains_key(u) ==> forall|k: int|
            0 <= k < n && k < self.graph[u]@.len() ==> dist_of(self.dist, #[trigger] self.graph[u]@[k].0)
                <= sat_add(dist_of(self.dist, u), self.graph[u]@[k].1)
    }

    /// The invariant of the lazily pruned frontier.
    pub open spec fn wf(&self) -> bool {
        &&& self.wf_core()
        // every settled node but a reached target has relaxed its edges
        &&& forall|u: usize|
            #[trigger] self.visited.contains(u) && self.target != Some(u) ==> self.relaxed_from(u)
    }

    /// The invariant does not depend on the running and auto-play flags or the time.
    proof fn lemma_wf_ignores_flags(&self, other: DijkstraState)
        requires
            self.wf(),
            other == (DijkstraState {
                is_running: other.is_running,
                auto_play: other.auto_play,
                last_step_time: other.last_step_time,
                ..*self
            }),
        ensures
            other.wf(),
    {
        assert(other.frontier_ok() == self.frontier_ok());
        assert(other.settled_ok() == self.settled_ok());
        assert(other.preds_ok() == self.preds_ok());
        assert(other.source_ok() == self.source_ok());
        assert forall|u: usize| #[trigger] other.visited.contains(u) && other.target != Some(u) implies other.relaxed_from(u) by {
            assert(self.relaxed_from(u));
            assert(other.graph == self.graph && other.dist == self.dist);
            if other.graph.contains_key(u) {
                assert forall|k: int| 0 <= k < other.graph[u]@.len() implies dist_of(other.dist, #[trigger] other.graph[u]@[k].0)
                    <= sat_add(dist_of(other.dist, u), other.graph[u]@[k].1) by {
                    assert(dist_of(self.dist, self.graph[u]@[k].0) <= sat_add(dist_of(self.dist, u), self.graph[u]@[k].1));
                }
            }
        }
    }

    /// `wf`, kept folded where a proof only passes it along.
    #[verifier::opaque]
    pub open spec fn wf_folded(&self) -> bool {
        self.wf()
    }

    /// The invariant, but for the relaxation of the settled nodes' edges.
    pub open spec fn wf_core(&self) -> bool {
        &&& self.frontier_ok()
        &&& self.settled_ok()
        &&& self.preds_ok()
        &&& self.source_ok()
    }

    /// Each frontier cost is finite; each frontier entry is no better than the distance recorded for its node; each
    /// reached node that is not settled has its own distance on the frontier; and
    /// nothing on the frontier for an unsettled node is closer than the last settled one.
    pub open spec fn frontier_ok(&self) -> bool {
        &&& forall|i: int| 0 <= i < self.heap.len() ==> (#[trigger] self.heap[i]).0 < usize::MAX
        &&& forall|i: int|
            0 <= i < self.heap.len() ==> dist_of(self.dist, (#[trigger] self.heap[i]).1) <= self.heap[i].0
        &&& forall|v: usize|
            !self.visited.contains(v) && #[trigger] dist_of(self.dist, v) < usize::MAX ==> self.heap.contains(
                (dist_of(self.dist, v), v),
            )
        &&& self.visited.len() > 0 ==> forall|i: int|
            0 <= i < self.heap.len() && !self.visited.contains(#[trigger] self.heap[i].1)
                ==> self.heap[i].0 >= dist_of(self.dist, self.visited.last())
    }

    /// Nodes are settled once each, at a finite distance, in order of distance.
    pub open spec fn settled_ok(&self) -> bool {
        &&& self.visited.no_duplicates()
        &&& forall|i: int| 0 <= i < self.visited.len() ==> dist_of(self.dist, #[trigger] self.visited[i]) < usize::MAX
        &&& forall|i: int, j: int|
            0 <= i < j < self.visited.len() ==> dist_of(self.dist, #[trigger] self.visited[i]) <= dist_of(
                self.dist,
                #[trigger] self.visited[j],
            )
    }

    /// Each recorded predecessor is settled and gives the recorded distance through
    /// one of its edges.
    pub open spec fn preds_ok(&self) -> bool {
        forall|v: usize|
            #[trigger] self.prev.contains_key(v) && self.prev[v] is Some ==> {
                let u = self.prev[v]->Some_0;
                &&& self.visited.contains(u)
                &&& self.graph.contains_key(u)
                &&& exists|k: int|
                    0 <= k < self.graph[u]@.len() && #[trigger] self.graph[u]@[k].0 == v && dist_of(
                        self.dist,
                        v,
                    ) == dist_of(self.dist, u) + self.graph[u]@[k].1
            }
    }

    /// The source is at distance 0, is settled first, and is all the frontier holds
    /// before; any other reached node has a predecessor.
    pub open spec fn source_ok(&self) -> bool {
        &&& self.graph.contains_key(self.source) ==> dist_of(self.dist, self.source) == 0
        &&& self.visited.len() == 0 ==> forall|i: int|
            0 <= i < self.heap.len() ==> #[trigger] self.heap[i] == (0usize, self.source)
        &&& self.visited.len() > 0 ==> self.visited[0] == self.source
        &&& forall|v: usize|
            #[trigger] dist_of(self.dist, v) < usize::MAX ==> (v == self.source && dist_of(self.dist, v)
                == 0) || (self.prev.contains_key(v) && self.prev[v] is Some)
    }
}

/// The edges out of node `u` of the example graph, whose nodes are 0 to 5.
pub open spec fn example_edges(u: usize) -> Seq<(usize, usize)> {
    if u == 0 {
        seq![(1usize, 1usize), (3, 4)]
    } else if u == 1 {
        seq![(4usize, 1usize)]
    } else if u == 2 {
        seq![(5usize, 6usize), (0, 5), (3, 1)]
    } else if u == 3 {
        seq![(4usize, 2usize), (3, 3)]
    } else if u == 4 {
        seq![(5usize, 2usize), (2, 1)]
    } else {
        seq![(3usize, 2usize)]
    }
}

/// Once the frontier is empty (and no target stopped the search early), the
/// distances are settled: every edge `(u, v, w)` leaves `dist[v] <= dist[u] + w`
/// (held at `usize::MAX`); the distance of each node with a predecessor `u` is
/// `dist[u] + w` for an edge `(u, v, w)`; each other reached node is the source, at
/// 0; nodes were settled once each, at finite distances, in non-decreasing order;
/// and each settled node but the source is reached from a settled node `u` by an
/// edge `(u, v, w)` with `dist[v] == dist[u] + w`, so that its distance is the least
/// `dist[u] + w` over its incoming edges.
pub proof fn lemma_settled_distances(s: DijkstraState)
    requires
        s.wf(),
        s.heap.len() == 0,
        s.target is None,
    ensures
        forall|u: usize, k: int|
            s.graph.contains_key(u) && 0 <= k < s.graph[u]@.len() ==> dist_of(
                s.dist,
                (#[trigger] s.graph[u]@[k]).0,
            ) <= sat_add(dist_of(s.dist, u), s.graph[u]@[k].1),
        forall|v: usize|
            #[trigger] s.prev.contains_key(v) && s.prev[v] is Some ==> {
                let u = s.prev[v]->Some_0;
                &&& s.graph.contains_key(u)
                &&& exists|k: int|
                    0 <= k < s.graph[u]@.len() && (#[trigger] s.graph[u]@[k]).0 == v && dist_of(
                        s.dist,
                        v,
                    ) == dist_of(s.dist, u) + s.graph[u]@[k].1
            },
        forall|v: usize|
            #[trigger] dist_of(s.dist, v) < usize::MAX ==> (v == s.source && dist_of(s.dist, v)
                == 0) || (s.prev.contains_key(v) && s.prev[v] is Some),
        forall|i: int, j: int|
            0 <= i < j < s.visited.len() ==> dist_of(s.dist, #[trigger] s.visited[i]) <= dist_of(
                s.dist,
                #[trigger] s.visited[j],
            ),
        s.visited.no_duplicates(),
        forall|i: int| 0 <= i < s.visited.len() ==> dist_of(s.dist, #[trigger] s.visited[i]) < usize::MAX,
        forall|v: usize|
            #[trigger] s.visited.contains(v) && v != s.source ==> exists|u: usize, k: int|
                #![trigger s.graph[u]@[k]]
                s.visited.contains(u) && s.graph.contains_key(u) && 0 <= k < s.graph[u]@.len()
                    && s.graph[u]@[k].0 == v && dist_of(s.dist, v) == dist_of(s.dist, u)
                    + s.graph[u]@[k].1,
{
    assert forall|v: usize| #[trigger] s.visited.contains(v) && v != s.source implies exists|u: usize, k: int|
        #![trigger s.graph[u]@[k]]
        s.visited.contains(u) && s.graph.contains_key(u) && 0 <= k < s.graph[u]@.len()
            && s.graph[u]@[k].0 == v && dist_of(s.dist, v) == dist_of(s.dist, u) + s.graph[u]@[k].1 by {
        let i = choose|i: int| 0 <= i < s.visited.len() && s.visited[i] == v;
        assert(dist_of(s.dist, s.visited[i]) < usize::MAX);
        assert(s.prev.contains_key(v) && s.prev[v] is Some);
        let u = s.prev[v]->Some_0;
        assert(s.visited.contains(u));
        let k = choose|k: int|
            0 <= k < s.graph[u]@.len() && #[trigger] s.graph[u]@[k].0 == v && dist_of(s.dist, v)
                == dist_of(s.dist, u) + s.graph[u]@[k].1;
        assert(s.graph[u]@[k].0 == v);
    }
    assert forall|u: usize, k: int| s.graph.contains_key(u) && 0 <= k < s.graph[u]@.len() implies dist_of(
        s.dist,
        (#[trigger] s.graph[u]@[k]).0,
    ) <= sat_add(dist_of(s.dist, u), s.graph[u]@[k].1) by {
        if s.visited.contains(u) {
            assert(s.relaxed_from(u));
        } else if dist_of(s.dist, u) < usize::MAX {
            assert(s.heap.contains((dist_of(s.dist, u), u)));
        }
    }
}

/// Position of the least entry of a non-empty frontier.
fn find_min(h: &Vec<(usize, usize)>) -> (r: usize)
    requires
        h.len() > 0,
    ensures
        r == min_index(h@),
        r < h.len(),
{
    proof {
        lemma_min_index(h@);
    }
    let mut best: usize = 0;
    let mut k: usize = 1;
    while k < h.len()
        invariant
            1 <= k <= h.len(),
            best == min_index(h@.take(k as int)),
            best < k,
        decreases h.len() - k,
    {
        assert(h@.take(k + 1).drop_last() =~= h@.take(k as int));
        let (bc, bn) = h[best];
        let (kc, kn) = h[k];
        if kc < bc || (kc == bc && kn < bn) {
            best = k;
        }
        k += 1;
    }
    assert(h@.take(k as int) =~= h@);
    best
}

impl DijkstraVisualizer {
    /// An empty visualizer: no graph, nothing on the frontier, not running.
    pub fn new() -> (r: Self)
        ensures
            r@.wf(),
            r@.graph.is_empty() && r@.dist.is_empty() && r@.prev.is_empty(),
            r@.visited.len() == 0 && r@.heap.len() == 0,
            r@.current is None && r@.target is None && r@.source == 0,
            !r@.is_running && !r@.auto_play && r@.last_step_time is None,
    {
        DijkstraVisualizer {
            graph: HashMap::new(),
            distances: HashMap::new(),
            previous: HashMap::new(),
            visited: Vec::new(),
            current: None,
            source: 0,
            target: None,
            is_running: false,
            last_step_time: None,
            auto_play: false,
            heap: Vec::new(),
        }
    }

    /// Loads `graph` (each node's outgoing `(neighbor, weight)` edges) and resets the
    /// search from `source`: every node of the graph is unreached but the source,
    /// which is at distance 0 and alone on the frontier. A source outside the graph
    /// leaves the frontier empty.
    pub fn initialize_graph(&mut self, graph: HashMap<usize, Vec<(usize, usize)>>, source: usize)
        ensures
            final(self)@.wf(),
            final(self)@.graph == graph@,
            final(self)@.source == source,
            final(self)@.target is None,
            final(self)@.dist == Map::new(
                |k: usize| graph@.contains_key(k),
                |k: usize|
                    if k == source {
                        0usize
                    } else {
                        usize::MAX
                    },
            ),
            final(self)@.prev == Map::new(|k: usize| graph@.contains_key(k), |k: usize| None::<usize>),
            final(self)@.visited.len() == 0,
            final(self)@.current is None,
            final(self)@.heap == (if graph@.contains_key(source) {
                seq![(0usize, source)]
            } else {
                Seq::empty()
            }),
            final(self)@.is_running == old(self)@.is_running,
            final(self)@.auto_play == old(self)@.auto_play,
            final(self)@.last_step_time == old(self)@.last_step_time,
    {
        self.graph = graph;
        self.source = source;
        self.target = None;
        self.distances.clear();
        self.previous.clear();
        self.visited.clear();
        self.current = None;
        self.heap.clear();

        let ghost keys = vstd::std_specs::hash::spec_keys_iter(&self.graph).remaining();
        for node in it: self.graph.keys()
            invariant
                self.graph@ == graph@,
                it.seq() == keys,
                self.source == source,
                self.target is None,
                self.visited@.len() == 0,
                self.current is None,
                self.heap@.len() == 0,
                self.is_running == old(self).is_running,
                self.auto_play == old(self).auto_play,
                self.last_step_time == old(self).last_step_time,
                forall|k: usize|
                    #[trigger] self.distances@.contains_key(k) <==> exists|i: int|
                        0 <= i < it.index() && *it.seq()[i] == k,
                forall|k: usize|
                    #[trigger] self.previous@.contains_key(k) <==> exists|i: int|
                        0 <= i < it.index() && *it.seq()[i] == k,
                forall|k: usize| #[trigger]
                    self.distances@.contains_key(k) ==> self.distances@[k] == usize::MAX,
                forall|k: usize| #[trigger]
                    self.previous@.contains_key(k) ==> self.previous@[k] == None::<usize>,
        {
            self.distances.insert(*node, usize::MAX);
            self.previous.insert(*node, None);
        }
        proof {
            assert forall|k: usize| #[trigger] graph@.contains_key(k) implies self.distances@.contains_key(k) by {
                assert(keys.unref().to_set().contains(k));
                let i = choose|i: int| 0 <= i < keys.len() && keys.unref()[i] == k;
                assert(*keys[i] == k);
            }
            assert forall|k: usize| #[trigger] self.distances@.contains_key(k) implies graph@.contains_key(k) by {
                let i = choose|i: int| 0 <= i < keys.len() && *keys[i] == k;
                assert(keys.unref()[i] == k);
                assert(keys.unref().to_set().contains(k));
            }
        }
        if self.graph.contains_key(&source) {
            self.distances.insert(source, 0);
            self.heap.push((0, source));
        }
        assert(self.distances@ =~= Map::new(
            |k: usize| graph@.contains_key(k),
            |k: usize|
                if k == source {
                    0usize
                } else {
                    usize::MAX
                },
        ));
        assert(self.previous@ =~= Map::new(|k: usize| graph@.contains_key(k), |k: usize| None::<usize>));
        proof {
            let st = self@;
            assert forall|v: usize| !st.visited.contains(v) && #[trigger] dist_of(st.dist, v) < usize::MAX implies st.heap.contains((dist_of(st.dist, v), v)) by {
                assert(st.heap[0] == (dist_of(st.dist, v), v));
            }
        }
    }

    /// One step: pops the least `(cost, node)` entry off the frontier. An entry for a
    /// settled node is dropped. Otherwise the node is settled; if it is the target the
    /// search stops, else each of its edges that gives a shorter distance updates the
    /// distance and predecessor of its head and pushes the head onto the frontier. An
    /// empty frontier stops the search; a stopped search changes nothing.
    pub fn step(&mut self)
        requires
            old(self)@.wf(),
        ensures
            final(self)@.wf(),
            final(self)@ == old(self)@.after_step(),
            old(self)@.is_done() ==> final(self)@ == old(self)@,
    {
        if !self.is_running {
            return;
        }
        if self.heap.len() == 0 {
            let ghost s0 = self@;
            self.is_running = false;
            assert(self@ == (DijkstraState { is_running: false, ..s0 }));
            assert(self@.wf_core() && s0.wf_core()) by {
                assert(self@.frontier_ok() == s0.frontier_ok());
                assert(self@.settled_ok() == s0.settled_ok());
                assert(self@.preds_ok() == s0.preds_ok());
                assert(self@.source_ok() == s0.source_ok());
            }
            return;
        }
        proof {
            reveal(DijkstraState::wf_folded);
        }
        self.settle_next();
    }

    /// Removes the least frontier entry and returns it.
    fn pop_min(&mut self) -> (r: (usize, usize))
        requires
            old(self)@.heap.len() > 0,
        ensures
            r == old(self)@.popped(),
            final(self)@ == (DijkstraState { heap: old(self)@.rest(), ..old(self)@ }),
    {
        let i = find_min(&self.heap);
        self.heap.remove(i)
    }

    /// Pops the least frontier entry of a running search and, for an unsettled
    /// node, settles it and stops at the target or relaxes its edges.
    #[verifier::rlimit(60)]
    fn settle_next(&mut self)
        requires
            old(self)@.wf_folded(),
            old(self)@.is_running,
            old(self)@.heap.len() > 0,
        ensures
            final(self)@.wf_folded(),
            final(self)@ == old(self)@.after_step(),
    {
        let ghost s0 = self@;
        let (cost, node) = self.pop_min();
        if crate::common::contains_usize(&self.visited, node) {
            assert(self@.wf_folded()) by {
                reveal(DijkstraState::wf_folded);
                s0.lemma_drop_settled(self@);
            }
            assert(self@ == s0.after_step());
            return;
        }
        self.visited.push(node);
        self.current = Some(node);
        let ghost s1 = self@;
        if self.target == Some(node) {
            self.is_running = false;
            assert(self@.wf_folded()) by {
                reveal(DijkstraState::wf_folded);
                s0.lemma_settle(s1);
                s1.lemma_wf_ignores_flags(self@);
            }
            assert(self@ == s0.after_step());
            return;
        }
        assert(s1.relaxing(node, cost, 0)) by {
            reveal(DijkstraState::wf_folded);
            s0.lemma_settle(s1);
        }
        self.relax_neighbors(node, cost);
        assert(self@.wf_folded()) by {
            reveal(DijkstraState::wf_folded);
        }
        assert(self@ == s0.after_step());
    }

    /// Relaxes every edge out of the just-settled `node`, reached at `cost`.
    #[verifier::rlimit(60)]
    fn relax_neighbors(&mut self, node: usize, cost: usize)
        requires
            old(self)@.relaxing(node, cost, 0),
        ensures
            final(self)@.wf(),
            ({
                let s = old(self)@;
                let r = relax_edges(
                    Relaxed { dist: s.dist, prev: s.prev, heap: s.heap },
                    node,
                    cost,
                    s.out_edges(node),
                );
                final(self)@ == (DijkstraState { dist: r.dist, prev: r.prev, heap: r.heap, ..s })
            }),
    {
        let ghost s1 = self@;
        match self.graph.get(&node) {
            Some(neighbors) => {
                let mut k: usize = 0;
                while k < neighbors.len()
                    invariant
                        neighbors@ == s1.graph[node]@,
                        s1.graph.contains_key(node),
                        0 <= k <= neighbors.len(),
                        self@.graph == s1.graph,
                        self@.visited == s1.visited,
                        self@.current == s1.current,
                        self@.source == s1.source,
                        self@.target == s1.target,
                        self@.is_running == s1.is_running,
                        self@.auto_play == s1.auto_play,
                        self@.last_step_time == s1.last_step_time,
                        (Relaxed { dist: self@.dist, prev: self@.prev, heap: self@.heap })
                            == relax_edges(
                            Relaxed { dist: s1.dist, prev: s1.prev, heap: s1.heap },
                            node,
                            cost,
                            neighbors@.take(k as int),
                        ),
                        self@.relaxing(node, cost, k as int),
                    decreases neighbors.len() - k,
                {
                    let ghost s2 = self@;
                    let (neighbor, weight) = neighbors[k];
                    let new_cost = cost.saturating_add(weight);
                    let old_d = match self.distances.get(&neighbor) {
                        Some(d) => *d,
                        None => usize::MAX,
                    };
                    assert(neighbors@.take(k + 1).drop_last() =~= neighbors@.take(k as int));
                    if new_cost < old_d {
                        self.distances.insert(neighbor, new_cost);
                        self.previous.insert(neighbor, Some(node));
                        self.heap.push((new_cost, neighbor));
                    }
                    proof {
                        s2.lemma_relax_edge(self@, node, cost, k as int);
                    }
                    k += 1;
                }
                assert(neighbors@.take(k as int) =~= neighbors@);
                proof {
                    assert(self@.relaxed_from(node));
                }
            },
            None => {
                assert(relax_edges(Relaxed { dist: s1.dist, prev: s1.prev, heap: s1.heap }, node, cost, Seq::empty())
                    == (Relaxed { dist: s1.dist, prev: s1.prev, heap: s1.heap }));
                assert(self@.relaxed_from(node));
            },
        }
    }

    /// Loads the example graph (nodes 0 to 5) with source 0.
    pub fn initialize(&mut self)
        ensures
            final(self)@.wf(),
            forall|u: usize| #[trigger] final(self)@.graph.contains_key(u) <==> u < 6,
            forall|u: usize| u < 6 ==> #[trigger] final(self)@.graph[u]@ == example_edges(u),
            final(self)@.source == 0,
            final(self)@.target is None,
            final(self)@.visited.len() == 0,
            final(self)@.current is None,
            final(self)@.heap == seq![(0usize, 0usize)],
            final(self)@.dist == Map::new(
                |k: usize| k < 6,
                |k: usize|
                    if k == 0 {
                        0usize
                    } else {
                        usize::MAX
                    },
            ),
            final(self)@.prev == Map::new(|k: usize| k < 6, |k: usize| None::<usize>),
            final(self)@.is_running == old(self)@.is_running,
            final(self)@.auto_play == old(self)@.auto_play,
            final(self)@.last_step_time == old(self)@.last_step_time,
    {
        let mut example_graph: HashMap<usize, Vec<(usize, usize)>> = HashMap::new();
        example_graph.insert(0, vec![(1, 1), (3, 4)]);
        example_graph.insert(1, vec![(4, 1)]);
        example_graph.insert(2, vec![(5, 6), (0, 5), (3, 1)]);
        example_graph.insert(3, vec![(4, 2), (3, 3)]);
        example_graph.insert(4, vec![(5, 2), (2, 1)]);
        example_graph.insert(5, vec![(3, 2)]);
        assert(example_graph@[0]@ =~= example_edges(0));
        assert(example_graph@[1]@ =~= example_edges(1));
        assert(example_graph@[2]@ =~= example_edges(2));
        assert(example_graph@[3]@ =~= example_edges(3));
        assert(example_graph@[4]@ =~= example_edges(4));
        assert(example_graph@[5]@ =~= example_edges(5));
        assert forall|k: usize| #[trigger] example_graph@.contains_key(k) <==> k < 6 by {}
        let ghost g = example_graph@;
        self.initialize_graph(example_graph, 0);
        assert(self@.dist =~= Map::new(
            |k: usize| k < 6,
            |k: usize|
                if k == 0 {
                    0usize
                } else {
                    usize::MAX
                },
        ));
        assert(self@.prev =~= Map::new(|k: usize| k < 6, |k: usize| None::<usize>));
    }

    /// Stops the search at `target` once that node is settled.
    pub fn set_target(&mut self, target: Option<usize>)
        requires
            old(self)@.wf(),
            old(self)@.visited.len() == 0,
        ensures
            final(self)@.wf(),
            final(self)@ == (DijkstraState { target, ..old(self)@ }),
    {
        self.target = target;
    }

    /// Whether the source is a node of the graph; the search cannot start otherwise.
    pub fn source_in_graph(&self) -> (r: bool)
        ensures
            r == self@.graph.contains_key(self@.source),
    {
        self.graph.contains_key(&self.source)
    }

    /// Starts the search and auto-play, seeding the frontier with the source if it is
    /// empty. A source outside the graph leaves everything as it is.
    pub fn start(&mut self)
        requires
            old(self)@.wf(),
        ensures
            final(self)@.wf(),
            old(self)@.started(final(self)@),
    {
        let ghost s0 = self@;
        if !self.graph.contains_key(&self.source) {
            return;
        }
        self.is_running = true;
        self.auto_play = true;
        if self.heap.len() == 0 {
            self.heap.push((0, self.source));
            assert(self.heap@ =~= seq![(0usize, self.source)]);
            proof {
                let s1 = self@;
                assert forall|v: usize| !s1.visited.contains(v) && #[trigger] dist_of(s1.dist, v) < usize::MAX
                    implies s1.heap.contains((dist_of(s1.dist, v), v)) by {
                    assert(s0.heap.contains((dist_of(s0.dist, v), v)));
                }
                assert(s1.heap[0] == (0usize, s1.source));
            }
        }
    }

    pub fn auto_play(&self) -> (r: bool)
        ensures
            r == self@.auto_play,
    {
        self.auto_play
    }

    pub fn toggle_auto_traverse(&mut self)
        requires
            old(self)@.wf(),
        ensures
            final(self)@.wf(),
            final(self)@ == (DijkstraState { auto_play: !old(self)@.auto_play, ..old(self)@ }),
    {
        self.auto_play = !self.auto_play;
    }

    pub fn last_step_time(&self) -> (r: Option<u64>)
        ensures
            r == self@.last_step_time,
    {
        self.last_step_time
    }

    pub fn set_last_step_time(&mut self, time: Option<u64>)
        requires
            old(self)@.wf(),
        ensures
            final(self)@.wf(),
            final(self)@ == (DijkstraState { last_step_time: time, ..old(self)@ }),
    {
        self.last_step_time = time;
    }

    pub fn graph(&self) -> (r: &HashMap<usize, Vec<(usize, usize)>>)
        ensures
            r@ == self@.graph,
    {
        &self.graph
    }

    pub fn visited(&self) -> (r: &Vec<usize>)
        ensures
            r@ == self@.visited,
    {
        &self.visited
    }

    pub fn current(&self) -> (r: Option<usize>)
        ensures
            r == self@.current,
    {
        self.current
    }

    pub fn is_running(&self) -> (r: bool)
        ensures
            r == self@.is_running,
    {
        self.is_running
    }

    /// The distance recorded for `v`; `usize::MAX` where it is unreached.
    pub fn distance(&self, v: usize) -> (r: usize)
        ensures
            r == dist_of(self@.dist, v),
    {
        match self.distances.get(&v) {
            Some(d) => *d,
            None => usize::MAX,
        }
    }

    /// The predecessor recorded for `v` on its shortest path, if any.
    pub fn predecessor(&self, v: usize) -> (r: Option<usize>)
        ensures
            r == (if self@.prev.contains_key(v) {
                self@.prev[v]
            } else {
                None
            }),
    {
        match self.previous.get(&v) {
            Some(p) => *p,
            None => None,
        }
    }
}

} // verus!

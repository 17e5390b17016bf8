//! Breadth-first traversal of the example tree, one node per step.
use std::collections::VecDeque;
use vstd::prelude::*;
use crate::common::contains_usize;
use crate::tree::{
    build_example_tree, example_tree, is_tree_id, lemma_level_monotone, lemma_tree_children,
    lemma_tree_ids, level_of, unvisited_children, TREE_SIZE,
};

verus! {

/// The ids `1..=k`.
pub open spec fn ids_upto(k: nat) -> Seq<usize> {
    Seq::new(k, |i: int| (i + 1) as usize)
}

/// The queue once the first `k` nodes have been visited: `k + 1` up to
/// `2k + 1`, cut at the last node.
pub open spec fn bfs_frontier(k: nat) -> Seq<usize> {
    let end = if 2 * k + 1 <= TREE_SIZE {
        2 * k + 1
    } else {
        TREE_SIZE as nat
    };
    Seq::new((end - k) as nat, |i: int| (k + 1 + i) as usize)
}

pub struct BFSVisualizer {
    nodes: Vec<(usize, usize, usize)>,
    current_node: Option<usize>,
    visited: Vec<usize>,
    bfs_queue: VecDeque<usize>,
    tree_created: bool,
    auto_traverse: bool,
    last_step_time: Option<u64>,
}

/// What a `BFSVisualizer` holds, as mathematical values. `nodes` holds the
/// records `(id, parent, level)`.
pub struct BfsState {
    pub nodes: Seq<(usize, usize, usize)>,
    pub current_node: Option<usize>,
    pub visited: Seq<usize>,
    pub queue: Seq<usize>,
    pub tree_created: bool,
    pub auto_traverse: bool,
    pub last_step_time: Option<u64>,
}

impl View for BFSVisualizer {
    type V = BfsState;

    closed spec fn view(&self) -> BfsState {
        BfsState {
            nodes: self.nodes@,
            current_node: self.current_node,
            visited: self.visited@,
            queue: self.bfs_queue@,
            tree_created: self.tree_created,
            auto_traverse: self.auto_traverse,
            last_step_time: self.last_step_time,
        }
    }
}

impl BfsState {
    /// Before the tree exists nothing is held; after, the traversal has either not
    /// begun or has visited the first `k` nodes by number with the next ones queued.
    pub open spec fn wf(&self) -> bool {
        &&& !self.tree_created ==> self.nodes.len() == 0 && self.visited.len() == 0
            && self.queue.len() == 0
        &&& self.tree_created ==> {
            &&& self.nodes == example_tree()
            &&& (self.visited.len() == 0 && self.queue.len() == 0) || (self.visited.len()
                <= TREE_SIZE && self.visited == ids_upto(self.visited.len())
                && self.queue == bfs_frontier(self.visited.len()))
        }
    }

    /// One step: visit the front of the queue and queue its unvisited children in
    /// the order of `nodes`; with an empty queue, nothing changes.
    pub open spec fn after_step(&self) -> BfsState {
        if self.queue.len() == 0 {
            *self
        } else {
            let c = self.queue[0];
            BfsState {
                current_node: Some(c),
                visited: self.visited.push(c),
                queue: self.queue.drop_first() + unvisited_children(self.nodes, c, self.visited.push(c)),
                ..*self
            }
        }
    }

    /// The traversal has ended (or not begun): nothing is queued.
    pub open spec fn is_done(&self) -> bool {
        self.queue.len() == 0
    }

    /// `next` is this state after `start`: once the tree exists, the traversal
    /// restarts from the root with auto-play on; before, nothing changes.
    pub open spec fn started(&self, next: BfsState) -> bool {
        &&& !self.tree_created ==> next == *self
        &&& self.tree_created ==> next == (BfsState {
            current_node: None,
            visited: Seq::empty(),
            queue: seq![1usize],
            auto_traverse: true,
            last_step_time: None,
            ..*self
        })
    }
}

/// Once the traversal ends, it has visited every node of the example tree, once
/// each: 31 nodes.
pub proof fn lemma_bfs_visits_all(s: BfsState)
    requires
        s.wf(),
        s.tree_created,
        s.visited.len() > 0,
        s.queue.len() == 0,
    ensures
        s.visited.len() == TREE_SIZE,
        s.visited.no_duplicates(),
        forall|id: usize| s.visited.contains(id) <==> is_tree_id(id as int),
{
    assert forall|id: usize| s.visited.contains(id) <==> is_tree_id(id as int) by {
        lemma_tree_ids(id as int);
        if 1 <= id <= TREE_SIZE {
            assert(s.visited[id - 1] == id);
        }
    }
}

/// Nodes are visited level by level: the levels of the visited nodes never decrease.
pub proof fn lemma_bfs_level_order(s: BfsState)
    requires
        s.wf(),
    ensures
        forall|i: int, j: int|
            0 <= i < j < s.visited.len() ==> level_of(#[trigger] s.visited[i] as nat) <= level_of(
                #[trigger] s.visited[j] as nat,
            ),
{
    assert forall|i: int, j: int| 0 <= i < j < s.visited.len() implies level_of(
        #[trigger] s.visited[i] as nat,
    ) <= level_of(#[trigger] s.visited[j] as nat) by {
        lemma_level_monotone((i + 1) as nat, (j + 1) as nat);
    }
}

impl BFSVisualizer {
    /// An empty visualizer: no tree yet.
    pub fn new() -> (r: Self)
        ensures
            r@.wf(),
            r@ == (BfsState {
                nodes: Seq::empty(),
                current_node: None,
                visited: Seq::empty(),
                queue: Seq::empty(),
                tree_created: false,
                auto_traverse: false,
                last_step_time: None,
            }),
    {
        BFSVisualizer {
            nodes: Vec::new(),
            current_node: None,
            visited: Vec::new(),
            bfs_queue: VecDeque::new(),
            tree_created: false,
            auto_traverse: false,
            last_step_time: None,
        }
    }

    /// Builds the example tree and clears the traversal.
    fn create_example_tree(&mut self)
        ensures
            final(self)@.wf(),
            final(self)@ == (BfsState {
                nodes: example_tree(),
                current_node: None,
                visited: Seq::empty(),
                queue: Seq::empty(),
                tree_created: true,
                auto_traverse: false,
                ..old(self)@
            }),
    {
        self.nodes = build_example_tree();
        self.current_node = None;
        self.visited.clear();
        self.bfs_queue.clear();
        self.tree_created = true;
        self.auto_traverse = false;
    }

    /// Once the tree exists, restarts the traversal from the root with auto-play on.
    fn start_bfs(&mut self)
        requires
            old(self)@.wf(),
        ensures
            final(self)@.wf(),
            !old(self)@.tree_created ==> final(self)@ == old(self)@,
            old(self)@.tree_created ==> final(self)@ == (BfsState {
                current_node: None,
                visited: Seq::empty(),
                queue: seq![1usize],
                auto_traverse: true,
                last_step_time: None,
                ..old(self)@
            }),
    {
        if self.tree_created {
            self.visited.clear();
            self.bfs_queue.clear();
            self.current_node = None;
            self.bfs_queue.push_back(1);
            self.auto_traverse = true;
            self.last_step_time = None;
            assert(self.bfs_queue@ =~= bfs_frontier(0));
            assert(self.visited@ =~= ids_upto(0));
        }
    }

    /// Visits the node at the front of the queue and queues its unvisited
    /// children; with an empty queue, does nothing.
    fn bfs_step(&mut self)
        requires
            old(self)@.wf(),
        ensures
            final(self)@.wf(),
            old(self)@.queue.len() == 0 ==> final(self)@ == old(self)@,
            old(self)@.queue.len() > 0 ==> {
                let c = old(self)@.queue[0];
                final(self)@ == (BfsState {
                    current_node: Some(c),
                    visited: old(self)@.visited.push(c),
                    queue: old(self)@.queue.drop_first() + unvisited_children(
                        old(self)@.nodes,
                        c,
                        old(self)@.visited.push(c),
                    ),
                    ..old(self)@
                })
            },
    {
        let ghost s0 = self@;
        match self.bfs_queue.pop_front() {
            Some(current) => {
                self.current_node = Some(current);
                self.visited.push(current);
                let ghost q1 = self.bfs_queue@;
                let mut k: usize = 0;
                while k < self.nodes.len()
                    invariant
                        k <= self.nodes.len(),
                        self.nodes@ == s0.nodes,
                        self.visited@ == s0.visited.push(current),
                        self.current_node == Some(current),
                        self.tree_created == s0.tree_created,
                        self.auto_traverse == s0.auto_traverse,
                        self.last_step_time == s0.last_step_time,
                        self.bfs_queue@ == q1 + unvisited_children(
                            self.nodes@.take(k as int),
                            current,
                            self.visited@,
                        ),
                    decreases self.nodes.len() - k,
                {
                    let (child_id, parent_id, _) = self.nodes[k];
                    assert(self.nodes@.take(k + 1).drop_last() =~= self.nodes@.take(k as int));
                    if parent_id == current && !contains_usize(&self.visited, child_id) {
                        self.bfs_queue.push_back(child_id);
                    }
                    k += 1;
                }
                assert(self.nodes@.take(k as int) =~= self.nodes@);
                proof {
                    let n = s0.visited.len();
                    if s0.tree_created {
                        assert(current == n + 1);
                        assert(self.visited@ =~= ids_upto(n + 1));
                        assert(!self.visited@.contains((2 * current) as usize));
                        assert(!self.visited@.contains((2 * current + 1) as usize));
                        lemma_tree_children(current, self.visited@, TREE_SIZE as int);
                        assert(example_tree().take(TREE_SIZE as int) =~= example_tree());
                        assert(self.bfs_queue@ =~= bfs_frontier(n + 1));
                    }
                }
            },
            None => {},
        }
    }

    /// Builds the example tree; the traversal waits for `start`.
    pub fn initialize(&mut self)
        ensures
            final(self)@.wf(),
            final(self)@ == (BfsState {
                nodes: example_tree(),
                current_node: None,
                visited: Seq::empty(),
                queue: Seq::empty(),
                tree_created: true,
                auto_traverse: false,
                ..old(self)@
            }),
    {
        self.create_example_tree();
    }

    /// One step of the traversal (see `bfs_step`): a traversal that has ended stays as
    /// it is, auto-play included.
    pub fn step(&mut self)
        requires
            old(self)@.wf(),
        ensures
            final(self)@.wf(),
            final(self)@ == old(self)@.after_step(),
            old(self)@.is_done() ==> final(self)@ == old(self)@,
    {
        self.bfs_step();
    }

    pub fn auto_play(&self) -> (r: bool)
        ensures
            r == self@.auto_traverse,
    {
        self.auto_traverse
    }

    pub fn toggle_auto_traverse(&mut self)
        requires
            old(self)@.wf(),
        ensures
            final(self)@.wf(),
            final(self)@ == (BfsState { auto_traverse: !old(self)@.auto_traverse, ..old(self)@ }),
    {
        self.auto_traverse = !self.auto_traverse;
    }

    /// Restarts the traversal from the root with auto-play on, once the tree exists.
    pub fn start(&mut self)
        requires
            old(self)@.wf(),
        ensures
            final(self)@.wf(),
            old(self)@.started(final(self)@),
    {
        self.start_bfs();
    }

    pub fn last_step_time(&self) -> (r: Option<u64>)
        ensures
            r == self@.last_step_time,
    {
        self.last_step_time
    }

    pub fn set_last_step_time(&mut self, time: Option<u64>)
        requires
            old(self)@.wf(),
        ensures
            final(self)@.wf(),
            final(self)@ == (BfsState { last_step_time: time, ..old(self)@ }),
    {
        self.last_step_time = time;
    }

    /// The tree's records `(id, parent, level)`.
    pub fn nodes(&self) -> (r: &Vec<(usize, usize, usize)>)
        ensures
            r@ == self@.nodes,
    {
        &self.nodes
    }

    pub fn visited(&self) -> (r: &Vec<usize>)
        ensures
            r@ == self@.visited,
    {
        &self.visited
    }

    pub fn current_node(&self) -> (r: Option<usize>)
        ensures
            r == self@.current_node,
    {
        self.current_node
    }

    pub fn queue(&self) -> (r: &VecDeque<usize>)
        ensures
            r@ == self@.queue,
    {
        &self.bfs_queue
    }
}

} // verus!

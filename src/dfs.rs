//! Depth-first (pre-order) traversal of the example tree, one pop per step.
use std::collections::VecDeque;
use vstd::prelude::*;
use crate::common::contains_usize;
use crate::tree::{build_example_tree, example_tree, is_tree_id, lemma_tree_ids, tree_node, TREE_SIZE};

verus! {

/// The pre-order of the subtree rooted at `a`: the node, then its whole left
/// subtree, then its whole right subtree.
pub open spec fn preorder(a: nat) -> Seq<usize>
    decreases 64 - a,
{
    if a == 0 || a > TREE_SIZE {
        Seq::empty()
    } else {
        seq![a as usize] + preorder(2 * a) + preorder(2 * a + 1)
    }
}

/// What a stack still has to visit: the pre-order of each node on it, top first.
pub open spec fn pending(stack: Seq<usize>) -> Seq<usize>
    decreases stack.len(),
{
    if stack.len() == 0 {
        Seq::empty()
    } else {
        preorder(stack.last() as nat) + pending(stack.drop_last())
    }
}

/// Ids of the records of `nodes` whose parent is `c` and that `visited` does not
/// hold, in the reverse of the order of `nodes`.
pub open spec fn unvisited_children_rev(
    nodes: Seq<(usize, usize, usize)>,
    c: usize,
    visited: Seq<usize>,
) -> Seq<usize>
    decreases nodes.len(),
{
    if nodes.len() == 0 {
        Seq::empty()
    } else {
        let rest = unvisited_children_rev(nodes.drop_first(), c, visited);
        if nodes[0].1 == c && !visited.contains(nodes[0].0) {
            rest.push(nodes[0].0)
        } else {
            rest
        }
    }
}

/// `x` lies in the subtree rooted at `a`.
pub open spec fn is_desc(x: nat, a: nat) -> bool
    decreases x,
{
    if a == 0 || x < a {
        false
    } else if x == a {
        true
    } else {
        is_desc(x / 2, a)
    }
}

proof fn lemma_preorder_desc(a: nat)
    ensures
        forall|i: int|
            0 <= i < preorder(a).len() ==> is_desc(#[trigger] preorder(a)[i] as nat, a) && a
                <= preorder(a)[i] <= TREE_SIZE,
    decreases 64 - a,
{
    if a != 0 && a <= TREE_SIZE {
        lemma_preorder_desc(2 * a);
        lemma_preorder_desc(2 * a + 1);
        let l = preorder(2 * a);
        let r = preorder(2 * a + 1);
        assert forall|i: int| 0 <= i < preorder(a).len() implies is_desc(
            #[trigger] preorder(a)[i] as nat,
            a,
        ) && a <= preorder(a)[i] <= TREE_SIZE by {
            if i > 0 && i < 1 + l.len() {
                assert(preorder(a)[i] == l[i - 1]);
                lemma_desc_parent(l[i - 1] as nat, 2 * a, a);
            } else if i >= 1 + l.len() {
                assert(preorder(a)[i] == r[i - 1 - l.len()]);
                lemma_desc_parent(r[i - 1 - l.len()] as nat, 2 * a + 1, a);
            }
        }
    }
}

/// A descendant of a child of `a` is a descendant of `a`.
proof fn lemma_desc_parent(x: nat, b: nat, a: nat)
    requires
        is_desc(x, b),
        a >= 1,
        b / 2 == a,
        b >= 2,
    ensures
        is_desc(x, a),
    decreases x,
{
    if x != b {
        lemma_desc_parent(x / 2, b, a);
    } else {
        assert(is_desc(a, a));
    }
}

/// Two subtrees that hold a common node are nested.
proof fn lemma_desc_nested(x: nat, a: nat, b: nat)
    requires
        is_desc(x, a),
        is_desc(x, b),
        a < b,
    ensures
        is_desc(b, a),
    decreases x,
{
    if x != b {
        lemma_desc_nested(x / 2, a, b);
    }
}

proof fn lemma_preorder_no_dup(a: nat)
    ensures
        preorder(a).no_duplicates(),
    decreases 64 - a,
{
    if a != 0 && a <= TREE_SIZE {
        lemma_preorder_no_dup(2 * a);
        lemma_preorder_no_dup(2 * a + 1);
        lemma_preorder_desc(2 * a);
        lemma_preorder_desc(2 * a + 1);
        let l = preorder(2 * a);
        let r = preorder(2 * a + 1);
        let s = preorder(a);
        assert forall|i: int, j: int| 0 <= i < s.len() && 0 <= j < s.len() && i != j implies s[i]
            != s[j] by {
            if i > j {
                lemma_pair_distinct(a, j, i);
            } else {
                lemma_pair_distinct(a, i, j);
            }
        }
    }
}

proof fn lemma_pair_distinct(a: nat, i: int, j: int)
    requires
        1 <= a <= TREE_SIZE,
        preorder(2 * a).no_duplicates(),
        preorder(2 * a + 1).no_duplicates(),
        forall|k: int|
            0 <= k < preorder(2 * a).len() ==> is_desc(#[trigger] preorder(2 * a)[k] as nat, 2 * a)
                && 2 * a <= preorder(2 * a)[k],
        forall|k: int|
            0 <= k < preorder(2 * a + 1).len() ==> is_desc(
                #[trigger] preorder(2 * a + 1)[k] as nat,
                2 * a + 1,
            ) && 2 * a + 1 <= preorder(2 * a + 1)[k],
        0 <= i < j < preorder(a).len(),
    ensures
        preorder(a)[i] != preorder(a)[j],
{
    let l = preorder(2 * a);
    let r = preorder(2 * a + 1);
    let s = preorder(a);
    if i == 0 {
        if j < 1 + l.len() {
            assert(s[j] == l[j - 1]);
        } else {
            assert(s[j] == r[j - 1 - l.len()]);
        }
    } else if j < 1 + l.len() {
        assert(s[i] == l[i - 1]);
        assert(s[j] == l[j - 1]);
    } else if i >= 1 + l.len() {
        assert(s[i] == r[i - 1 - l.len()]);
        assert(s[j] == r[j - 1 - l.len()]);
    } else {
        assert(s[i] == l[i - 1]);
        assert(s[j] == r[j - 1 - l.len()]);
        if s[i] == s[j] {
            lemma_desc_nested(s[i] as nat, 2 * a, 2 * a + 1);
            assert(is_desc(a, 2 * a));
        }
    }
}

/// A descendant of `a` other than `a` descends from one of its children.
proof fn lemma_desc_child(x: nat, a: nat)
    requires
        is_desc(x, a),
        x != a,
    ensures
        is_desc(x, 2 * a) || is_desc(x, 2 * a + 1),
    decreases x,
{
    if x / 2 != a {
        lemma_desc_child(x / 2, a);
    }
}

proof fn lemma_desc_in_preorder(x: nat, a: nat)
    requires
        is_desc(x, a),
        x <= TREE_SIZE,
    ensures
        preorder(a).contains(x as usize),
    decreases 64 - a,
{
    if x == a {
        assert(preorder(a)[0] == x);
    } else {
        lemma_desc_child(x, a);
        let l = preorder(2 * a);
        if is_desc(x, 2 * a) {
            lemma_desc_in_preorder(x, 2 * a);
            let k = choose|k: int| 0 <= k < l.len() && l[k] == x;
            assert(preorder(a)[1 + k] == x);
        } else {
            lemma_desc_in_preorder(x, 2 * a + 1);
            let r = preorder(2 * a + 1);
            let k = choose|k: int| 0 <= k < r.len() && r[k] == x;
            assert(preorder(a)[1 + l.len() + k] == x);
        }
    }
}

proof fn lemma_desc_root(x: nat)
    requires
        x >= 1,
    ensures
        is_desc(x, 1),
    decreases x,
{
    if x > 1 {
        lemma_desc_root(x / 2);
    }
}

/// The pre-order of the whole tree lists each of its 31 nodes once.
pub proof fn lemma_preorder_complete()
    ensures
        preorder(1).len() == TREE_SIZE,
        preorder(1).no_duplicates(),
        forall|id: usize| preorder(1).contains(id) <==> is_tree_id(id as int),
{
    lemma_preorder_no_dup(1);
    lemma_preorder_desc(1);
    assert forall|id: usize| preorder(1).contains(id) <==> is_tree_id(id as int) by {
        lemma_tree_ids(id as int);
        if 1 <= id <= TREE_SIZE {
            lemma_desc_root(id as nat);
            lemma_desc_in_preorder(id as nat, 1);
        }
    }
    reveal_with_fuel(preorder, 6);
}

/// The children `2c + 1` and `2c` (in that order) that are numbered above `k`
/// and at most 31.
pub open spec fn children_above_rev(c: int, k: int) -> Seq<usize> {
    (if 2 * c + 1 <= TREE_SIZE && 2 * c + 1 > k {
        seq![(2 * c + 1) as usize]
    } else {
        Seq::empty()
    }) + (if 2 * c <= TREE_SIZE && 2 * c > k {
        seq![(2 * c) as usize]
    } else {
        Seq::empty()
    })
}

proof fn lemma_tree_children_rev(c: usize, visited: Seq<usize>, k: int)
    requires
        c >= 1,
        0 <= k <= TREE_SIZE,
        2 * c <= TREE_SIZE ==> !visited.contains((2 * c) as usize),
        2 * c + 1 <= TREE_SIZE ==> !visited.contains((2 * c + 1) as usize),
    ensures
        unvisited_children_rev(example_tree().subrange(k, TREE_SIZE as int), c, visited)
            == children_above_rev(c as int, k),
    decreases TREE_SIZE - k,
{
    let t = example_tree().subrange(k, TREE_SIZE as int);
    if k < TREE_SIZE {
        assert(t.drop_first() =~= example_tree().subrange(k + 1, TREE_SIZE as int));
        lemma_tree_children_rev(c, visited, k + 1);
        assert(t[0] == tree_node(k + 1));
    }
    assert(unvisited_children_rev(t, c, visited) =~= children_above_rev(c as int, k));
}

proof fn lemma_no_dup_split(a: Seq<usize>, b: Seq<usize>, x: usize)
    requires
        (a + b).no_duplicates(),
        b.contains(x),
    ensures
        !a.contains(x),
{
    if a.contains(x) {
        let i = choose|i: int| 0 <= i < a.len() && a[i] == x;
        let j = choose|j: int| 0 <= j < b.len() && b[j] == x;
        assert((a + b)[i] == (a + b)[a.len() + j]);
    }
}

/// Popping `c` in a traversal under way: `c` and its children are unvisited.
proof fn lemma_dfs_pop(s0: DfsState)
    requires
        s0.wf(),
        s0.tree_created,
        s0.stack.len() > 0,
    ensures
        ({
            let current = s0.stack.last();
            let c = current as nat;
            &&& !s0.visited.contains(current)
            &&& 2 * c <= TREE_SIZE ==> !s0.visited.contains((2 * c) as usize)
            &&& 2 * c + 1 <= TREE_SIZE ==> !s0.visited.contains((2 * c + 1) as usize)
        }),
{
    let current = s0.stack.last();
    let rest = s0.stack.drop_last();
    let c = current as nat;
    assert(s0.stack[s0.stack.len() - 1] == current);
    assert(pending(s0.stack) == preorder(c) + pending(rest));
    assert(s0.visited + pending(s0.stack) == preorder(1));
    lemma_preorder_no_dup(1);
    let pv = s0.visited + preorder(c);
    assert(s0.visited + (preorder(c) + pending(rest)) =~= pv + pending(rest));
    assert forall|x: usize| #[trigger] preorder(c).contains(x) implies !s0.visited.contains(x) by {
        let i = choose|i: int| 0 <= i < preorder(c).len() && preorder(c)[i] == x;
        assert((preorder(c) + pending(rest))[i] == x);
        lemma_no_dup_split(s0.visited, preorder(c) + pending(rest), x);
    }
    assert(preorder(c) == seq![current] + preorder(2 * c) + preorder(2 * c + 1));
    assert(preorder(c)[0] == current);
    assert(preorder(c).contains(current));
    if 2 * c <= TREE_SIZE {
        assert(preorder(2 * c)[0] == 2 * c);
        assert(preorder(2 * c + 1)[0] == 2 * c + 1);
        assert(preorder(c)[1] == 2 * c);
        assert(preorder(c)[1 + preorder(2 * c).len() as int] == 2 * c + 1);
        assert(preorder(c).contains((2 * c) as usize));
        assert(preorder(c).contains((2 * c + 1) as usize));
    }
}

/// Visiting the popped `c` and pushing its children (right first) keeps what was
/// visited followed by what the stack holds equal to the pre-order.
proof fn lemma_dfs_push(s0: DfsState, st: Seq<usize>)
    requires
        s0.wf(),
        s0.tree_created,
        s0.stack.len() > 0,
        st == s0.stack.drop_last() + unvisited_children_rev(
            example_tree().subrange(0, TREE_SIZE as int),
            s0.stack.last(),
            s0.visited.push(s0.stack.last()),
        ),
    ensures
        s0.visited.push(s0.stack.last()) + pending(st) == preorder(1),
        forall|i: int| 0 <= i < st.len() ==> 1 <= #[trigger] st[i] <= TREE_SIZE,
{
    lemma_dfs_pop(s0);
    let current = s0.stack.last();
    let rest = s0.stack.drop_last();
    let c = current as nat;
    let v1 = s0.visited.push(current);
    assert(v1[v1.len() - 1] == current);
    assert(s0.stack[s0.stack.len() - 1] == current);
    if 2 * c <= TREE_SIZE {
        if v1.contains((2 * c) as usize) {
            let i = choose|i: int| 0 <= i < v1.len() && v1[i] == 2 * c;
            if i < s0.visited.len() {
                assert(s0.visited[i] == 2 * c);
            }
        }
        if v1.contains((2 * c + 1) as usize) {
            let i = choose|i: int| 0 <= i < v1.len() && v1[i] == 2 * c + 1;
            if i < s0.visited.len() {
                assert(s0.visited[i] == 2 * c + 1);
            }
        }
    }
    lemma_tree_children_rev(current, v1, 0);
    if 2 * c <= TREE_SIZE {
        assert(st =~= rest.push((2 * c + 1) as usize).push((2 * c) as usize));
        assert(st.drop_last() =~= rest.push((2 * c + 1) as usize));
        assert(st.drop_last().drop_last() =~= rest);
        assert(st.last() == 2 * c);
        assert(st.drop_last().last() == 2 * c + 1);
        assert(pending(st.drop_last()) == preorder(2 * c + 1) + pending(rest));
        assert(pending(st) == preorder(2 * c) + pending(st.drop_last()));
        assert(pending(st) =~= preorder(2 * c) + (preorder(2 * c + 1) + pending(rest)));
    } else {
        assert(st =~= rest);
        assert(preorder(2 * c) =~= Seq::empty());
        assert(preorder(2 * c + 1) =~= Seq::empty());
    }
    assert(pending(s0.stack) == preorder(c) + pending(rest));
    assert(preorder(c) == seq![current] + preorder(2 * c) + preorder(2 * c + 1));
    assert(v1 + pending(st) =~= s0.visited + (preorder(c) + pending(rest)));
    assert forall|i: int| 0 <= i < st.len() implies 1 <= #[trigger] st[i] <= TREE_SIZE by {
        if i < rest.len() {
            assert(st[i] == s0.stack[i]);
        }
    }
}

/// The pre-order of the subtree rooted at `a` is a contiguous block of the whole
/// tree's pre-order.
proof fn lemma_preorder_block(a: nat)
    requires
        1 <= a <= TREE_SIZE,
    ensures
        exists|o: int|
            0 <= o && o + preorder(a).len() <= preorder(1).len() && #[trigger] preorder(1).subrange(
                o,
                o + preorder(a).len(),
            ) == preorder(a),
    decreases a,
{
    if a == 1 {
        assert(preorder(1).subrange(0, preorder(1).len() as int) =~= preorder(1));
        assert(preorder(1).subrange(0int, 0int + preorder(a).len()) == preorder(a));
    } else {
        let p = a / 2;
        lemma_preorder_block(p);
        let o = choose|o: int|
            0 <= o && o + preorder(p).len() <= preorder(1).len() && #[trigger] preorder(1).subrange(
                o,
                o + preorder(p).len(),
            ) == preorder(p);
        let l = preorder(2 * p);
        let r = preorder(2 * p + 1);
        assert(preorder(p) == seq![p as usize] + l + r);
        let blk = preorder(1).subrange(o, o + preorder(p).len());
        if a == 2 * p {
            assert forall|k: int| 0 <= k < l.len() implies preorder(1).subrange(o + 1, o + 1 + l.len())[k] == l[k] by {
                assert(blk[1 + k] == preorder(p)[1 + k]);
            }
            assert(preorder(1).subrange(o + 1, o + 1 + l.len()) =~= l);
            assert(preorder(1).subrange(o + 1, o + 1 + preorder(a).len()) == preorder(a));
        } else {
            assert forall|k: int| 0 <= k < r.len() implies preorder(1).subrange(o + 1 + l.len(), o + 1 + l.len() + r.len())[k] == r[k] by {
                assert(blk[1 + l.len() + k] == preorder(p)[1 + l.len() + k]);
            }
            assert(preorder(1).subrange(o + 1 + l.len(), o + 1 + l.len() + r.len()) =~= r);
            assert(preorder(1).subrange(o + 1 + l.len(), o + 1 + l.len() + preorder(a).len()) == preorder(a));
        }
    }
}

/// In the pre-order, every node of the left subtree of `a` comes before every node
/// of its right subtree.
proof fn lemma_preorder_left_first(a: nat, i: int, j: int)
    requires
        1 <= a,
        0 <= i < preorder(1).len(),
        0 <= j < preorder(1).len(),
        is_desc(preorder(1)[i] as nat, 2 * a),
        is_desc(preorder(1)[j] as nat, 2 * a + 1),
    ensures
        i < j,
{
    lemma_preorder_complete();
    lemma_preorder_desc(1);
    let x = preorder(1)[i] as nat;
    let y = preorder(1)[j] as nat;
    lemma_desc_parent(x, 2 * a, a);
    lemma_desc_parent(y, 2 * a + 1, a);
    lemma_desc_ge(x, 2 * a);
    lemma_desc_ge(y, 2 * a + 1);
    lemma_preorder_block(a);
    let o = choose|o: int|
        0 <= o && o + preorder(a).len() <= preorder(1).len() && #[trigger] preorder(1).subrange(
            o,
            o + preorder(a).len(),
        ) == preorder(a);
    let l = preorder(2 * a);
    let r = preorder(2 * a + 1);
    assert(preorder(a) == seq![a as usize] + l + r);
    lemma_desc_in_preorder(x, 2 * a);
    lemma_desc_in_preorder(y, 2 * a + 1);
    let k1 = choose|k: int| 0 <= k < l.len() && l[k] == x;
    let k2 = choose|k: int| 0 <= k < r.len() && r[k] == y;
    assert(preorder(1)[o + 1 + k1] == x) by {
        assert(preorder(1).subrange(o, o + preorder(a).len())[1 + k1] == x);
    }
    assert(preorder(1)[o + 1 + l.len() + k2] == y) by {
        assert(preorder(1).subrange(o, o + preorder(a).len())[1 + l.len() + k2] == y);
    }
}

proof fn lemma_desc_ge(x: nat, a: nat)
    requires
        is_desc(x, a),
    ensures
        x >= a,
        x <= TREE_SIZE ==> a <= TREE_SIZE,
{
}

/// At every point of the traversal, the nodes visited so far are a prefix of the
/// pre-order of the whole tree.
pub proof fn lemma_dfs_visited_prefix(s: DfsState)
    requires
        s.wf(),
        s.tree_created,
    ensures
        s.visited.len() <= preorder(1).len(),
        s.visited == preorder(1).take(s.visited.len() as int),
{
    if s.visited.len() > 0 || s.stack.len() > 0 {
        assert((s.visited + pending(s.stack)).take(s.visited.len() as int) =~= s.visited);
    } else {
        assert(preorder(1).take(0) =~= s.visited);
    }
}

/// At every point of the traversal, once a node of the right subtree of `a` has been
/// visited, every node `x` of the left subtree of `a` was visited before it.
pub proof fn lemma_dfs_left_subtree_first(s: DfsState, a: nat, x: nat, j: int)
    requires
        s.wf(),
        s.tree_created,
        1 <= a,
        1 <= x <= TREE_SIZE,
        is_desc(x, 2 * a),
        0 <= j < s.visited.len(),
        is_desc(s.visited[j] as nat, 2 * a + 1),
    ensures
        exists|i: int| 0 <= i < j && s.visited[i] == x,
{
    lemma_dfs_visited_prefix(s);
    let p = preorder(1);
    lemma_desc_root(x);
    lemma_desc_in_preorder(x, 1);
    let i0 = choose|i: int| 0 <= i < p.len() && p[i] == x;
    assert(p[j] == s.visited[j]);
    lemma_preorder_left_first(a, i0, j);
    assert(s.visited[i0] == x);
}

pub struct DFSVisualizer {
    nodes: Vec<(usize, usize, usize)>,
    current_node: Option<usize>,
    visited: Vec<usize>,
    dfs_stack: VecDeque<usize>,
    tree_created: bool,
    auto_traverse: bool,
    last_step_time: Option<u64>,
}

/// What a `DFSVisualizer` holds, as mathematical values. The top of `stack` is its
/// last element.
pub struct DfsState {
    pub nodes: Seq<(usize, usize, usize)>,
    pub current_node: Option<usize>,
    pub visited: Seq<usize>,
    pub stack: Seq<usize>,
    pub tree_created: bool,
    pub auto_traverse: bool,
    pub last_step_time: Option<u64>,
}

impl View for DFSVisualizer {
    type V = DfsState;

    closed spec fn view(&self) -> DfsState {
        DfsState {
            nodes: self.nodes@,
            current_node: self.current_node,
            visited: self.visited@,
            stack: self.dfs_stack@,
            tree_created: self.tree_created,
            auto_traverse: self.auto_traverse,
            last_step_time: self.last_step_time,
        }
    }
}

impl DfsState {
    /// Before the tree exists nothing is held; after, either the traversal has not
    /// begun, or what was visited followed by what the stack still holds is the
    /// pre-order of the whole tree.
    pub open spec fn wf(&self) -> bool {
        &&& !self.tree_created ==> self.nodes.len() == 0 && self.visited.len() == 0
            && self.stack.len() == 0
        &&& self.tree_created ==> {
            &&& self.nodes == example_tree()
            &&& forall|i: int| 0 <= i < self.stack.len() ==> 1 <= #[trigger] self.stack[i] <= TREE_SIZE
            &&& (self.visited.len() == 0 && self.stack.len() == 0) || self.visited + pending(
                self.stack,
            ) == preorder(1)
        }
    }

    /// One step: with an empty stack, nothing changes; else pop (see `after_pop`).
    pub open spec fn after_step(&self) -> DfsState {
        if self.stack.len() == 0 {
            *self
        } else {
            self.after_pop()
        }
    }

    /// The traversal has ended (or not begun): the stack is empty.
    pub open spec fn is_done(&self) -> bool {
        self.stack.len() == 0
    }

    /// `next` is this state after `start`: once the tree exists, the traversal
    /// restarts from the root with auto-play on; before, nothing changes.
    pub open spec fn started(&self, next: DfsState) -> bool {
        &&& !self.tree_created ==> next == *self
        &&& self.tree_created ==> next == (DfsState {
            current_node: None,
            visited: Seq::empty(),
            stack: seq![1usize],
            auto_traverse: true,
            last_step_time: None,
            ..*self
        })
    }

    /// The state after popping `c` off the stack and, if it was unvisited, visiting it
    /// and pushing its unvisited children so that the leftmost is on top.
    pub open spec fn after_pop(&self) -> DfsState {
        let c = self.stack.last();
        let rest = self.stack.drop_last();
        if self.visited.contains(c) {
            DfsState { stack: rest, ..*self }
        } else {
            DfsState {
                current_node: Some(c),
                visited: self.visited.push(c),
                stack: rest + unvisited_children_rev(self.nodes, c, self.visited.push(c)),
                ..*self
            }
        }
    }
}

/// Once the traversal ends, it has visited every node of the example tree once
/// (31 nodes), in pre-order: each node, then all of its left subtree, then all of
/// its right subtree.
pub proof fn lemma_dfs_visits_all(s: DfsState)
    requires
        s.wf(),
        s.tree_created,
        s.visited.len() > 0,
        s.stack.len() == 0,
    ensures
        s.visited == preorder(1),
        s.visited.len() == TREE_SIZE,
        s.visited.no_duplicates(),
        forall|id: usize| s.visited.contains(id) <==> is_tree_id(id as int),
{
    assert(s.visited + pending(s.stack) =~= s.visited);
    lemma_preorder_complete();
}

impl DFSVisualizer {
    /// An empty visualizer: no tree yet.
    pub fn new() -> (r: Self)
        ensures
            r@.wf(),
            r@ == (DfsState {
                nodes: Seq::empty(),
                current_node: None,
                visited: Seq::empty(),
                stack: Seq::empty(),
                tree_created: false,
                auto_traverse: false,
                last_step_time: None,
            }),
    {
        DFSVisualizer {
            nodes: Vec::new(),
            current_node: None,
            visited: Vec::new(),
            dfs_stack: VecDeque::new(),
            tree_created: false,
            auto_traverse: false,
            last_step_time: None,
        }
    }

    /// Once the tree exists, restarts the traversal from the root with auto-play on.
    fn start_dfs(&mut self)
        requires
            old(self)@.wf(),
        ensures
            final(self)@.wf(),
            !old(self)@.tree_created ==> final(self)@ == old(self)@,
            old(self)@.tree_created ==> final(self)@ == (DfsState {
                current_node: None,
                visited: Seq::empty(),
                stack: seq![1usize],
                auto_traverse: true,
                last_step_time: None,
                ..old(self)@
            }),
    {
        if self.tree_created {
            self.visited.clear();
            self.dfs_stack.clear();
            self.current_node = None;
            self.dfs_stack.push_back(1);
            self.auto_traverse = true;
            self.last_step_time = None;
            assert(self.dfs_stack@ =~= seq![1usize]);
            assert(self.dfs_stack@.drop_last() =~= Seq::<usize>::empty());
            assert(pending(self.dfs_stack@) =~= preorder(1) + pending(Seq::empty()));
            assert(self.visited@ + pending(self.dfs_stack@) =~= preorder(1));
        }
    }

    /// Builds the example tree and clears the traversal.
    fn create_example_tree(&mut self)
        ensures
            final(self)@.wf(),
            final(self)@ == (DfsState {
                nodes: example_tree(),
                current_node: None,
                visited: Seq::empty(),
                stack: Seq::empty(),
                tree_created: true,
                auto_traverse: false,
                ..old(self)@
            }),
    {
        self.nodes = build_example_tree();
        self.current_node = None;
        self.visited.clear();
        self.dfs_stack.clear();
        self.tree_created = true;
        self.auto_traverse = false;
    }

    /// Pops the top of the stack and, if it is unvisited, visits it and pushes its
    /// unvisited children, rightmost first. With an empty stack, does nothing.
    fn dfs_step(&mut self)
        requires
            old(self)@.wf(),
        ensures
            final(self)@.wf(),
            old(self)@.stack.len() == 0 ==> final(self)@ == old(self)@,
            old(self)@.stack.len() > 0 ==> final(self)@ == old(self)@.after_pop(),
    {
        let ghost s0 = self@;
        if let Some(current) = self.dfs_stack.pop_back() {
            proof {
                if s0.tree_created {
                    lemma_dfs_pop(s0);
                }
            }
            if !contains_usize(&self.visited, current) {
                self.current_node = Some(current);
                self.visited.push(current);
                let ghost q1 = self.dfs_stack@;
                let mut k: usize = self.nodes.len();
                while k > 0
                    invariant
                        k <= self.nodes.len(),
                        self.nodes@ == s0.nodes,
                        self.visited@ == s0.visited.push(current),
                        self.current_node == Some(current),
                        self.tree_created == s0.tree_created,
                        self.auto_traverse == s0.auto_traverse,
                        self.last_step_time == s0.last_step_time,
                        self.dfs_stack@ == q1 + unvisited_children_rev(
                            self.nodes@.subrange(k as int, self.nodes@.len() as int),
                            current,
                            self.visited@,
                        ),
                    decreases k,
                {
                    let (child_id, parent_id, _) = self.nodes[k - 1];
                    assert(self.nodes@.subrange(k - 1, self.nodes@.len() as int).drop_first()
                        =~= self.nodes@.subrange(k as int, self.nodes@.len() as int));
                    if parent_id == current && !contains_usize(&self.visited, child_id) {
                        self.dfs_stack.push_back(child_id);
                    }
                    k -= 1;
                }
                assert(self.nodes@.subrange(0, self.nodes@.len() as int) =~= self.nodes@);
                proof {
                    if s0.tree_created {
                        assert(self.nodes@.subrange(0, self.nodes@.len() as int) =~= example_tree().subrange(0, TREE_SIZE as int));
                        lemma_dfs_push(s0, self.dfs_stack@);
                    }
                }
            }
        }
    }

    /// Builds the example tree; the traversal waits for `start`.
    pub fn initialize(&mut self)
        ensures
            final(self)@.wf(),
            final(self)@ == (DfsState {
                nodes: example_tree(),
                current_node: None,
                visited: Seq::empty(),
                stack: Seq::empty(),
                tree_created: true,
                auto_traverse: false,
                ..old(self)@
            }),
    {
        self.create_example_tree();
    }

    /// One step of the traversal (see `dfs_step`): a traversal that has ended stays as
    /// it is, auto-play included.
    pub fn step(&mut self)
        requires
            old(self)@.wf(),
        ensures
            final(self)@.wf(),
            final(self)@ == old(self)@.after_step(),
            old(self)@.is_done() ==> final(self)@ == old(self)@,
    {
        self.dfs_step();
    }

    pub fn auto_play(&self) -> (r: bool)
        ensures
            r == self@.auto_traverse,
    {
        self.auto_traverse
    }

    pub fn toggle_auto_traverse(&mut self)
        requires
            old(self)@.wf(),
        ensures
            final(self)@.wf(),
            final(self)@ == (DfsState { auto_traverse: !old(self)@.auto_traverse, ..old(self)@ }),
    {
        self.auto_traverse = !self.auto_traverse;
    }

    /// Restarts the traversal from the root with auto-play on, once the tree exists.
    pub fn start(&mut self)
        requires
            old(self)@.wf(),
        ensures
            final(self)@.wf(),
            old(self)@.started(final(self)@),
    {
        self.start_dfs();
    }

    pub fn last_step_time(&self) -> (r: Option<u64>)
        ensures
            r == self@.last_step_time,
    {
        self.last_step_time
    }

    pub fn set_last_step_time(&mut self, time: Option<u64>)
        requires
            old(self)@.wf(),
        ensures
            final(self)@.wf(),
            final(self)@ == (DfsState { last_step_time: time, ..old(self)@ }),
    {
        self.last_step_time = time;
    }

    /// The tree's records `(id, parent, level)`.
    pub fn nodes(&self) -> (r: &Vec<(usize, usize, usize)>)
        ensures
            r@ == self@.nodes,
    {
        &self.nodes
    }

    pub fn visited(&self) -> (r: &Vec<usize>)
        ensures
            r@ == self@.visited,
    {
        &self.visited
    }

    pub fn current_node(&self) -> (r: Option<usize>)
        ensures
            r == self@.current_node,
    {
        self.current_node
    }

    pub fn stack(&self) -> (r: &VecDeque<usize>)
        ensures
            r@ == self@.stack,
    {
        &self.dfs_stack
    }
}

} // verus!

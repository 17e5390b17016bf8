//! The example tree that the traversals walk: a complete binary tree of four
//! levels below the root, its nodes numbered 1 to 31 level by level, so that the
//! children of `id` are `2 * id` and `2 * id + 1`.
use vstd::prelude::*;

verus! {

/// Number of nodes of the example tree.
pub const TREE_SIZE: usize = 31;

/// Depth below the root of node `id` (the root, 1, is at depth 0).
pub open spec fn level_of(id: nat) -> nat
    decreases id,
{
    if id <= 1 {
        0
    } else {
        1 + level_of(id / 2)
    }
}

/// The record `(id, parent, level)` of node `id`; the root's parent is 0.
pub open spec fn tree_node(id: int) -> (usize, usize, usize) {
    (id as usize, (id / 2) as usize, level_of(id as nat) as usize)
}

/// The example tree's records, in order of id.
pub open spec fn example_tree() -> Seq<(usize, usize, usize)> {
    Seq::new(TREE_SIZE as nat, |k: int| tree_node(k + 1))
}

/// Whether `id` names a node of the example tree.
pub open spec fn is_tree_id(id: int) -> bool {
    exists|k: int| 0 <= k < example_tree().len() && (#[trigger] example_tree()[k]).0 == id
}

pub proof fn lemma_tree_ids(id: int)
    ensures
        is_tree_id(id) <==> 1 <= id <= TREE_SIZE,
{
    if 1 <= id <= TREE_SIZE {
        assert(example_tree()[id - 1].0 == id);
    }
}

/// Nodes above level 4 are those numbered below 16.
pub proof fn lemma_level_below_four(id: nat)
    requires
        id >= 1,
    ensures
        level_of(id) < 4 <==> id < 16,
{
    reveal_with_fuel(level_of, 5);
}

pub proof fn lemma_level_le(id: nat)
    ensures
        level_of(id) <= id,
    decreases id,
{
    if id > 1 {
        lemma_level_le(id / 2);
    }
}

/// Deeper nodes have larger numbers.
pub proof fn lemma_level_monotone(a: nat, b: nat)
    requires
        1 <= a <= b,
    ensures
        level_of(a) <= level_of(b),
    decreases b,
{
    if a > 1 {
        lemma_level_monotone(a / 2, b / 2);
    }
}

/// Ids of the records of `nodes` whose parent is `c` and that `visited` does not
/// hold, in the order of `nodes`.
pub open spec fn unvisited_children(
    nodes: Seq<(usize, usize, usize)>,
    c: usize,
    visited: Seq<usize>,
) -> Seq<usize>
    decreases nodes.len(),
{
    if nodes.len() == 0 {
        Seq::empty()
    } else {
        let rest = unvisited_children(nodes.drop_last(), c, visited);
        let n = nodes.last();
        if n.1 == c && !visited.contains(n.0) {
            rest.push(n.0)
        } else {
            rest
        }
    }
}

/// How many of the children `2c` and `2c + 1` are numbered at most `n`.
pub open spec fn child_count(c: int, n: int) -> int {
    if n >= 2 * c + 1 {
        2
    } else if n >= 2 * c {
        1
    } else {
        0
    }
}

/// In the example tree, the unvisited children of `c` among the first `n` records
/// are those of `2c` and `2c + 1` that are numbered at most `n`.
pub proof fn lemma_tree_children(c: usize, visited: Seq<usize>, n: int)
    requires
        c >= 1,
        0 <= n <= TREE_SIZE,
        !visited.contains((2 * c) as usize),
        !visited.contains((2 * c + 1) as usize),
    ensures
        unvisited_children(example_tree().take(n), c, visited) == Seq::new(
            child_count(c as int, n) as nat,
            |i: int| (2 * c + i) as usize,
        ),
    decreases n,
{
    let t = example_tree().take(n);
    if n > 0 {
        assert(t.drop_last() =~= example_tree().take(n - 1));
        lemma_tree_children(c, visited, n - 1);
        assert(t.last() == tree_node(n));
    }
    assert(unvisited_children(t, c, visited) =~= Seq::new(
        child_count(c as int, n) as nat,
        |i: int| (2 * c + i) as usize,
    ));
}

/// Builds the example tree's records, generating children breadth first.
pub fn build_example_tree() -> (nodes: Vec<(usize, usize, usize)>)
    ensures
        nodes@ == example_tree(),
{
    let mut nodes: Vec<(usize, usize, usize)> = Vec::new();
    nodes.push((1, 0, 0));
    let mut p: usize = 0;
    let mut next_id: usize = 2;
    while p < nodes.len()
        invariant
            p <= nodes.len(),
            p <= 15 ==> nodes.len() == 2 * p + 1,
            p > 15 ==> nodes.len() == TREE_SIZE,
            next_id == nodes.len() + 1,
            forall|k: int| 0 <= k < nodes.len() ==> #[trigger] nodes@[k] == tree_node(k + 1),
        decreases TREE_SIZE - p,
    {
        let (parent_id, _, level) = nodes[p];
        proof {
            lemma_level_below_four((p + 1) as nat);
            lemma_level_le((p + 1) as nat);
            lemma_level_le((2 * (p + 1) + 1) as nat);
            lemma_level_le((2 * (p + 1)) as nat);
            assert(level_of((2 * (p + 1)) as nat) == 1 + level_of((p + 1) as nat));
            assert(level_of((2 * (p + 1) + 1) as nat) == 1 + level_of((p + 1) as nat));
        }
        if level < 4 {
            nodes.push((next_id, parent_id, level + 1));
            next_id += 1;
            nodes.push((next_id, parent_id, level + 1));
            next_id += 1;
        }
        p += 1;
    }
    assert(nodes@ =~= example_tree());
    nodes
}

} // verus!

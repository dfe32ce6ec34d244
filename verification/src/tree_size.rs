//! Size and memory accounting for the decision tree, exposed to external
//! callers as telemetry.
use vstd::prelude::*;

use crate::board::piece_count;
use crate::transposition::TranspositionStateTable;

verus! {

/// Contains different numerical details about the size of a decision tree.
#[derive(Debug, Clone, Copy)]
pub struct TreeSize {
    pub depth: usize,
    pub size: usize,
    pub memory: usize,
}

impl Default for TreeSize {
    /// An empty accounting.
    fn default() -> (r: TreeSize)
        ensures
            r.depth == 0 && r.size == 0 && r.memory == 0,
    {
        TreeSize { depth: 0, size: 0, memory: 0 }
    }
}

/// The bytes a table entry and its arena slot occupy, besides the edges.
pub const NODE_BYTES: usize = 104;

/// The bytes one child edge occupies.
pub const EDGE_BYTES: usize = 24;

/// How many child edges the live nodes among the first `n` slots hold.
pub open spec fn edges_upto(t: TranspositionStateTable, n: int) -> int
    decreases n,
{
    if n <= 0 {
        0
    } else {
        edges_upto(t, n - 1) + (if t.alive(n - 1) {
            t.node(n - 1).children@.len() as int
        } else {
            0
        })
    }
}

/// The node count the tree reports: the root handle plus one per edge, so
/// transposition nodes count once per path into them.
pub open spec fn tree_node_count(t: TranspositionStateTable) -> int {
    1 + edges_upto(t, t.num_slots())
}

/// The deepest live node's piece count among the first `n` slots.
pub open spec fn max_count_upto(t: TranspositionStateTable, n: int) -> int
    decreases n,
{
    if n <= 0 {
        0
    } else if t.alive(n - 1) && piece_count(t.grid_of(n - 1)) > max_count_upto(t, n - 1) {
        piece_count(t.grid_of(n - 1))
    } else {
        max_count_upto(t, n - 1)
    }
}

/// The approximate bytes the live nodes among the first `n` slots occupy.
pub open spec fn bytes_upto(t: TranspositionStateTable, n: int) -> int
    decreases n,
{
    if n <= 0 {
        0
    } else {
        bytes_upto(t, n - 1) + (if t.alive(n - 1) {
            NODE_BYTES + EDGE_BYTES * t.node(n - 1).children@.len() as int
        } else {
            0
        })
    }
}

proof fn lemma_size_bounds(t: TranspositionStateTable, n: int)
    requires
        t.wf(),
        0 <= n <= t.num_slots(),
    ensures
        0 <= edges_upto(t, n) <= 7 * n,
        0 <= bytes_upto(t, n) <= 300 * n,
        0 <= max_count_upto(t, n) <= 42,
    decreases n,
{
    if n > 0 {
        lemma_size_bounds(t, n - 1);
        if t.alive(n - 1) {
            assert(t.node_ok(n - 1));
            t.node(n - 1).board.lemma_wf_grid();
            crate::board::lemma_piece_count_bounds(t.grid_of(n - 1));
        }
    }
}

/// Calculates numerical details about a decision tree: its depth below the
/// given root, its node count, and the approximate memory it occupies.
pub fn calculate_size(table: &TranspositionStateTable, root: usize) -> (r: TreeSize)
    requires
        table.wf(),
        table.alive(root as int),
        table.num_slots() < 0x80_0000,
    ensures
        r.size as int == tree_node_count(*table),
        r.depth as int == max_count_upto(*table, table.num_slots()) - piece_count(
            table.grid_of(root as int),
        ) + 1,
        r.memory as int == bytes_upto(*table, table.num_slots()),
{
    let n = table.nodes_ref().len();
    let mut edges: usize = 0;
    let mut max_depth: u8 = 0;
    let mut memory: usize = 0;
    let mut i: usize = 0;
    while i < n
        invariant
            table.wf(),
            n == table.num_slots(),
            n < 0x80_0000,
            0 <= i <= n,
            edges as int == edges_upto(*table, i as int),
            edges <= 7 * i,
            max_depth as int == max_count_upto(*table, i as int),
            max_depth <= 42,
            memory as int == bytes_upto(*table, i as int),
            memory <= 300 * i,
        decreases n - i,
    {
        proof {
            lemma_size_bounds(*table, i as int);
        }
        match &table.nodes_ref()[i] {
            Some(node) => {
                proof {
                    assert(table.alive(i as int));
                    assert(*node == table.node(i as int));
                    assert(table.node_ok(i as int));
                    table.node(i as int).board.lemma_wf_grid();
                    crate::board::lemma_piece_count_bounds(table.grid_of(i as int));
                    assert(node.children@.len() <= 7);
                }
                edges = edges + node.children.len();
                memory = memory + NODE_BYTES + EDGE_BYTES * node.children.len();
                let d = node.get_depth();
                if d > max_depth {
                    max_depth = d;
                }
            },
            None => {},
        }
        i = i + 1;
    }
    let root_depth = match &table.nodes_ref()[root] {
        Some(node) => node.get_depth(),
        None => 0,
    };
    proof {
        // the root is one of the live nodes, so the maximum reaches it
        lemma_max_count_covers(*table, root as int, n as int);
    }
    TreeSize {
        depth: (max_depth - root_depth + 1) as usize,
        size: 1 + edges,
        memory,
    }
}

proof fn lemma_max_count_covers(t: TranspositionStateTable, j: int, n: int)
    requires
        t.alive(j),
        j < n,
        0 <= n,
    ensures
        max_count_upto(t, n) >= piece_count(t.grid_of(j)),
    decreases n,
{
    if j < n - 1 {
        lemma_max_count_covers(t, j, n - 1);
    }
}


/// Expanding one node's children by `c` edges, while every other live node
/// keeps its children and any new slots are unexpanded, grows the node
/// count by exactly `c`.
pub proof fn lemma_node_count_step(
    t0: TranspositionStateTable,
    t1: TranspositionStateTable,
    i: int,
    c: int,
)
    requires
        t0.num_slots() <= t1.num_slots(),
        t0.alive(i),
        t1.alive(i),
        forall|j: int| #[trigger] t0.alive(j) ==> t1.alive(j),
        forall|j: int| 0 <= j < t0.num_slots() && !t0.alive(j) ==> !t1.alive(j),
        forall|j: int| #[trigger] t0.alive(j) && j != i ==> t1.node(j) == t0.node(j),
        forall|j: int|
            t0.num_slots() <= j < t1.num_slots() && #[trigger] t1.alive(j) ==> t1.node(
                j,
            ).children@.len() == 0,
        t1.node(i).children@.len() == t0.node(i).children@.len() + c,
    ensures
        tree_node_count(t1) == tree_node_count(t0) + c,
{
    lemma_edges_step_prefix(t0, t1, i, c, t0.num_slots());
    lemma_edges_empty_tail(t1, t0.num_slots(), t1.num_slots());
}

proof fn lemma_edges_step_prefix(
    t0: TranspositionStateTable,
    t1: TranspositionStateTable,
    i: int,
    c: int,
    n: int,
)
    requires
        n <= t0.num_slots(),
        t0.alive(i),
        t1.alive(i),
        forall|j: int| #[trigger] t0.alive(j) ==> t1.alive(j),
        forall|j: int| 0 <= j < t0.num_slots() && !t0.alive(j) ==> !t1.alive(j),
        forall|j: int| #[trigger] t0.alive(j) && j != i ==> t1.node(j) == t0.node(j),
        t1.node(i).children@.len() == t0.node(i).children@.len() + c,
    ensures
        edges_upto(t1, n) == edges_upto(t0, n) + (if i < n {
            c
        } else {
            0int
        }),
    decreases n,
{
    if n > 0 {
        lemma_edges_step_prefix(t0, t1, i, c, n - 1);
    }
}

proof fn lemma_edges_empty_tail(t1: TranspositionStateTable, a: int, b: int)
    requires
        0 <= a <= b,
        forall|j: int|
            a <= j < b && #[trigger] t1.alive(j) ==> t1.node(j).children@.len() == 0,
    ensures
        edges_upto(t1, b) == edges_upto(t1, a),
    decreases b - a,
{
    if a < b {
        lemma_edges_empty_tail(t1, a, b - 1);
    }
}

/// Growing the tree never shrinks its node count: keeping every live node
/// (with at least its children) and only adding slots adds edges.
pub proof fn lemma_node_count_monotone(t1: TranspositionStateTable, t2: TranspositionStateTable)
    requires
        t1.num_slots() <= t2.num_slots(),
        forall|j: int|
            #[trigger] t1.alive(j) ==> t2.alive(j) && t2.node(j).children@.len() >= t1.node(
                j,
            ).children@.len(),
    ensures
        tree_node_count(t1) <= tree_node_count(t2),
{
    lemma_edges_pointwise(t1, t2, t1.num_slots());
    lemma_edges_extend(t2, t1.num_slots(), t2.num_slots());
}

proof fn lemma_edges_pointwise(t1: TranspositionStateTable, t2: TranspositionStateTable, n: int)
    requires
        n <= t1.num_slots(),
        forall|j: int|
            #[trigger] t1.alive(j) ==> t2.alive(j) && t2.node(j).children@.len() >= t1.node(
                j,
            ).children@.len(),
    ensures
        edges_upto(t1, n) <= edges_upto(t2, n),
    decreases n,
{
    if n > 0 {
        lemma_edges_pointwise(t1, t2, n - 1);
    }
}

proof fn lemma_edges_extend(t: TranspositionStateTable, a: int, b: int)
    requires
        a <= b,
    ensures
        edges_upto(t, a) <= edges_upto(t, b),
    decreases b - a,
{
    if a < b {
        lemma_edges_extend(t, a, b - 1);
    }
}

} // verus!

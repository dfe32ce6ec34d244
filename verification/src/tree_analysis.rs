//! Alpha-beta search: evaluates a subtree to the exact minimax value its
//! expanded portion defines, memoizing resolved positions in a separate
//! score table.
use vstd::prelude::*;

use crate::board::{grid_wf, lemma_piece_count_bounds, mirrored, piece_count, Grid};
use crate::heuristics::{heuristic, how_good_is_board, lemma_heuristic_bounds};
use crate::transposition::{
    grid_key, lemma_grid_key_injective, IsFlipped, TranspositionStateTable, TranspositionTable,
};
use crate::win_check::GameOver;

verus! {

/// The score of a position the first player has won.
pub open spec fn score_min() -> int {
    isize::MIN as int
}

/// The score of a position the second player has won.
pub open spec fn score_max() -> int {
    isize::MAX as int
}

/// The larger of two scores.
pub open spec fn cmax(a: int, b: int) -> int {
    if a >= b {
        a
    } else {
        b
    }
}

/// The smaller of two scores.
pub open spec fn cmin(a: int, b: int) -> int {
    if a <= b {
        a
    } else {
        b
    }
}

/// The exact value of the expanded tree under node `i`: decided games score
/// their sentinel, unexpanded leaves their heuristic, and inner nodes the
/// best child value for the player on the move.
pub open spec fn minimax(t: TranspositionStateTable, i: int) -> int
    decreases 43 - piece_count(t.grid_of(i)), 1 + t.node(i).children@.len()
        when t.wf() && t.alive(i)
    via minimax_dec
{
    if t.node(i).game_over == GameOver::Tie {
        0
    } else if t.node(i).game_over == GameOver::OneWins {
        score_min()
    } else if t.node(i).game_over == GameOver::TwoWins {
        score_max()
    } else if t.node(i).children@.len() == 0 {
        heuristic(t.grid_of(i))
    } else if t.node(i).turn {
        children_max(t, i, t.node(i).children@.len() as int)
    } else {
        children_min(t, i, t.node(i).children@.len() as int)
    }
}

/// The largest child value among the first `k` children of node `i`.
pub open spec fn children_max(t: TranspositionStateTable, i: int, k: int) -> int
    decreases 43 - piece_count(t.grid_of(i)), k
        when t.wf() && t.alive(i) && 0 <= k <= t.node(i).children@.len()
    via children_max_dec
{
    if k <= 0 {
        score_min()
    } else {
        cmax(children_max(t, i, k - 1), minimax(t, t.node(i).children@[k - 1].state as int))
    }
}

/// The smallest child value among the first `k` children of node `i`.
pub open spec fn children_min(t: TranspositionStateTable, i: int, k: int) -> int
    decreases 43 - piece_count(t.grid_of(i)), k
        when t.wf() && t.alive(i) && 0 <= k <= t.node(i).children@.len()
    via children_min_dec
{
    if k <= 0 {
        score_max()
    } else {
        cmin(children_min(t, i, k - 1), minimax(t, t.node(i).children@[k - 1].state as int))
    }
}

/// A child edge steps one piece deeper into the game.
pub proof fn lemma_edge_count_pub(t: TranspositionStateTable, i: int, k: int)
    requires
        t.wf(),
        t.alive(i),
        0 <= k < t.node(i).children@.len(),
    ensures
        t.alive(t.node(i).children@[k].state as int),
        piece_count(t.grid_of(t.node(i).children@[k].state as int)) == piece_count(t.grid_of(i))
            + 1,
        0 <= piece_count(t.grid_of(i)) <= 41,
{
    lemma_edge_count(t, i, k);
}

/// A child edge steps one piece deeper into the game.
proof fn lemma_edge_count(t: TranspositionStateTable, i: int, k: int)
    requires
        t.wf(),
        t.alive(i),
        0 <= k < t.node(i).children@.len(),
    ensures
        t.alive(t.node(i).children@[k].state as int),
        piece_count(t.grid_of(t.node(i).children@[k].state as int)) == piece_count(t.grid_of(i))
            + 1,
        0 <= piece_count(t.grid_of(i)) <= 41,
{
    let e = t.node(i).children@[k];
    assert(t.node_ok(i));
    assert(t.edge_ok(i, e));
    t.node(i).board.lemma_wf_grid();
    crate::board::lemma_drop_piece_count(t.grid_of(i), e.last_move as int, t.node(i).turn);
    let rb = crate::win_check::drop_result(t.grid_of(i), e.last_move as int, t.node(i).turn);
    if e.is_flipped != IsFlipped::Normal {
        crate::board::lemma_mirror_piece_count(rb);
    }
    lemma_piece_count_bounds(t.grid_of(i));
    t.node(e.state as int).board.lemma_wf_grid();
    lemma_piece_count_bounds(t.grid_of(e.state as int));
}

#[via_fn]
proof fn minimax_dec(t: TranspositionStateTable, i: int) {
}

#[via_fn]
proof fn children_max_dec(t: TranspositionStateTable, i: int, k: int) {
    if k > 0 {
        lemma_edge_count(t, i, k - 1);
    }
}

#[via_fn]
proof fn children_min_dec(t: TranspositionStateTable, i: int, k: int) {
    if k > 0 {
        lemma_edge_count(t, i, k - 1);
    }
}

/// Every partial maximum dominates the children it covers and is witnessed
/// by one of them, unless no child is covered yet.
proof fn lemma_children_max_shape(t: TranspositionStateTable, i: int, k: int)
    requires
        t.wf(),
        t.alive(i),
        0 <= k <= t.node(i).children@.len(),
    ensures
        forall|kk: int|
            0 <= kk < k ==> children_max(t, i, k) >= minimax(
                t,
                (#[trigger] t.node(i).children@[kk]).state as int,
            ),
        children_max(t, i, k) == score_min() || exists|kk: int|
            0 <= kk < k && children_max(t, i, k) == minimax(
                t,
                (#[trigger] t.node(i).children@[kk]).state as int,
            ),
    decreases k,
{
    if k > 0 {
        lemma_children_max_shape(t, i, k - 1);
    }
}

/// Every partial minimum is dominated by the children it covers and is
/// witnessed by one of them, unless no child is covered yet.
proof fn lemma_children_min_shape(t: TranspositionStateTable, i: int, k: int)
    requires
        t.wf(),
        t.alive(i),
        0 <= k <= t.node(i).children@.len(),
    ensures
        forall|kk: int|
            0 <= kk < k ==> children_min(t, i, k) <= minimax(
                t,
                (#[trigger] t.node(i).children@[kk]).state as int,
            ),
        children_min(t, i, k) == score_max() || exists|kk: int|
            0 <= kk < k && children_min(t, i, k) == minimax(
                t,
                (#[trigger] t.node(i).children@[kk]).state as int,
            ),
    decreases k,
{
    if k > 0 {
        lemma_children_min_shape(t, i, k - 1);
    }
}

/// The tree value always lies between the two sentinels.
pub proof fn lemma_minimax_bounds(t: TranspositionStateTable, i: int)
    requires
        t.wf(),
        t.alive(i),
    ensures
        score_min() <= minimax(t, i) <= score_max(),
    decreases 43 - piece_count(t.grid_of(i)), 1 + t.node(i).children@.len(),
{
    t.node(i).board.lemma_wf_grid();
    lemma_piece_count_bounds(t.grid_of(i));
    if t.node(i).game_over == GameOver::NoWin && t.node(i).children@.len() == 0 {
        t.node(i).board.lemma_wf_grid();
        lemma_heuristic_bounds(t.grid_of(i));
    } else if t.node(i).game_over == GameOver::NoWin {
        lemma_children_bounds(t, i, t.node(i).children@.len() as int);
    }
}

proof fn lemma_children_bounds(t: TranspositionStateTable, i: int, k: int)
    requires
        t.wf(),
        t.alive(i),
        0 <= k <= t.node(i).children@.len(),
    ensures
        score_min() <= children_max(t, i, k) <= score_max(),
        score_min() <= children_min(t, i, k) <= score_max(),
    decreases 43 - piece_count(t.grid_of(i)), k,
{
    if k > 0 {
        lemma_children_bounds(t, i, k - 1);
        lemma_edge_count(t, i, k - 1);
        lemma_minimax_bounds(t, t.node(i).children@[k - 1].state as int);
    }
}

/// The score table holds only exact values: each entry is the tree value of
/// the live node whose board it is keyed by.
pub open spec fn score_cache_ok(t: TranspositionStateTable, cache: TranspositionTable<isize>) -> bool {
    &&& cache.wf()
    &&& forall|k: u64|
        #[trigger] cache.as_map().dom().contains(k) ==> exists|j: int|
            #[trigger] t.alive(j) && grid_key(t.grid_of(j)) == k && cache.as_map()[k] as int
                == minimax(t, j)
}

/// A cache hit at a node, straight or mirrored, is that node's own value.
proof fn lemma_cache_hit(t: TranspositionStateTable, cache: TranspositionTable<isize>, i: int, k: u64)
    requires
        t.wf(),
        t.alive(i),
        score_cache_ok(t, cache),
        cache.as_map().dom().contains(k),
        k == grid_key(t.grid_of(i)) || k == grid_key(mirrored(t.grid_of(i))),
    ensures
        cache.as_map()[k] as int == minimax(t, i),
{
    let j = choose|j: int|
        #[trigger] t.alive(j) && grid_key(t.grid_of(j)) == k && cache.as_map()[k] as int
            == minimax(t, j);
    t.node(i).board.lemma_wf_grid();
    t.node(j).board.lemma_wf_grid();
    if k == grid_key(t.grid_of(i)) {
        lemma_grid_key_injective(t.grid_of(j), t.grid_of(i));
        assert(t.key_map().dom().contains(grid_key(t.grid_of(i))));
        assert(t.key_map()[grid_key(t.grid_of(i))] == i);
        assert(t.key_map()[grid_key(t.grid_of(j))] == j);
        assert(i == j);
    } else {
        assert(grid_wf(mirrored(t.grid_of(i)))) by {
            t.node(i).board.lemma_wf_grid();
        }
        lemma_grid_key_injective(t.grid_of(j), mirrored(t.grid_of(i)));
        assert(t.grid_of(j) == mirrored(t.grid_of(i)));
        assert(i == j);
    }
}

/// An implementation of alpha-beta pruning, a faster version of the
/// mini-max algorithm: within the window the result is the exact tree
/// value, and outside it a sound bound in the failing direction.
#[verifier::rlimit(100)]
fn alpha_beta_pruning(
    t: &TranspositionStateTable,
    i: usize,
    alpha: isize,
    beta: isize,
    table: &mut TranspositionTable<isize>,
) -> (r: isize)
    requires
        t.wf(),
        t.alive(i as int),
        score_cache_ok(*t, *old(table)),
        alpha < beta,
    ensures
        score_cache_ok(*t, *final(table)),
        r <= alpha ==> minimax(*t, i as int) <= r,
        r >= beta ==> minimax(*t, i as int) >= r,
        alpha < r && r < beta ==> r == minimax(*t, i as int),
    decreases 43 - piece_count(t.grid_of(i as int)),
{
    proof {
        t.node(i as int).board.lemma_wf_grid();
        lemma_piece_count_bounds(t.grid_of(i as int));
    }
    // If the game is over, we can return a score based on who won
    let (game_over, turn, childless) = match &t.nodes_ref()[i] {
        Some(n) => (n.game_over, n.turn, n.children.len() == 0),
        None => (GameOver::NoWin, false, true),
    };
    match game_over {
        GameOver::Tie => {
            return 0;
        },
        GameOver::OneWins => {
            return isize::MIN;
        },
        GameOver::TwoWins => {
            return isize::MAX;
        },
        GameOver::NoWin => {},
    }
    // Check the transposition table for the value of this node
    let cached = match &t.nodes_ref()[i] {
        Some(n) => table.get_transposed(&n.board),
        None => None,
    };
    if let Some((score, which)) = cached {
        proof {
            let g = t.grid_of(i as int);
            if table.as_map().dom().contains(grid_key(g)) {
                lemma_cache_hit(*t, *table, i as int, grid_key(g));
            } else {
                lemma_cache_hit(*t, *table, i as int, grid_key(mirrored(g)));
            }
        }
        return score;
    }
    // If the BoardState is an unexpanded leaf we can use our heuristic
    if childless {
        let score = match &t.nodes_ref()[i] {
            Some(n) => how_good_is_board(&n.board),
            None => 0,
        };
        let ghost prev = *table;
        match &t.nodes_ref()[i] {
            Some(n) => {
                table.insert(&n.board, score);
            },
            None => {},
        }
        proof {
            lemma_heuristic_bounds(t.grid_of(i as int));
            assert(score as int == minimax(*t, i as int));
            assert forall|k: u64| #[trigger] table.as_map().dom().contains(k) implies exists|j: int|
                #[trigger] t.alive(j) && grid_key(t.grid_of(j)) == k && table.as_map()[k] as int
                    == minimax(*t, j) by {
                if k == grid_key(t.grid_of(i as int)) {
                    assert(t.alive(i as int) && grid_key(t.grid_of(i as int)) == k
                        && table.as_map()[k] as int == minimax(*t, i as int));
                } else {
                    assert(prev.as_map().dom().contains(k));
                }
            }
        }
        return score;
    }
    // Otherwise we can proceed with alpha-beta pruning the child nodes
    let child_count = match &t.nodes_ref()[i] {
        Some(n) => n.children.len(),
        None => 0,
    };
    proof {
        lemma_children_max_shape(*t, i as int, child_count as int);
        lemma_children_min_shape(*t, i as int, child_count as int);
    }
    if turn {
        // We are the maximizing player
        let mut value: isize = isize::MIN;
        let mut alpha_run = alpha;
        let mut k: usize = 0;
        while k < child_count
            invariant
                t.wf(),
                t.alive(i as int),
                t.node(i as int).game_over == GameOver::NoWin,
                t.node(i as int).turn,
                child_count == t.node(i as int).children@.len(),
                child_count > 0,
                0 <= k <= child_count,
                score_cache_ok(*t, *table),
                alpha < beta,
                alpha <= alpha_run < beta,
                alpha_run as int == cmax(alpha as int, value as int),
                value < beta,
                forall|kk: int|
                    0 <= kk < k ==> minimax(
                        *t,
                        (#[trigger] t.node(i as int).children@[kk]).state as int,
                    ) <= value,
                value > alpha ==> exists|kk: int|
                    0 <= kk < k && minimax(
                        *t,
                        (#[trigger] t.node(i as int).children@[kk]).state as int,
                    ) >= value,
            decreases child_count - k,
        {
            let child = match &t.nodes_ref()[i] {
                Some(n) => n.children[k].get_state(),
                None => 0,
            };
            proof {
                lemma_edge_count(*t, i as int, k as int);
            }
            let cv = alpha_beta_pruning(t, child, alpha_run, beta, table);
            let ghost mm_c = minimax(*t, child as int);
            proof {
                if cv < beta {
                    if cv <= alpha_run {
                        assert(mm_c <= cv as int);
                    } else {
                        assert(mm_c == cv as int);
                    }
                }
            }
            if cv > value {
                value = cv;
            }
            if value >= beta {
                proof {
                    assert(mm_c >= value as int);
                    lemma_children_max_shape(*t, i as int, child_count as int);
                    assert(children_max(*t, i as int, child_count as int) >= mm_c);
                    assert(minimax(*t, i as int) >= value as int);
                }
                return value;
            }
            if value > alpha_run {
                alpha_run = value;
            }
            k = k + 1;
        }
        proof {
            lemma_children_max_shape(*t, i as int, child_count as int);
            let m = children_max(*t, i as int, child_count as int);
            assert(minimax(*t, i as int) == m);
            if m != score_min() {
                let kk = choose|kk: int|
                    0 <= kk < child_count && m == minimax(
                        *t,
                        (#[trigger] t.node(i as int).children@[kk]).state as int,
                    );
                assert(m <= value as int);
            }
            assert(minimax(*t, i as int) <= value as int);
            if value > alpha {
                let kk = choose|kk: int|
                    0 <= kk < child_count && minimax(
                        *t,
                        (#[trigger] t.node(i as int).children@[kk]).state as int,
                    ) >= value as int;
                assert(m >= minimax(*t, t.node(i as int).children@[kk].state as int));
                assert(minimax(*t, i as int) == value as int);
            }
        }
        if value > alpha {
            let ghost prev = *table;
            match &t.nodes_ref()[i] {
                Some(n) => {
                    table.insert(&n.board, value);
                },
                None => {},
            }
            proof {
                assert forall|kc: u64| #[trigger]
                    table.as_map().dom().contains(kc) implies exists|j: int|
                    #[trigger] t.alive(j) && grid_key(t.grid_of(j)) == kc
                        && table.as_map()[kc] as int == minimax(*t, j) by {
                    if kc == grid_key(t.grid_of(i as int)) {
                        assert(t.alive(i as int) && grid_key(t.grid_of(i as int)) == kc
                            && table.as_map()[kc] as int == minimax(*t, i as int));
                    } else {
                        assert(prev.as_map().dom().contains(kc));
                    }
                }
            }
        }
        value
    } else {
        // We are the minimizing player
        let mut value: isize = isize::MAX;
        let mut beta_run = beta;
        let mut k: usize = 0;
        while k < child_count
            invariant
                t.wf(),
                t.alive(i as int),
                t.node(i as int).game_over == GameOver::NoWin,
                !t.node(i as int).turn,
                child_count == t.node(i as int).children@.len(),
                child_count > 0,
                0 <= k <= child_count,
                score_cache_ok(*t, *table),
                alpha < beta,
                alpha < beta_run <= beta,
                beta_run as int == cmin(beta as int, value as int),
                value > alpha,
                forall|kk: int|
                    0 <= kk < k ==> minimax(
                        *t,
                        (#[trigger] t.node(i as int).children@[kk]).state as int,
                    ) >= value,
                value < beta ==> exists|kk: int|
                    0 <= kk < k && minimax(
                        *t,
                        (#[trigger] t.node(i as int).children@[kk]).state as int,
                    ) <= value,
            decreases child_count - k,
        {
            let child = match &t.nodes_ref()[i] {
                Some(n) => n.children[k].get_state(),
                None => 0,
            };
            proof {
                lemma_edge_count(*t, i as int, k as int);
            }
            let cv = alpha_beta_pruning(t, child, alpha, beta_run, table);
            let ghost mm_c = minimax(*t, child as int);
            proof {
                if cv > alpha {
                    if cv >= beta_run {
                        assert(mm_c >= cv as int);
                    } else {
                        assert(mm_c == cv as int);
                    }
                }
            }
            if cv < value {
                value = cv;
            }
            if value <= alpha {
                proof {
                    assert(mm_c <= value as int);
                    lemma_children_min_shape(*t, i as int, child_count as int);
                    assert(children_min(*t, i as int, child_count as int) <= mm_c);
                    assert(minimax(*t, i as int) <= value as int);
                }
                return value;
            }
            if value < beta_run {
                beta_run = value;
            }
            k = k + 1;
        }
        proof {
            lemma_children_min_shape(*t, i as int, child_count as int);
            let m = children_min(*t, i as int, child_count as int);
            assert(minimax(*t, i as int) == m);
            if m != score_max() {
                let kk = choose|kk: int|
                    0 <= kk < child_count && m == minimax(
                        *t,
                        (#[trigger] t.node(i as int).children@[kk]).state as int,
                    );
                assert(m >= value as int);
            }
            assert(minimax(*t, i as int) >= value as int);
            if value < beta {
                let kk = choose|kk: int|
                    0 <= kk < child_count && minimax(
                        *t,
                        (#[trigger] t.node(i as int).children@[kk]).state as int,
                    ) <= value as int;
                assert(m <= minimax(*t, t.node(i as int).children@[kk].state as int));
                assert(minimax(*t, i as int) == value as int);
            }
        }
        if value < beta {
            let ghost prev = *table;
            match &t.nodes_ref()[i] {
                Some(n) => {
                    table.insert(&n.board, value);
                },
                None => {},
            }
            proof {
                assert forall|kc: u64| #[trigger]
                    table.as_map().dom().contains(kc) implies exists|j: int|
                    #[trigger] t.alive(j) && grid_key(t.grid_of(j)) == kc
                        && table.as_map()[kc] as int == minimax(*t, j) by {
                    if kc == grid_key(t.grid_of(i as int)) {
                        assert(t.alive(i as int) && grid_key(t.grid_of(i as int)) == kc
                            && table.as_map()[kc] as int == minimax(*t, i as int));
                    } else {
                        assert(prev.as_map().dom().contains(kc));
                    }
                }
            }
        }
        value
    }
}

/// Analyses a node to determine how good it is based off of its entire
/// expanded decision tree: the result is exactly the tree's minimax value.
pub fn how_good_is(
    t: &TranspositionStateTable,
    i: usize,
    table: &mut TranspositionTable<isize>,
) -> (r: isize)
    requires
        t.wf(),
        t.alive(i as int),
        score_cache_ok(*t, *old(table)),
    ensures
        score_cache_ok(*t, *final(table)),
        r as int == minimax(*t, i as int),
{
    let r = alpha_beta_pruning(t, i, isize::MIN, isize::MAX, table);
    proof {
        lemma_minimax_bounds(*t, i as int);
    }
    r
}

} // verus!

//! The game manager: owns the tree, applies moves by narrowing it to the
//! chosen child, grows it incrementally, and reports per-move scores and
//! size telemetry to external callers.
use vstd::prelude::*;

use crate::board::{
    cell_code, empty_grid, grid_from_rows, rows_view, Board, Grid, BOARD_HEIGHT, BOARD_WIDTH,
};
use crate::layer_generator::LayerGenerator;
use crate::transposition::{TranspositionStateTable, TranspositionTable};
use crate::tree_analysis::{how_good_is, minimax, score_cache_ok, score_max, score_min};
use crate::tree_size::{calculate_size, tree_node_count, TreeSize};
use crate::win_check::{game_outcome, GameOver};
use std::collections::HashMap;

verus! {

/// Why a requested move was rejected.
#[derive(Debug, PartialEq, Eq, Structural, Clone, Copy)]
pub enum MoveError {
    GameAlreadyOver,
    InvalidColumn,
}

/// A per-move score as the player on the move reads it: the raw tree value
/// for the second player, the negated one (sentinels exchanged) for the
/// first.
pub open spec fn oriented_score(turn: bool, v: int) -> int {
    if turn {
        v
    } else if v == score_min() {
        score_max()
    } else if v == score_max() {
        score_min()
    } else {
        -v
    }
}

pub struct GameManager {
    root: usize,
    table: TranspositionStateTable,
    layer_generator: LayerGenerator,
}

impl GameManager {
    /// The node store behind this game.
    pub closed spec fn tbl(self) -> TranspositionStateTable {
        self.table
    }

    /// The arena index of the current root.
    pub closed spec fn root_id(self) -> int {
        self.root as int
    }

    /// The generator driving tree growth.
    pub closed spec fn gen(self) -> LayerGenerator {
        self.layer_generator
    }

    /// The manager is consistent: its table is, its root is live, and its
    /// generator's buffers fit the table.
    pub open spec fn wf(self) -> bool {
        &&& self.tbl().wf()
        &&& self.tbl().alive(self.root_id())
        &&& self.gen().buffers_wf(self.tbl())
    }

    /// The current position.
    pub open spec fn root_grid(self) -> Grid {
        self.tbl().grid_of(self.root_id())
    }

    /// Whose move it is.
    pub open spec fn root_turn(self) -> bool {
        self.tbl().node(self.root_id()).turn
    }

    /// Starts a new game with an empty board.
    pub fn new_game() -> (r: GameManager)
        ensures
            r.wf(),
            r.root_grid() == empty_grid(),
            r.root_turn() == false,
    {
        let mut table = TranspositionStateTable::new();
        let (state, _) = table.get_board_state(Board::default(), false);
        let layer_generator = LayerGenerator::new(&table);

        GameManager { root: state, table, layer_generator }
    }

    /// Starts a new game from a position, given as array[row][col] with row
    /// 0 at the top.
    pub fn start_from_position(position: &Vec<Vec<u8>>, turn: bool) -> (r: GameManager)
        requires
            position@.len() == BOARD_HEIGHT,
            forall|i: int|
                0 <= i < BOARD_HEIGHT ==> #[trigger] rows_view(position@)[i].len() == BOARD_WIDTH,
            forall|i: int, j: int|
                0 <= i < BOARD_HEIGHT && 0 <= j < BOARD_WIDTH ==> #[trigger] rows_view(
                    position@,
                )[i][j] <= 2,
        ensures
            r.wf(),
            r.root_grid() == grid_from_rows(rows_view(position@)),
            r.root_turn() == turn,
    {
        let mut table = TranspositionStateTable::new();
        let board = Board::from_arrays(position);
        let (state, _) = table.get_board_state(board, turn);
        let layer_generator = LayerGenerator::new(&table);

        GameManager { root: state, table, layer_generator }
    }

    /// Returns the current position of the game as array[row][col], row 0 at
    /// the top.
    pub fn get_position(&self) -> (r: Vec<Vec<u8>>)
        requires
            self.wf(),
        ensures
            r@.len() == BOARD_HEIGHT,
            forall|i: int|
                0 <= i < BOARD_HEIGHT ==> #[trigger] rows_view(r@)[i].len() == BOARD_WIDTH,
            forall|i: int, j: int|
                0 <= i < BOARD_HEIGHT && 0 <= j < BOARD_WIDTH ==> #[trigger] rows_view(r@)[i][j]
                    == cell_code(self.root_grid(), j, BOARD_HEIGHT - 1 - i),
    {
        match &self.table.nodes_ref()[self.root] {
            Some(node) => node.board.to_arrays(),
            None => Vec::new(),
        }
    }

    /// Generates approximately x board states in the decision tree,
    /// stepping the layer generator until enough were generated or the
    /// reachable tree is complete. Returns the number of board states
    /// generated: the node count grows by exactly that much, and a short
    /// count means the generator ran out of frontier.
    pub fn try_generate_x_states(&mut self, x: usize) -> (r: usize)
        requires
            old(self).wf(),
            x < usize::MAX - 7,
        ensures
            final(self).wf(),
            final(self).root_id() == old(self).root_id(),
            final(self).root_grid() == old(self).root_grid(),
            final(self).root_turn() == old(self).root_turn(),
            tree_node_count(final(self).tbl()) == tree_node_count(old(self).tbl()) + r,
            r <= x + 6,
            r == 0 ==> final(self).tbl() == old(self).tbl(),
            r < x ==> final(self).gen().previous_view().len() == 0
                && final(self).gen().new_view().len() == 0,
            (old(self).gen().previous_view().len() == 0 && old(self).gen().new_view().len() == 0)
                ==> r == 0,
    {
        let mut num_generated: usize = 0;
        proof {
            crate::layer_generator::lemma_gen_potential_nonneg(self.gen(), self.tbl());
        }
        while num_generated < x
            invariant
                self.wf(),
                x < usize::MAX - 7,
                self.root_id() == old(self).root_id(),
                self.root_grid() == old(self).root_grid(),
                self.root_turn() == old(self).root_turn(),
                num_generated <= x + 6,
                tree_node_count(self.tbl()) == tree_node_count(old(self).tbl())
                    + num_generated,
                num_generated == 0 ==> self.tbl() == old(self).tbl(),
                (old(self).gen().previous_view().len() == 0 && old(
                    self,
                ).gen().new_view().len() == 0) ==> (num_generated == 0
                    && self.gen().previous_view().len() == 0 && self.gen().new_view().len()
                    == 0),
                crate::layer_generator::gen_potential(self.gen(), self.tbl()) >= 0,
            ensures
                num_generated >= x || (self.gen().previous_view().len() == 0
                    && self.gen().new_view().len() == 0),
            decreases crate::layer_generator::gen_potential(self.gen(), self.tbl()),
        {
            let ghost pre_g = self.gen();
            let ghost pre_t = self.tbl();
            let step = self.layer_generator.next(&mut self.table);
            proof {
                assert(self.tbl().alive(old(self).root_id()));
            }
            match step {
                Some(num) => {
                    proof {
                        let i = crate::layer_generator::next_pick(pre_g);
                        assert(crate::layer_generator::expansion_step(
                            pre_g,
                            pre_t,
                            self.gen(),
                            self.tbl(),
                            i,
                            num as int,
                        ));
                        if pre_t.node(i as int).game_over == GameOver::NoWin && pre_t.node(
                            i as int,
                        ).children@.len() == 0 {
                            crate::tree_size::lemma_node_count_step(
                                pre_t,
                                self.tbl(),
                                i as int,
                                num as int,
                            );
                        } else {
                            assert(self.tbl() == pre_t);
                        }
                    }
                    num_generated = num_generated + num;
                },
                None => {
                    break ;
                },
            }
        }
        num_generated
    }

    /// Drop a piece down the corresponding column: the tree narrows to the
    /// chosen child and the generator restarts from it. Fails, leaving the
    /// position unchanged, when the game is over or the column is not a
    /// legal move.
    pub fn make_move(&mut self, col: u8) -> (r: Result<(), MoveError>)
        requires
            old(self).wf(),
        ensures
            final(self).wf(),
            r == Err::<(), MoveError>(MoveError::GameAlreadyOver) ==> game_outcome(
                old(self).root_grid(),
                old(self).root_turn(),
            ) != GameOver::NoWin && *final(self) == *old(self),
            r == Err::<(), MoveError>(MoveError::InvalidColumn) ==> {
                &&& game_outcome(old(self).root_grid(), old(self).root_turn()) == GameOver::NoWin
                &&& !(col < BOARD_WIDTH && old(self).root_grid()[col as int].len() < BOARD_HEIGHT)
                &&& final(self).root_grid() == old(self).root_grid()
                &&& final(self).root_turn() == old(self).root_turn()
                &&& (old(self).tbl().node(old(self).root_id()).children@.len() > 0 ==> *final(self)
                    == *old(self))
            },
            r == Ok::<(), MoveError>(()) ==> {
                &&& game_outcome(old(self).root_grid(), old(self).root_turn()) == GameOver::NoWin
                &&& col < BOARD_WIDTH
                &&& old(self).root_grid()[col as int].len() < BOARD_HEIGHT
                &&& final(self).root_grid() == crate::win_check::drop_result(
                    old(self).root_grid(),
                    col as int,
                    old(self).root_turn(),
                )
                &&& final(self).root_turn() == !old(self).root_turn()
                &&& forall|j: int|
                    #[trigger] final(self).tbl().alive(j) ==> final(self).tbl().reachable_from(
                        final(self).root_id(),
                        j,
                    )
            },
    {
        // If the game is already won, no move is valid
        let over = match &self.table.nodes_ref()[self.root] {
            Some(node) => node.is_game_over(),
            None => GameOver::NoWin,
        };
        match over {
            GameOver::NoWin => {},
            _ => {
                return Err(MoveError::GameAlreadyOver);
            },
        }
        // We may not yet have generated the children of this board state
        let childless = match &self.table.nodes_ref()[self.root] {
            Some(node) => node.children.len() == 0,
            None => true,
        };
        if childless {
            let ghost pre = self.table;
            let _ = self.table.generate_children(self.root);
            proof {
                Self::lemma_buffers_survive_growth(
                    self.layer_generator,
                    pre,
                    self.table,
                );
            }
        }
        // The chosen column must be among the generated children
        let child_count = match &self.table.nodes_ref()[self.root] {
            Some(node) => node.children.len(),
            None => 0,
        };
        let mut is_valid_col = false;
        let mut k: usize = 0;
        while k < child_count
            invariant
                self.wf(),
                child_count == self.tbl().node(self.root_id()).children@.len(),
                0 <= k <= child_count,
                is_valid_col ==> exists|kk: int|
                    0 <= kk < child_count && (#[trigger] self.tbl().node(
                        self.root_id(),
                    ).children@[kk]).last_move == col,
                !is_valid_col ==> forall|kk: int|
                    0 <= kk < k ==> (#[trigger] self.tbl().node(
                        self.root_id(),
                    ).children@[kk]).last_move != col,
            decreases child_count - k,
        {
            let matches_col = match &self.table.nodes_ref()[self.root] {
                Some(node) => node.children[k].get_last_move() == col,
                None => false,
            };
            if matches_col {
                is_valid_col = true;
            }
            k = k + 1;
        }
        if !is_valid_col {
            proof {
                // a legal column always has a child once the node is expanded
                if col < BOARD_WIDTH && self.root_grid()[col as int].len() < BOARD_HEIGHT {
                    assert(self.tbl().node_ok(self.root_id()));
                    assert(false);
                }
            }
            return Err(MoveError::InvalidColumn);
        }
        proof {
            assert(self.tbl().node_ok(self.root_id()));
            let kk = choose|kk: int|
                0 <= kk < child_count && (#[trigger] self.tbl().node(
                    self.root_id(),
                ).children@[kk]).last_move == col;
            assert(self.tbl().edge_ok(
                self.root_id(),
                self.tbl().node(self.root_id()).children@[kk],
            ));
        }
        let new_root = self.table.narrow_possibilities(self.root, col);
        self.root = new_root;
        self.layer_generator.restart(&self.table);
        Ok(())
    }

    /// The generator's buffers stay consistent when the table only grows.
    proof fn lemma_buffers_survive_growth(
        g: LayerGenerator,
        t1: TranspositionStateTable,
        t2: TranspositionStateTable,
    )
        requires
            g.buffers_wf(t1),
            forall|j: int|
                #[trigger] t1.alive(j) ==> t2.alive(j) && t2.node(j).board.grid() == t1.node(
                    j,
                ).board.grid(),
        ensures
            g.buffers_wf(t2),
    {
        let d = choose|d: int|
            #[trigger] crate::layer_generator::layers_ok(t1, g.previous_view(), g.new_view(), d);
        assert forall|x: int| 0 <= x < g.previous_view().len() implies t2.alive(
            #[trigger] g.previous_view()[x] as int,
        ) && crate::board::piece_count(t2.grid_of(g.previous_view()[x] as int)) == d by {
            assert(t1.alive(g.previous_view()[x] as int));
        }
        assert forall|x: int| 0 <= x < g.new_view().len() implies t2.alive(
            #[trigger] g.new_view()[x] as int,
        ) && crate::board::piece_count(t2.grid_of(g.new_view()[x] as int)) == d + 1 by {
            assert(t1.alive(g.new_view()[x] as int));
        }
        assert(crate::layer_generator::layers_ok(t2, g.previous_view(), g.new_view(), d));
    }

    /// Returns a map of moves to their corresponding scores.
    ///
    /// Higher scores are better for the player about to make a move, lower
    /// scores are better for their opponent.
    pub fn get_move_scores(&self) -> (r: HashMap<u8, isize>)
        requires
            self.wf(),
        ensures
            forall|c: u8|
                #[trigger] r@.dom().contains(c) <==> exists|kk: int|
                    0 <= kk < self.tbl().node(self.root_id()).children@.len() && (
                    #[trigger] self.tbl().node(self.root_id()).children@[kk]).last_move == c,
            forall|c: u8|
                #[trigger] r@.dom().contains(c) ==> exists|kk: int|
                    0 <= kk < self.tbl().node(self.root_id()).children@.len() && (
                    #[trigger] self.tbl().node(self.root_id()).children@[kk]).last_move == c
                        && r@[c] as int == oriented_score(
                        self.root_turn(),
                        minimax(
                            self.tbl(),
                            self.tbl().node(self.root_id()).children@[kk].state as int,
                        ),
                    ),
    {
        let mut move_scores: HashMap<u8, isize> = HashMap::new();
        let mut score_table: TranspositionTable<isize> = TranspositionTable::new();
        let whose_turn = match &self.table.nodes_ref()[self.root] {
            Some(node) => node.get_turn(),
            None => false,
        };
        let child_count = match &self.table.nodes_ref()[self.root] {
            Some(node) => node.children.len(),
            None => 0,
        };
        let mut k: usize = 0;
        while k < child_count
            invariant
                self.wf(),
                child_count == self.tbl().node(self.root_id()).children@.len(),
                whose_turn == self.root_turn(),
                0 <= k <= child_count,
                score_cache_ok(self.tbl(), score_table),
                vstd::std_specs::hash::obeys_key_model::<u8>(),
                forall|c: u8|
                    #[trigger] move_scores@.dom().contains(c) <==> exists|kk: int|
                        0 <= kk < k && (#[trigger] self.tbl().node(
                            self.root_id(),
                        ).children@[kk]).last_move == c,
                forall|c: u8|
                    #[trigger] move_scores@.dom().contains(c) ==> exists|kk: int|
                        0 <= kk < child_count && (#[trigger] self.tbl().node(
                            self.root_id(),
                        ).children@[kk]).last_move == c && move_scores@[c] as int
                            == oriented_score(
                            self.root_turn(),
                            minimax(
                                self.tbl(),
                                self.tbl().node(self.root_id()).children@[kk].state as int,
                            ),
                        ),
            decreases child_count - k,
        {
            proof {
                assert(self.tbl().node_ok(self.root_id()));
                assert(self.tbl().edge_ok(
                    self.root_id(),
                    self.tbl().node(self.root_id()).children@[k as int],
                ));
            }
            let (child, child_col) = match &self.table.nodes_ref()[self.root] {
                Some(node) => (
                    node.children[k].get_state(),
                    node.children[k].get_last_move(),
                ),
                None => (0, 0),
            };
            let raw = how_good_is(&self.table, child, &mut score_table);
            let child_score = if whose_turn {
                raw
            } else {
                // Some funky handling to avoid int overflow on negating the
                // sentinel scores
                if raw == isize::MIN {
                    isize::MAX
                } else if raw == isize::MAX {
                    isize::MIN
                } else {
                    -raw
                }
            };
            let ghost prev_map = move_scores@;
            move_scores.insert(child_col, child_score);
            proof {
                assert forall|c: u8| #[trigger] move_scores@.dom().contains(c) implies exists|
                    kk: int,
                |
                    0 <= kk < k + 1 && (#[trigger] self.tbl().node(
                        self.root_id(),
                    ).children@[kk]).last_move == c by {
                    if c == child_col {
                        assert(self.tbl().node(self.root_id()).children@[k as int].last_move
                            == c);
                    } else {
                        assert(prev_map.dom().contains(c));
                    }
                }
                assert forall|c: u8| #[trigger] move_scores@.dom().contains(c) implies exists|
                    kk: int,
                |
                    0 <= kk < child_count && (#[trigger] self.tbl().node(
                        self.root_id(),
                    ).children@[kk]).last_move == c && move_scores@[c] as int == oriented_score(
                        self.root_turn(),
                        minimax(
                            self.tbl(),
                            self.tbl().node(self.root_id()).children@[kk].state as int,
                        ),
                    ) by {
                    if c == child_col {
                        assert(self.tbl().node(self.root_id()).children@[k as int].last_move == c
                            && move_scores@[c] as int == oriented_score(
                            self.root_turn(),
                            minimax(
                                self.tbl(),
                                self.tbl().node(self.root_id()).children@[k as int].state as int,
                            ),
                        ));
                    } else {
                        assert(prev_map.dom().contains(c));
                        let kk = choose|kk: int|
                            0 <= kk < child_count && (#[trigger] self.tbl().node(
                                self.root_id(),
                            ).children@[kk]).last_move == c && prev_map[c] as int
                                == oriented_score(
                                self.root_turn(),
                                minimax(
                                    self.tbl(),
                                    self.tbl().node(self.root_id()).children@[kk].state as int,
                                ),
                            );
                        assert(move_scores@[c] == prev_map[c]);
                    }
                }
            }
            k = k + 1;
        }
        move_scores
    }

    /// Returns whether the game is over, and if so who won.
    pub fn is_game_over(&self) -> (r: GameOver)
        requires
            self.wf(),
        ensures
            r == game_outcome(self.root_grid(), self.root_turn()),
    {
        match &self.table.nodes_ref()[self.root] {
            Some(node) => node.is_game_over(),
            None => GameOver::NoWin,
        }
    }

    /// How many arena slots the tree store has ever allocated; the size
    /// accounting stays exact while this is within its bound.
    pub fn slot_count(&self) -> (r: usize)
        ensures
            r == self.tbl().num_slots(),
    {
        self.table.nodes_ref().len()
    }

    /// Returns the size and depth of the tree.
    pub fn size(&self) -> (r: TreeSize)
        requires
            self.wf(),
            self.tbl().num_slots() < 0x80_0000,
        ensures
            r.size as int == tree_node_count(self.tbl()),
            r.depth as int == crate::tree_size::max_count_upto(self.tbl(), self.tbl().num_slots())
                - crate::board::piece_count(self.root_grid()) + 1,
            r.memory as int == crate::tree_size::bytes_upto(self.tbl(), self.tbl().num_slots()),
    {
        calculate_size(&self.table, self.root)
    }
}

} // verus!

//! Game-tree nodes: a board, whose turn it is, the outcome derived at
//! construction, the child edges to successor positions, and Monte-Carlo
//! rollout counters.
use vstd::prelude::*;

use crate::board::{count_upto, piece_count, Board, BOARD_WIDTH};
use crate::monte_carlo::RolloutResults;
use crate::transposition::IsFlipped;
use crate::win_check::{game_outcome, is_game_over, GameOver};

verus! {

/// One edge of the tree: the column played, the arena index of the child
/// node, and whether the child is stored mirror-flipped relative to how it
/// was reached.
#[derive(Debug, PartialEq, Eq, Structural, Clone, Copy)]
pub struct ChildState {
    pub state: usize,
    pub last_move: u8,
    pub is_flipped: IsFlipped,
}

impl ChildState {
    /// Gets the arena index of the child node.
    pub fn get_state(&self) -> (r: usize)
        ensures
            r == self.state,
    {
        self.state
    }

    /// Gets the move that was played to reach this child.
    pub fn get_last_move(&self) -> (r: u8)
        ensures
            r == self.last_move,
    {
        self.last_move
    }

    /// Corrects this child's last move and flipped state based on the fact
    /// that its parent has flipped its orientation.
    ///
    /// Should only be used when the parent of this ChildState is the root of
    /// the decision tree and has just flipped its orientation.
    pub fn parent_flipped(&mut self)
        requires
            old(self).last_move < BOARD_WIDTH,
        ensures
            final(self).state == old(self).state,
            final(self).last_move as int == BOARD_WIDTH - 1 - old(self).last_move,
            final(self).is_flipped == old(self).is_flipped.spec_flip(),
    {
        self.last_move = BOARD_WIDTH - 1 - self.last_move;
        self.is_flipped = self.is_flipped.flip();
    }
}

/// A BoardState represents a single state of a possible game.
///
/// It has a board, whose turn it is, whether the game is over, the possible
/// BoardStates which could result from it (its children), and the rollout
/// statistics gathered through it.
#[derive(Debug)]
pub struct BoardState {
    pub board: Board,
    pub children: Vec<ChildState>,
    pub rollout_results: RolloutResults,
    pub turn: bool,
    pub game_over: GameOver,
}

impl BoardState {
    /// A node in isolation is consistent: its board is well formed, its
    /// outcome is the one its board presents, and a decided node has no
    /// children.
    pub open spec fn node_wf(self) -> bool {
        &&& self.board.wf()
        &&& self.game_over == game_outcome(self.board.grid(), self.turn)
        &&& (self.game_over != GameOver::NoWin ==> self.children@.len() == 0)
    }

    /// Constructs a new BoardState.
    pub fn new(board: Board, turn: bool) -> (r: BoardState)
        requires
            board.wf(),
        ensures
            r.board == board,
            r.turn == turn,
            r.children@.len() == 0,
            r.rollout_results == (RolloutResults { success: 0, total: 0 }),
            r.game_over == game_outcome(board.grid(), turn),
            r.node_wf(),
    {
        let game_over = is_game_over(&board, turn);

        BoardState {
            board,
            children: Vec::new(),
            turn,
            game_over,
            rollout_results: RolloutResults::default(),
        }
    }

    /// Returns whose turn it is.
    pub fn get_turn(&self) -> (r: bool)
        ensures
            r == self.turn,
    {
        self.turn
    }

    /// Returns if the game is over and who won if it is.
    pub fn is_game_over(&self) -> (r: GameOver)
        ensures
            r == self.game_over,
    {
        self.game_over
    }

    /// Returns how many moves into the game this board state is.
    pub fn get_depth(&self) -> (r: u8)
        requires
            self.board.wf(),
        ensures
            r as int == piece_count(self.board.grid()),
    {
        proof {
            self.board.lemma_wf_grid();
        }
        let mut sum: u8 = 0;
        let mut c: u8 = 0;
        while c < BOARD_WIDTH
            invariant
                self.board.wf(),
                crate::board::grid_wf(self.board.grid()),
                0 <= c <= BOARD_WIDTH,
                sum as int == count_upto(self.board.grid(), c as int),
                sum <= 6 * c,
            decreases BOARD_WIDTH as int - c as int,
        {
            sum = sum + self.board.get_height(c);
            c = c + 1;
        }
        sum
    }
}

impl Clone for BoardState {
    /// An identical copy of the node.
    fn clone(&self) -> (r: BoardState)
        ensures
            r.board.grid() == self.board.grid(),
            self.board.wf() ==> r.board.wf(),
            r.children@ == self.children@,
            r.rollout_results == self.rollout_results,
            r.turn == self.turn,
            r.game_over == self.game_over,
    {
        let mut children: Vec<ChildState> = Vec::new();
        let mut k: usize = 0;
        while k < self.children.len()
            invariant
                0 <= k <= self.children@.len(),
                children@.len() == k,
                forall|i: int| 0 <= i < k ==> children@[i] == #[trigger] self.children@[i],
            decreases self.children@.len() - k,
        {
            children.push(self.children[k]);
            k = k + 1;
        }
        proof {
            assert(children@ =~= self.children@);
        }
        BoardState {
            board: self.board.clone(),
            children,
            rollout_results: self.rollout_results,
            turn: self.turn,
            game_over: self.game_over,
        }
    }
}

/// The turn parity anchor: what the first player's color would be at an
/// even piece count, given this node's turn and count. All nodes of one tree
/// share it.
pub open spec fn turn_base(turn: bool, count: int) -> bool {
    if count % 2 == 0 {
        turn
    } else {
        !turn
    }
}

/// Alternating turns keep the parity anchor: a child one move deeper with
/// the opposite turn anchors the same way.
pub proof fn lemma_turn_base_step(turn: bool, count: int)
    requires
        count >= 0,
    ensures
        turn_base(!turn, count + 1) == turn_base(turn, count),
{
}

} // verus!

//! Monte-Carlo rollout bookkeeping: each tree node carries doubled win and
//! rollout counters so tie credit stays in integers, and random playouts
//! update them from the bottom of the tree upwards.
use vstd::prelude::*;

use crate::win_check::GameOver;

verus! {

/// The results of the rollouts conducted from a node.
#[derive(Debug, PartialEq, Eq, Structural, Clone, Copy)]
pub struct RolloutResults {
    /// Success is 2 * the number of wins + the number of ties.
    pub success: u32,
    /// Total is 2 * the number of rollouts.
    pub total: u32,
}

impl Default for RolloutResults {
    /// No rollouts recorded yet.
    fn default() -> (r: RolloutResults)
        ensures
            r == (RolloutResults { success: 0, total: 0 }),
    {
        RolloutResults { success: 0, total: 0 }
    }
}

/// The success credit one finished rollout gives a node: a tie is worth half
/// a win to either side, and a win counts fully for the node whose
/// turn-to-move matches the losing side -- the winner is then the player
/// whose move produced this position, so the node lies on the winning
/// side's line of play.
pub open spec fn rollout_credit(turn: bool, result: GameOver) -> int {
    match result {
        GameOver::NoWin => 0,
        GameOver::Tie => 1,
        GameOver::OneWins => if turn {
            2
        } else {
            0
        },
        GameOver::TwoWins => if !turn {
            2
        } else {
            0
        },
    }
}

impl RolloutResults {
    /// Adds one rollout that ended in the given result, seen from a node
    /// where it is `turn`'s move.
    pub fn record(&mut self, turn: bool, result: GameOver) -> (r: ())
        requires
            result != GameOver::NoWin,
            old(self).success <= 0xF000_0000,
            old(self).total <= 0xF000_0000,
        ensures
            final(self).success as int == old(self).success + rollout_credit(turn, result),
            final(self).total as int == old(self).total + 2,
    {
        match result {
            GameOver::NoWin => {},
            GameOver::Tie => {
                self.success = self.success + 1;
            },
            GameOver::OneWins => {
                if turn {
                    self.success = self.success + 2;
                }
            },
            GameOver::TwoWins => {
                if !turn {
                    self.success = self.success + 2;
                }
            },
        }
        self.total = self.total + 2;
    }
}


/// Relies on rand's `Rng::gen_range` over `0..n`: a uniformly chosen index
/// strictly below the bound; panics only on an empty range, which the bound
/// on `n` rules out.
#[verifier::external_body]
pub(crate) fn random_below(n: usize) -> (r: usize)
    requires
        n > 0,
    ensures
        r < n,
{
    rand::Rng::gen_range(&mut rand::thread_rng(), 0..n)
}

} // verus!

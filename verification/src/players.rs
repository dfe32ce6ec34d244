//! Player-facing enumerations and the computer's move choosers, which pick
//! among scored moves with rank-weighted randomness.
use vstd::prelude::*;

verus! {

/// The contents of one board cell as the interface layer sees it.
#[derive(Debug, PartialEq, Eq, Structural, Clone, Copy)]
pub enum PieceState {
    Empty,
    PlayerOne,
    PlayerTwo,
}

impl PieceState {
    /// Returns a piece corresponding to the opposite player.
    pub fn reverse(&self) -> (r: PieceState)
        requires
            *self != PieceState::Empty,
        ensures
            *self == PieceState::PlayerOne ==> r == PieceState::PlayerTwo,
            *self == PieceState::PlayerTwo ==> r == PieceState::PlayerOne,
    {
        match self {
            PieceState::Empty => PieceState::Empty,
            PieceState::PlayerOne => PieceState::PlayerTwo,
            PieceState::PlayerTwo => PieceState::PlayerOne,
        }
    }
}

impl Default for PieceState {
    /// An empty cell.
    fn default() -> (r: PieceState)
        ensures
            r == PieceState::Empty,
    {
        PieceState::Empty
    }
}

/// Who controls one side of the game.
#[derive(Debug, PartialEq, Eq, Structural, Clone, Copy)]
pub enum PlayerType {
    Human,
    Computer,
}

/// How strongly the computer plays.
#[derive(Debug, PartialEq, Eq, Structural, Clone, Copy)]
pub enum Difficulty {
    Easy,
    Medium,
    Hard,
}

/// Some entry of the list carries the returned column.
pub open spec fn column_of_some_entry(moves: Seq<(isize, u8)>, col: u8) -> bool {
    exists|x: int| 0 <= x < moves.len() && (#[trigger] moves[x]).1 == col
}

/// Some entry of the list carries the returned column with a score that is
/// not the losing sentinel.
pub open spec fn survivable_column(moves: Seq<(isize, u8)>, col: u8) -> bool {
    exists|x: int|
        0 <= x < moves.len() && (#[trigger] moves[x]).1 == col && moves[x].0 != isize::MIN
}

/// The list offers some move that does not lose outright.
pub open spec fn has_survivable_move(moves: Seq<(isize, u8)>) -> bool {
    exists|x: int| 0 <= x < moves.len() && (#[trigger] moves[x]).0 != isize::MIN
}

/// Picks one of the moves in the sorted_moves vector.
///
/// Higher rated moves (later in the list) are more likely to be picked.
fn easy_choose_move(sorted_moves: &Vec<(isize, u8)>) -> (r: u8)
    requires
        sorted_moves@.len() > 0,
        sorted_moves@.len() <= 7,
    ensures
        column_of_some_entry(sorted_moves@, r),
{
    let mut weighted_moves: Vec<u8> = Vec::new();
    let mut index: usize = 0;
    while index < sorted_moves.len()
        invariant
            sorted_moves@.len() <= 7,
            0 <= index <= sorted_moves@.len(),
            weighted_moves@.len() <= 28,
            index > 0 ==> weighted_moves@.len() >= 1,
            forall|x: int|
                0 <= x < weighted_moves@.len() ==> column_of_some_entry(
                    sorted_moves@,
                    #[trigger] weighted_moves@[x],
                ),
        decreases sorted_moves@.len() - index,
    {
        let column = sorted_moves[index].1;
        let mut c: usize = 0;
        while c < index + 1
            invariant
                sorted_moves@.len() <= 7,
                0 <= index < sorted_moves@.len(),
                column == sorted_moves@[index as int].1,
                0 <= c <= index + 1,
                weighted_moves@.len() <= 28 + c,
                c > 0 ==> weighted_moves@.len() >= 1,
                weighted_moves@.len() <= 28,
                forall|x: int|
                    0 <= x < weighted_moves@.len() ==> column_of_some_entry(
                        sorted_moves@,
                        #[trigger] weighted_moves@[x],
                    ),
            decreases index + 1 - c,
        {
            if weighted_moves.len() < 28 {
                weighted_moves.push(column);
            }
            c = c + 1;
        }
        index = index + 1;
    }
    if weighted_moves.len() == 0 {
        return sorted_moves[0].1;
    }
    let pick = crate::monte_carlo::random_below(weighted_moves.len());
    weighted_moves[pick]
}

/// Picks one of the moves in the sorted_moves vector.
///
/// Higher rated moves are more likely to be picked and losing moves will
/// not be considered unless every move loses.
pub fn medium_choose_move(sorted_moves: &Vec<(isize, u8)>) -> (r: u8)
    requires
        sorted_moves@.len() > 0,
        sorted_moves@.len() <= 7,
    ensures
        column_of_some_entry(sorted_moves@, r),
        has_survivable_move(sorted_moves@) ==> survivable_column(sorted_moves@, r),
        !has_survivable_move(sorted_moves@) ==> r == sorted_moves@[0].1,
{
    let backup_move = sorted_moves[0].1;

    let mut no_losing_moves: Vec<(isize, u8)> = Vec::new();
    let mut i: usize = 0;
    while i < sorted_moves.len()
        invariant
            sorted_moves@.len() <= 7,
            0 <= i <= sorted_moves@.len(),
            no_losing_moves@.len() <= i,
            forall|x: int|
                0 <= x < no_losing_moves@.len() ==> survivable_column(
                    sorted_moves@,
                    (#[trigger] no_losing_moves@[x]).1,
                ),
            no_losing_moves@.len() == 0 ==> forall|x: int|
                0 <= x < i ==> (#[trigger] sorted_moves@[x]).0 == isize::MIN,
        decreases sorted_moves@.len() - i,
    {
        let entry = sorted_moves[i];
        if entry.0 != isize::MIN {
            no_losing_moves.push(entry);
            proof {
                assert(sorted_moves@[i as int].1 == entry.1);
                assert(sorted_moves@[i as int].0 != isize::MIN);
            }
        }
        i = i + 1;
    }
    if no_losing_moves.len() == 0 {
        proof {
            if has_survivable_move(sorted_moves@) {
                let x = choose|x: int|
                    0 <= x < sorted_moves@.len() && (#[trigger] sorted_moves@[x]).0 != isize::MIN;
                assert(false);
            }
        }
        return backup_move;
    }
    let picked = easy_choose_move(&no_losing_moves);
    proof {
        let x = choose|x: int|
            0 <= x < no_losing_moves@.len() && (#[trigger] no_losing_moves@[x]).1 == picked;
        assert(survivable_column(sorted_moves@, picked));
        assert(has_survivable_move(sorted_moves@)) by {
            let y = choose|y: int|
                0 <= y < sorted_moves@.len() && (#[trigger] sorted_moves@[y]).1 == picked
                    && sorted_moves@[y].0 != isize::MIN;
        }
    }
    picked
}

} // verus!

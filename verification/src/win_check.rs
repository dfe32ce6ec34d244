//! Win detection: a sliding-window scan over the strips of each direction,
//! proved equal to the geometric four-in-a-row predicate, together with the
//! game-outcome classification and the laws that hold of reachable boards.
use vstd::prelude::*;

use crate::board::{
    cell_at, empty_grid, grid_wf, lemma_max_height_bounds, max_height, piece_count, Board, Grid,
    OutOfBounds, BOARD_HEIGHT, BOARD_WIDTH, NUMBER_TO_WIN,
};
use crate::board_iters::{
    cells_view, diag_start_row, downward_strips, eff_height, horizontal_strips, min2, strip_seq,
    upward_strips, vertical_strips, vertical_strips_upto, vstrip_included, vstrip_len, Cell,
};

verus! {

/// This represents whether the game is over, and if so how.
#[derive(Debug, PartialEq, Eq, Structural, Clone, Copy)]
pub enum GameOver {
    NoWin,
    Tie,
    OneWins,
    TwoWins,
}

impl GameOver {
    /// The variant a numeric tag denotes, in declaration order.
    pub fn from(num: u8) -> (r: GameOver)
        requires
            num <= 3,
        ensures
            num == 0 ==> r == GameOver::NoWin,
            num == 1 ==> r == GameOver::Tie,
            num == 2 ==> r == GameOver::OneWins,
            num == 3 ==> r == GameOver::TwoWins,
    {
        if num == 0 {
            GameOver::NoWin
        } else if num == 1 {
            GameOver::Tie
        } else if num == 2 {
            GameOver::OneWins
        } else {
            GameOver::TwoWins
        }
    }
}

/// Four cells of one color in a row starting at `(c, r)`, stepping by
/// `(dc, dr)`.
pub open spec fn line_at(g: Grid, color: bool, c: int, r: int, dc: int, dr: int) -> bool {
    forall|k: int|
        0 <= k < NUMBER_TO_WIN ==> #[trigger] cell_at(g, c + k * dc, r + k * dr) == Ok::<
            bool,
            OutOfBounds,
        >(color)
}

/// Some four-in-a-row of `color` in the direction `(dc, dr)`.
pub open spec fn wins_in_dir(g: Grid, color: bool, dc: int, dr: int) -> bool {
    exists|c: int, r: int| #[trigger] line_at(g, color, c, r, dc, dr)
}

/// Some four-in-a-row of `color` in any of the four directions.
pub open spec fn board_wins(g: Grid, color: bool) -> bool {
    ||| wins_in_dir(g, color, 1, 0)
    ||| wins_in_dir(g, color, 0, 1)
    ||| wins_in_dir(g, color, 1, 1)
    ||| wins_in_dir(g, color, -1, 1)
}

/// The window of four strip cells starting at `start` holds only `color`.
pub open spec fn window_all(s: Seq<Cell>, start: int, color: bool) -> bool {
    forall|k: int|
        0 <= k < NUMBER_TO_WIN ==> #[trigger] s[start + k] == Ok::<bool, OutOfBounds>(color)
}

/// Some in-bounds window of the strip holds only `color`.
pub open spec fn strip_has_win(s: Seq<Cell>, color: bool) -> bool {
    exists|start: int|
        0 <= start && start + NUMBER_TO_WIN <= s.len() && #[trigger] window_all(s, start, color)
}

/// Some strip of the list has a winning window.
pub open spec fn strips_have_win(ss: Seq<Seq<Cell>>, color: bool) -> bool {
    exists|i: int| 0 <= i < ss.len() && #[trigger] strip_has_win(ss[i], color)
}

/// Helper function for check_strips.
///
/// Increments in_a_row based on if the new piece matches the given color.
/// If it doesn't match, resets in_a_row to 0.
pub fn increment_if_matching(in_a_row: u8, piece: Cell, color: bool) -> (r: u8)
    requires
        in_a_row < NUMBER_TO_WIN,
    ensures
        r as int == (if piece == Ok::<bool, OutOfBounds>(color) {
            in_a_row as int + 1
        } else {
            0
        }),
{
    match piece {
        Ok(p) => {
            if p == color {
                in_a_row + 1
            } else {
                0
            }
        },
        Err(_) => 0,
    }
}

/// Scans one strip with a sliding run counter, exiting early once no window
/// can still be completed.
fn check_one_strip(strip: &Vec<Cell>, color: bool) -> (r: bool)
    ensures
        r == strip_has_win(strip@, color),
{
    let ghost s = strip@;
    let mut in_a_row: u8 = 0;
    let mut j: usize = 0;
    while j < strip.len()
        invariant
            s == strip@,
            0 <= j <= s.len(),
            in_a_row as int <= j,
            in_a_row < NUMBER_TO_WIN,
            forall|p: int| j - in_a_row <= p < j ==> #[trigger] s[p] == Ok::<bool, OutOfBounds>(
                color,
            ),
            in_a_row as int == j || s[j - 1 - in_a_row as int] != Ok::<bool, OutOfBounds>(color),
            forall|start: int|
                0 <= start && start + NUMBER_TO_WIN <= j ==> !#[trigger] window_all(
                    s,
                    start,
                    color,
                ),
        decreases s.len() - j,
    {
        let piece = strip[j];
        in_a_row = increment_if_matching(in_a_row, piece, color);
        j = j + 1;

        if in_a_row == NUMBER_TO_WIN {
            proof {
                assert forall|k: int| 0 <= k < NUMBER_TO_WIN implies #[trigger] s[j - 4 + k]
                    == Ok::<bool, OutOfBounds>(color) by {
                    assert(s[(j - 4 + k) as int] == Ok::<bool, OutOfBounds>(color));
                }
                assert(window_all(s, j - 4, color));
            }
            return true;
        }
        if in_a_row as usize + (strip.len() - j) < NUMBER_TO_WIN as usize {
            proof {
                assert forall|start: int|
                    0 <= start && start + NUMBER_TO_WIN <= s.len() implies !window_all(
                    s,
                    start,
                    color,
                ) by {
                    if start + NUMBER_TO_WIN <= j {
                        assert(!window_all(s, start, color));
                    } else if window_all(s, start, color) {
                        // every scanned cell of the window matched, so the
                        // current run reaches back past the window start
                        assert(j - start <= in_a_row) by {
                            if j - start > in_a_row {
                                let p = j - 1 - in_a_row as int;
                                assert(s[start + (p - start)] == Ok::<bool, OutOfBounds>(color));
                                assert(false);
                            }
                        }
                        assert(false);
                    }
                }
            }
            return false;
        }
        proof {
            if j >= NUMBER_TO_WIN && window_all(s, j - 4, color) {
                assert(s[j - 4 + (3 - (in_a_row as int))] == Ok::<bool, OutOfBounds>(color));
                assert(false);
            }
            assert forall|start: int|
                0 <= start && start + NUMBER_TO_WIN <= j implies !#[trigger] window_all(
                s,
                start,
                color,
            ) by {
                if start + NUMBER_TO_WIN < j + 1 {
                    assert(!window_all(s, start, color));
                }
            }
        }
    }
    proof {
        assert(!strip_has_win(s, color));
    }
    false
}

/// Helper function to check a list of strips for connect fours.
pub fn check_strips(strips: &Vec<Vec<Cell>>, color: bool) -> (r: bool)
    ensures
        r == strips_have_win(cells_view(strips@), color),
{
    let ghost ss = cells_view(strips@);
    let mut i: usize = 0;
    while i < strips.len()
        invariant
            ss == cells_view(strips@),
            0 <= i <= strips@.len(),
            forall|a: int| 0 <= a < i ==> !#[trigger] strip_has_win(ss[a], color),
        decreases strips@.len() - i,
    {
        if check_one_strip(&strips[i], color) {
            proof {
                assert(strip_has_win(ss[i as int], color));
            }
            return true;
        }
        i = i + 1;
    }
    false
}

proof fn lemma_horizontal_bridge(g: Grid, color: bool)
    requires
        grid_wf(g),
    ensures
        strips_have_win(horizontal_strips(g), color) == wins_in_dir(g, color, 1, 0),
{
    let ss = horizontal_strips(g);
    lemma_max_height_bounds(g);
    if strips_have_win(ss, color) {
        let i = choose|i: int| 0 <= i < ss.len() && #[trigger] strip_has_win(ss[i], color);
        let start = choose|start: int|
            0 <= start && start + NUMBER_TO_WIN <= ss[i].len() && #[trigger] window_all(
                ss[i],
                start,
                color,
            );
        assert forall|k: int|
            0 <= k < NUMBER_TO_WIN implies #[trigger] cell_at(g, start + k * 1, i + k * 0) == Ok::<
            bool,
            OutOfBounds,
        >(color) by {
            assert(ss[i][start + k] == Ok::<bool, OutOfBounds>(color));
        }
        assert(line_at(g, color, start, i, 1, 0));
    }
    if wins_in_dir(g, color, 1, 0) {
        let (c, r) = choose|c: int, r: int| #[trigger] line_at(g, color, c, r, 1, 0);
        assert(cell_at(g, c + 0 * 1, r + 0 * 0) == Ok::<bool, OutOfBounds>(color));
        assert(cell_at(g, c + 3 * 1, r + 3 * 0) == Ok::<bool, OutOfBounds>(color));
        assert(0 <= c && c + 3 < BOARD_WIDTH && 0 <= r && r < g[c].len());
        assert(r < max_height(g));
        assert forall|k: int|
            0 <= k < NUMBER_TO_WIN implies #[trigger] ss[r][c + k] == Ok::<bool, OutOfBounds>(
            color,
        ) by {
            assert(cell_at(g, c + k * 1, r + k * 0) == Ok::<bool, OutOfBounds>(color));
        }
        assert(window_all(ss[r], c, color));
        assert(strip_has_win(ss[r], color));
    }
}

proof fn lemma_vstrips_sound(g: Grid, c: int, color: bool)
    requires
        grid_wf(g),
        0 <= c <= BOARD_WIDTH,
        strips_have_win(vertical_strips_upto(g, c, false), color),
    ensures
        wins_in_dir(g, color, 0, 1),
    decreases c,
{
    let ss = vertical_strips_upto(g, c, false);
    let rest = vertical_strips_upto(g, c - 1, false);
    if c <= 0 {
        assert(false);
    } else if vstrip_included(g, c - 1, false) {
        let i = choose|i: int| 0 <= i < ss.len() && #[trigger] strip_has_win(ss[i], color);
        if i < rest.len() {
            assert(strip_has_win(rest[i], color));
            lemma_vstrips_sound(g, c - 1, color);
        } else {
            let s = strip_seq(g, c - 1, 0, 0, 1, vstrip_len(g, c - 1, false));
            assert(ss[i] == s);
            let start = choose|start: int|
                0 <= start && start + NUMBER_TO_WIN <= s.len() && #[trigger] window_all(
                    s,
                    start,
                    color,
                );
            assert forall|k: int|
                0 <= k < NUMBER_TO_WIN implies #[trigger] cell_at(
                g,
                (c - 1) + k * 0,
                start + k * 1,
            ) == Ok::<bool, OutOfBounds>(color) by {
                assert(s[start + k] == Ok::<bool, OutOfBounds>(color));
            }
            assert(line_at(g, color, c - 1, start, 0, 1));
        }
    } else {
        lemma_vstrips_sound(g, c - 1, color);
    }
}

proof fn lemma_vstrips_complete(g: Grid, c: int, col: int, color: bool)
    requires
        grid_wf(g),
        0 <= col < c <= BOARD_WIDTH,
        vstrip_included(g, col, false),
        strip_has_win(strip_seq(g, col, 0, 0, 1, vstrip_len(g, col, false)), color),
    ensures
        strips_have_win(vertical_strips_upto(g, c, false), color),
    decreases c,
{
    let ss = vertical_strips_upto(g, c, false);
    let rest = vertical_strips_upto(g, c - 1, false);
    if col == c - 1 {
        assert(ss[ss.len() - 1] == strip_seq(g, col, 0, 0, 1, vstrip_len(g, col, false)));
    } else {
        lemma_vstrips_complete(g, c - 1, col, color);
        let i = choose|i: int| 0 <= i < rest.len() && #[trigger] strip_has_win(rest[i], color);
        assert(ss[i] == rest[i]);
    }
}

proof fn lemma_vertical_bridge(g: Grid, color: bool)
    requires
        grid_wf(g),
    ensures
        strips_have_win(vertical_strips(g, false), color) == wins_in_dir(g, color, 0, 1),
{
    if strips_have_win(vertical_strips(g, false), color) {
        lemma_vstrips_sound(g, BOARD_WIDTH as int, color);
    }
    if wins_in_dir(g, color, 0, 1) {
        let (c, r) = choose|c: int, r: int| #[trigger] line_at(g, color, c, r, 0, 1);
        assert(cell_at(g, c + 0 * 0, r + 0 * 1) == Ok::<bool, OutOfBounds>(color));
        assert(cell_at(g, c + 3 * 0, r + 3 * 1) == Ok::<bool, OutOfBounds>(color));
        assert(0 <= c < BOARD_WIDTH && 0 <= r && r + 3 < g[c].len());
        assert(vstrip_included(g, c, false));
        let s = strip_seq(g, c, 0, 0, 1, vstrip_len(g, c, false));
        assert forall|k: int|
            0 <= k < NUMBER_TO_WIN implies #[trigger] s[r + k] == Ok::<bool, OutOfBounds>(
            color,
        ) by {
            assert(cell_at(g, c + k * 0, r + k * 1) == Ok::<bool, OutOfBounds>(color));
        }
        assert(window_all(s, r, color));
        assert(strip_has_win(s, color));
        lemma_vstrips_complete(g, BOARD_WIDTH as int, c, color);
    }
}

proof fn lemma_upward_bridge(g: Grid, color: bool)
    requires
        grid_wf(g),
    ensures
        strips_have_win(upward_strips(g, false), color) == wins_in_dir(g, color, 1, 1),
{
    let ss = upward_strips(g, false);
    let mh = max_height(g);
    lemma_max_height_bounds(g);
    if strips_have_win(ss, color) {
        let i = choose|i: int| 0 <= i < ss.len() && #[trigger] strip_has_win(ss[i], color);
        let sr = diag_start_row(mh);
        let c0 = if i <= sr {
            0int
        } else {
            i - sr
        };
        let r0 = if i <= sr {
            sr - i
        } else {
            0int
        };
        assert(ss[i] == strip_seq(g, c0, r0, 1, 1, min2(mh - r0, BOARD_WIDTH - c0)));
        let start = choose|start: int|
            0 <= start && start + NUMBER_TO_WIN <= ss[i].len() && #[trigger] window_all(
                ss[i],
                start,
                color,
            );
        assert forall|k: int|
            0 <= k < NUMBER_TO_WIN implies #[trigger] cell_at(
            g,
            (c0 + start) + k * 1,
            (r0 + start) + k * 1,
        ) == Ok::<bool, OutOfBounds>(color) by {
            assert(ss[i][start + k] == Ok::<bool, OutOfBounds>(color));
            assert(cell_at(g, c0 + (start + k) * 1, r0 + (start + k) * 1) == Ok::<
                bool,
                OutOfBounds,
            >(color));
        }
        assert(line_at(g, color, c0 + start, r0 + start, 1, 1));
    }
    if wins_in_dir(g, color, 1, 1) {
        let (c, r) = choose|c: int, r: int| #[trigger] line_at(g, color, c, r, 1, 1);
        assert(cell_at(g, c + 0 * 1, r + 0 * 1) == Ok::<bool, OutOfBounds>(color));
        assert(cell_at(g, c + 3 * 1, r + 3 * 1) == Ok::<bool, OutOfBounds>(color));
        assert(0 <= c && c + 3 < BOARD_WIDTH && 0 <= r && r + 3 < g[c + 3].len());
        assert(r + 3 < mh);
        let sr = mh - 4;
        let i = if c >= r {
            sr + c - r
        } else {
            sr - (r - c)
        };
        assert(0 <= i < sr + NUMBER_TO_WIN);
        let c0 = if i <= sr {
            0int
        } else {
            i - sr
        };
        let r0 = if i <= sr {
            sr - i
        } else {
            0int
        };
        assert(ss[i] == strip_seq(g, c0, r0, 1, 1, min2(mh - r0, BOARD_WIDTH - c0)));
        let t = c - c0;
        assert(t == r - r0);
        assert(0 <= t && t + NUMBER_TO_WIN <= ss[i].len());
        assert forall|k: int|
            0 <= k < NUMBER_TO_WIN implies #[trigger] ss[i][t + k] == Ok::<bool, OutOfBounds>(
            color,
        ) by {
            assert(cell_at(g, c + k * 1, r + k * 1) == Ok::<bool, OutOfBounds>(color));
            assert(cell_at(g, c0 + (t + k) * 1, r0 + (t + k) * 1) == Ok::<bool, OutOfBounds>(
                color,
            ));
        }
        assert(window_all(ss[i], t, color));
        assert(strip_has_win(ss[i], color));
    }
}

proof fn lemma_downward_bridge(g: Grid, color: bool)
    requires
        grid_wf(g),
    ensures
        strips_have_win(downward_strips(g, false), color) == wins_in_dir(g, color, -1, 1),
{
    let ss = downward_strips(g, false);
    let mh = max_height(g);
    lemma_max_height_bounds(g);
    if strips_have_win(ss, color) {
        let i = choose|i: int| 0 <= i < ss.len() && #[trigger] strip_has_win(ss[i], color);
        let sr = diag_start_row(mh);
        let c0 = if i <= sr {
            BOARD_WIDTH as int
        } else {
            BOARD_WIDTH - (i - sr)
        };
        let r0 = if i <= sr {
            sr - i
        } else {
            0int
        };
        assert(ss[i] == strip_seq(g, c0 - 1, r0, -1, 1, min2(mh - r0, c0)));
        let start = choose|start: int|
            0 <= start && start + NUMBER_TO_WIN <= ss[i].len() && #[trigger] window_all(
                ss[i],
                start,
                color,
            );
        assert forall|k: int|
            0 <= k < NUMBER_TO_WIN implies #[trigger] cell_at(
            g,
            (c0 - 1 - start) + k * -1,
            (r0 + start) + k * 1,
        ) == Ok::<bool, OutOfBounds>(color) by {
            assert(ss[i][start + k] == Ok::<bool, OutOfBounds>(color));
            assert(cell_at(g, (c0 - 1) + (start + k) * -1, r0 + (start + k) * 1) == Ok::<
                bool,
                OutOfBounds,
            >(color));
        }
        assert(line_at(g, color, c0 - 1 - start, r0 + start, -1, 1));
    }
    if wins_in_dir(g, color, -1, 1) {
        let (c, r) = choose|c: int, r: int| #[trigger] line_at(g, color, c, r, -1, 1);
        assert(cell_at(g, c + 0 * -1, r + 0 * 1) == Ok::<bool, OutOfBounds>(color));
        assert(cell_at(g, c + 3 * -1, r + 3 * 1) == Ok::<bool, OutOfBounds>(color));
        assert(0 <= c - 3 && c < BOARD_WIDTH && 0 <= r && r + 3 < g[c - 3].len());
        assert(r + 3 < mh);
        let sr = mh - 4;
        let d = c + r;
        let i = 6 + sr - d;
        assert(0 <= i < sr + NUMBER_TO_WIN);
        let c0 = if i <= sr {
            BOARD_WIDTH as int
        } else {
            BOARD_WIDTH - (i - sr)
        };
        let r0 = if i <= sr {
            sr - i
        } else {
            0int
        };
        assert(ss[i] == strip_seq(g, c0 - 1, r0, -1, 1, min2(mh - r0, c0)));
        let t = c0 - 1 - c;
        assert(r0 + t == r);
        assert(0 <= t && t + NUMBER_TO_WIN <= ss[i].len());
        assert forall|k: int|
            0 <= k < NUMBER_TO_WIN implies #[trigger] ss[i][t + k] == Ok::<bool, OutOfBounds>(
            color,
        ) by {
            assert(cell_at(g, c + k * -1, r + k * 1) == Ok::<bool, OutOfBounds>(color));
            assert(cell_at(g, (c0 - 1) + (t + k) * -1, r0 + (t + k) * 1) == Ok::<
                bool,
                OutOfBounds,
            >(color));
        }
        assert(window_all(ss[i], t, color));
        assert(strip_has_win(ss[i], color));
    }
}

/// One cell of a four-in-a-row line.
proof fn lemma_line_cell(g: Grid, color: bool, c: int, r: int, dc: int, dr: int, k: int)
    requires
        line_at(g, color, c, r, dc, dr),
        0 <= k < NUMBER_TO_WIN,
    ensures
        cell_at(g, c + k * dc, r + k * dr) == Ok::<bool, OutOfBounds>(color),
{
}

/// A win other than horizontal needs a stack at least a window high.
proof fn lemma_low_board_wins(g: Grid, color: bool)
    requires
        grid_wf(g),
        max_height(g) < NUMBER_TO_WIN,
    ensures
        !wins_in_dir(g, color, 0, 1),
        !wins_in_dir(g, color, 1, 1),
        !wins_in_dir(g, color, -1, 1),
{
    lemma_max_height_bounds(g);
    if wins_in_dir(g, color, 0, 1) {
        let (c, r) = choose|c: int, r: int| #[trigger] line_at(g, color, c, r, 0, 1);
        lemma_line_cell(g, color, c, r, 0, 1, 0);
        lemma_line_cell(g, color, c, r, 0, 1, 3);
        assert(false);
    }
    if wins_in_dir(g, color, 1, 1) {
        let (c, r) = choose|c: int, r: int| #[trigger] line_at(g, color, c, r, 1, 1);
        lemma_line_cell(g, color, c, r, 1, 1, 0);
        lemma_line_cell(g, color, c, r, 1, 1, 3);
        assert(false);
    }
    if wins_in_dir(g, color, -1, 1) {
        let (c, r) = choose|c: int, r: int| #[trigger] line_at(g, color, c, r, -1, 1);
        lemma_line_cell(g, color, c, r, -1, 1, 0);
        lemma_line_cell(g, color, c, r, -1, 1, 3);
        assert(false);
    }
}

/// Returns whether the given color has won in the given board state.
pub fn has_color_won(board: &Board, color: bool) -> (r: bool)
    requires
        board.wf(),
    ensures
        r == board_wins(board.grid(), color),
{
    proof {
        board.lemma_wf_grid();
        lemma_horizontal_bridge(board.grid(), color);
        lemma_vertical_bridge(board.grid(), color);
        lemma_upward_bridge(board.grid(), color);
        lemma_downward_bridge(board.grid(), color);
    }
    // Figuring out what row the highest piece is in
    // can prevent iterating through empty rows
    let highest_row = board.get_max_height();

    // First checking for horizontal connect fours
    let horizontal = board.horizontal_strip_iter();
    if check_strips(&horizontal, color) {
        return true;
    }
    // We can skip the other checks if there's not yet pieces stacked four high
    if highest_row >= NUMBER_TO_WIN {
        let vertical = board.vertical_strip_iter(false);
        if check_strips(&vertical, color) {
            return true;
        }
        let upward = board.upward_diagonal_strip_iter(false);
        if check_strips(&upward, color) {
            return true;
        }
        let downward = board.downward_diagonal_strip_iter(false);
        if check_strips(&downward, color) {
            return true;
        }
    } else {
        proof {
            lemma_low_board_wins(board.grid(), color);
        }
    }
    false
}

/// Returns whether the given color has won in the given board state.
pub fn does_color_win(board: &Board, color: bool) -> (r: bool)
    requires
        board.wf(),
    ensures
        r == board_wins(board.grid(), color),
{
    has_color_won(board, color)
}

/// The outcome a board presents to the player whose turn it is: a win is
/// credited to the player who just moved, a full board without one is a tie.
pub open spec fn game_outcome(g: Grid, turn: bool) -> GameOver {
    if board_wins(g, !turn) {
        if !turn == false {
            GameOver::OneWins
        } else {
            GameOver::TwoWins
        }
    } else if forall|c: int| 0 <= c < BOARD_WIDTH ==> #[trigger] g[c].len() == BOARD_HEIGHT {
        GameOver::Tie
    } else {
        GameOver::NoWin
    }
}

/// Returns if the game is over and who won if it is, for the board as seen by
/// the player about to move.
pub fn is_game_over(board: &Board, turn: bool) -> (r: GameOver)
    requires
        board.wf(),
    ensures
        r == game_outcome(board.grid(), turn),
{
    if has_color_won(board, !turn) {
        if !turn == false {
            GameOver::OneWins
        } else {
            GameOver::TwoWins
        }
    } else if board.is_full() {
        GameOver::Tie
    } else {
        GameOver::NoWin
    }
}

/// The grid after dropping a piece of the given color in column `c`.
pub open spec fn drop_result(g: Grid, c: int, color: bool) -> Grid {
    g.update(c, g[c].push(color))
}

/// A board is reachable within `n` moves when it is empty, or arises from a
/// reachable, undecided board by one legal move of the player whose turn it
/// was.
pub open spec fn reachable_in(g: Grid, turn: bool, n: nat) -> bool
    decreases n,
{
    g.len() == BOARD_WIDTH && (g == empty_grid() || (n > 0 && exists|c: int|
        {
            &&& 0 <= c < BOARD_WIDTH
            &&& #[trigger] g[c].len() > 0
            &&& g[c].last() == !turn
            &&& reachable_in(g.update(c, g[c].drop_last()), !turn, (n - 1) as nat)
            &&& game_outcome(g.update(c, g[c].drop_last()), !turn) == GameOver::NoWin
        }))
}

/// A board position that some legal play can produce, with the given player
/// to move.
pub open spec fn reachable(g: Grid, turn: bool) -> bool {
    reachable_in(g, turn, (BOARD_WIDTH * BOARD_HEIGHT) as nat)
}

/// A grid without pieces has no four-in-a-row.
proof fn lemma_empty_no_win(g: Grid, color: bool)
    requires
        forall|c: int| 0 <= c < g.len() ==> #[trigger] g[c].len() == 0,
    ensures
        !board_wins(g, color),
{
    if wins_in_dir(g, color, 1, 0) {
        let (c, r) = choose|c: int, r: int| #[trigger] line_at(g, color, c, r, 1, 0);
        lemma_line_cell(g, color, c, r, 1, 0, 0);
        assert(false);
    }
    if wins_in_dir(g, color, 0, 1) {
        let (c, r) = choose|c: int, r: int| #[trigger] line_at(g, color, c, r, 0, 1);
        lemma_line_cell(g, color, c, r, 0, 1, 0);
        assert(false);
    }
    if wins_in_dir(g, color, 1, 1) {
        let (c, r) = choose|c: int, r: int| #[trigger] line_at(g, color, c, r, 1, 1);
        lemma_line_cell(g, color, c, r, 1, 1, 0);
        assert(false);
    }
    if wins_in_dir(g, color, -1, 1) {
        let (c, r) = choose|c: int, r: int| #[trigger] line_at(g, color, c, r, -1, 1);
        lemma_line_cell(g, color, c, r, -1, 1, 0);
        assert(false);
    }
}

/// Cells away from the top of column `c` read the same before and after the
/// piece there is removed.
proof fn lemma_cell_unchanged(g: Grid, c: int, x: int, y: int)
    requires
        0 <= c < g.len(),
        g[c].len() > 0,
        !(x == c && y == g[c].len() - 1),
    ensures
        cell_at(g.update(c, g[c].drop_last()), x, y) == cell_at(g, x, y),
{
}

/// A four-in-a-row that avoids the top piece of column `c` survives that
/// piece's removal.
proof fn lemma_win_preserved(g: Grid, c: int, color: bool)
    requires
        0 <= c < g.len(),
        g[c].len() > 0,
        g[c].last() != color,
        board_wins(g, color),
    ensures
        board_wins(g.update(c, g[c].drop_last()), color),
{
    let g0 = g.update(c, g[c].drop_last());
    let y = g[c].len() - 1;
    assert(cell_at(g, c, y) == Ok::<bool, OutOfBounds>(g[c].last()));
    if wins_in_dir(g, color, 1, 0) {
        let (cc, rr) = choose|cc: int, rr: int| #[trigger] line_at(g, color, cc, rr, 1, 0);
        assert forall|k: int|
            0 <= k < NUMBER_TO_WIN implies #[trigger] cell_at(g0, cc + k * 1, rr + k * 0) == Ok::<
            bool,
            OutOfBounds,
        >(color) by {
            lemma_line_cell(g, color, cc, rr, 1, 0, k);
            lemma_cell_unchanged(g, c, cc + k * 1, rr + k * 0);
        }
        assert(line_at(g0, color, cc, rr, 1, 0));
    } else if wins_in_dir(g, color, 0, 1) {
        let (cc, rr) = choose|cc: int, rr: int| #[trigger] line_at(g, color, cc, rr, 0, 1);
        assert forall|k: int|
            0 <= k < NUMBER_TO_WIN implies #[trigger] cell_at(g0, cc + k * 0, rr + k * 1) == Ok::<
            bool,
            OutOfBounds,
        >(color) by {
            lemma_line_cell(g, color, cc, rr, 0, 1, k);
            lemma_cell_unchanged(g, c, cc + k * 0, rr + k * 1);
        }
        assert(line_at(g0, color, cc, rr, 0, 1));
    } else if wins_in_dir(g, color, 1, 1) {
        let (cc, rr) = choose|cc: int, rr: int| #[trigger] line_at(g, color, cc, rr, 1, 1);
        assert forall|k: int|
            0 <= k < NUMBER_TO_WIN implies #[trigger] cell_at(g0, cc + k * 1, rr + k * 1) == Ok::<
            bool,
            OutOfBounds,
        >(color) by {
            lemma_line_cell(g, color, cc, rr, 1, 1, k);
            lemma_cell_unchanged(g, c, cc + k * 1, rr + k * 1);
        }
        assert(line_at(g0, color, cc, rr, 1, 1));
    } else {
        let (cc, rr) = choose|cc: int, rr: int| #[trigger] line_at(g, color, cc, rr, -1, 1);
        assert forall|k: int|
            0 <= k < NUMBER_TO_WIN implies #[trigger] cell_at(g0, cc + k * -1, rr + k * 1) == Ok::<
            bool,
            OutOfBounds,
        >(color) by {
            lemma_line_cell(g, color, cc, rr, -1, 1, k);
            lemma_cell_unchanged(g, c, cc + k * -1, rr + k * 1);
        }
        assert(line_at(g0, color, cc, rr, -1, 1));
    }
}

proof fn lemma_reachable_in_no_double_win(g: Grid, turn: bool, n: nat)
    requires
        reachable_in(g, turn, n),
    ensures
        !board_wins(g, turn),
    decreases n,
{
    if g == empty_grid() {
        lemma_empty_no_win(g, turn);
    } else {
        assert(n > 0 && exists|c: int|
            {
                &&& 0 <= c < BOARD_WIDTH
                &&& #[trigger] g[c].len() > 0
                &&& g[c].last() == !turn
                &&& reachable_in(g.update(c, g[c].drop_last()), !turn, (n - 1) as nat)
                &&& game_outcome(g.update(c, g[c].drop_last()), !turn) == GameOver::NoWin
            });
        let c = choose|c: int|
            {
                &&& 0 <= c < BOARD_WIDTH
                &&& #[trigger] g[c].len() > 0
                &&& g[c].last() == !turn
                &&& reachable_in(g.update(c, g[c].drop_last()), !turn, (n - 1) as nat)
                &&& game_outcome(g.update(c, g[c].drop_last()), !turn) == GameOver::NoWin
            };
        assert(0 <= c < BOARD_WIDTH && g[c].len() > 0);
        let g0 = g.update(c, g[c].drop_last());
        lemma_reachable_in_no_double_win(g0, !turn, (n - 1) as nat);
        assert(g.len() == g0.len());
        assert(!board_wins(g0, turn));
        if board_wins(g, turn) {
            lemma_win_preserved(g, c, turn);
            assert(false);
        }
    }
}

/// One legal move from an undecided, reachable position reaches a
/// reachable position for the opponent.
pub proof fn lemma_move_preserves_reachable(g: Grid, turn: bool, c: int)
    requires
        grid_wf(g),
        reachable(g, turn),
        game_outcome(g, turn) == GameOver::NoWin,
        0 <= c < BOARD_WIDTH,
        g[c].len() < BOARD_HEIGHT,
    ensures
        reachable(drop_result(g, c, turn), !turn),
{
    let g2 = drop_result(g, c, turn);
    assert(g2[c].len() > 0 && g2[c].last() == turn);
    assert(g2[c].drop_last() =~= g[c]);
    assert(g2.update(c, g2[c].drop_last()) =~= g);
    assert(reachable_in(g2, !turn, 42)) by {
        assert(0 <= c < BOARD_WIDTH && #[trigger] g2[c].len() > 0 && g2[c].last() == !(!turn)
            && reachable_in(g2.update(c, g2[c].drop_last()), !(!turn), 41) && game_outcome(
            g2.update(c, g2[c].drop_last()),
            !(!turn),
        ) == GameOver::NoWin) by {
            lemma_reachable_in_mono(g, turn, 42, 41);
            lemma_count_with_gap(g, c, BOARD_WIDTH as int);
        }
    }
}

proof fn lemma_count_with_gap(g: Grid, c: int, n: int)
    requires
        grid_wf(g),
        0 <= c < BOARD_WIDTH,
        g[c].len() < BOARD_HEIGHT,
        0 <= n <= BOARD_WIDTH,
    ensures
        crate::board::count_upto(g, n) <= 6 * n - (if c < n {
            1int
        } else {
            0int
        }),
    decreases n,
{
    if n > 0 {
        lemma_count_with_gap(g, c, n - 1);
    }
}

proof fn lemma_reachable_in_mono(g: Grid, turn: bool, n1: nat, n2: nat)
    requires
        reachable_in(g, turn, n1),
    ensures
        reachable_in(g, turn, n2) || piece_count(g) > n2,
    decreases n1,
{
    if g == empty_grid() {
    } else {
        let c = choose|c: int|
            {
                &&& 0 <= c < BOARD_WIDTH
                &&& #[trigger] g[c].len() > 0
                &&& g[c].last() == !turn
                &&& reachable_in(g.update(c, g[c].drop_last()), !turn, (n1 - 1) as nat)
                &&& game_outcome(g.update(c, g[c].drop_last()), !turn) == GameOver::NoWin
            };
        let g0 = g.update(c, g[c].drop_last());
        if n2 > 0 {
            lemma_reachable_in_mono(g0, !turn, (n1 - 1) as nat, (n2 - 1) as nat);
            assert(piece_count(g0) == piece_count(g) - 1) by {
                assert(g == g0.update(c, g0[c].push(g[c].last())) || true);
                lemma_count_drop_last(g, c);
            }
            if reachable_in(g0, !turn, (n2 - 1) as nat) {
                assert(reachable_in(g, turn, n2));
            }
        } else {
            assert(piece_count(g) > 0) by {
                lemma_count_drop_last(g, c);
                lemma_count_nonneg(g0, g0.len() as int);
            }
        }
    }
}

proof fn lemma_count_nonneg(g: Grid, n: int)
    ensures
        crate::board::count_upto(g, n) >= 0,
    decreases n,
{
    if n > 0 {
        lemma_count_nonneg(g, n - 1);
    }
}

proof fn lemma_count_drop_last(g: Grid, c: int)
    requires
        g.len() == BOARD_WIDTH,
        0 <= c < BOARD_WIDTH,
        g[c].len() > 0,
    ensures
        piece_count(g.update(c, g[c].drop_last())) == piece_count(g) - 1,
{
    let g0 = g.update(c, g[c].drop_last());
    let g1 = g0.update(c, g0[c].push(g[c].last()));
    assert(g1 =~= g) by {
        assert(g0[c].push(g[c].last()) =~= g[c]);
    }
    crate::board::lemma_drop_piece_count(g0, c, g[c].last());
}

/// On a reachable board the two colors never both have four in a row: the
/// game stops before the player on the move could answer a completed four.
pub proof fn lemma_reachable_no_double_win(g: Grid, turn: bool)
    requires
        reachable(g, turn),
    ensures
        !(board_wins(g, true) && board_wins(g, false)),
{
    lemma_reachable_in_no_double_win(g, turn, (BOARD_WIDTH * BOARD_HEIGHT) as nat);
}

/// Every cell of the mirrored grid reads the opposite column of the original.
proof fn lemma_mirror_cell(g: Grid, c: int, r: int)
    requires
        g.len() == BOARD_WIDTH,
    ensures
        cell_at(crate::board::mirrored(g), c, r) == cell_at(g, BOARD_WIDTH - 1 - c, r),
{
}

proof fn lemma_mirror_win_one_way(g: Grid, color: bool)
    requires
        g.len() == BOARD_WIDTH,
        board_wins(g, color),
    ensures
        board_wins(crate::board::mirrored(g), color),
{
    let m = crate::board::mirrored(g);
    let w = BOARD_WIDTH - 1;
    if wins_in_dir(g, color, 1, 0) {
        let (c, r) = choose|c: int, r: int| #[trigger] line_at(g, color, c, r, 1, 0);
        assert forall|k: int|
            0 <= k < NUMBER_TO_WIN implies #[trigger] cell_at(m, (w - c - 3) + k * 1, r + k * 0)
            == Ok::<bool, OutOfBounds>(color) by {
            lemma_line_cell(g, color, c, r, 1, 0, 3 - k);
            lemma_mirror_cell(g, w - c - 3 + k * 1, r + k * 0);
        }
        assert(line_at(m, color, w - c - 3, r, 1, 0));
    } else if wins_in_dir(g, color, 0, 1) {
        let (c, r) = choose|c: int, r: int| #[trigger] line_at(g, color, c, r, 0, 1);
        assert forall|k: int|
            0 <= k < NUMBER_TO_WIN implies #[trigger] cell_at(m, (w - c) + k * 0, r + k * 1)
            == Ok::<bool, OutOfBounds>(color) by {
            lemma_line_cell(g, color, c, r, 0, 1, k);
            lemma_mirror_cell(g, w - c + k * 0, r + k * 1);
        }
        assert(line_at(m, color, w - c, r, 0, 1));
    } else if wins_in_dir(g, color, 1, 1) {
        let (c, r) = choose|c: int, r: int| #[trigger] line_at(g, color, c, r, 1, 1);
        assert forall|k: int|
            0 <= k < NUMBER_TO_WIN implies #[trigger] cell_at(m, (w - c) + k * -1, r + k * 1)
            == Ok::<bool, OutOfBounds>(color) by {
            lemma_line_cell(g, color, c, r, 1, 1, k);
            lemma_mirror_cell(g, w - c + k * -1, r + k * 1);
        }
        assert(line_at(m, color, w - c, r, -1, 1));
    } else {
        let (c, r) = choose|c: int, r: int| #[trigger] line_at(g, color, c, r, -1, 1);
        assert forall|k: int|
            0 <= k < NUMBER_TO_WIN implies #[trigger] cell_at(m, (w - c) + k * 1, r + k * 1)
            == Ok::<bool, OutOfBounds>(color) by {
            lemma_line_cell(g, color, c, r, -1, 1, k);
            lemma_mirror_cell(g, w - c + k * 1, r + k * 1);
        }
        assert(line_at(m, color, w - c, r, 1, 1));
    }
}

/// Mirroring a board leaves its win status unchanged, for either color.
pub proof fn lemma_mirror_win(g: Grid, color: bool)
    requires
        g.len() == BOARD_WIDTH,
    ensures
        board_wins(crate::board::mirrored(g), color) == board_wins(g, color),
{
    let m = crate::board::mirrored(g);
    if board_wins(g, color) {
        lemma_mirror_win_one_way(g, color);
    }
    if board_wins(m, color) {
        lemma_mirror_win_one_way(m, color);
        crate::board::lemma_mirror_involution(g);
    }
}

/// Mirroring a board leaves the game outcome unchanged.
pub proof fn lemma_mirror_outcome(g: Grid, turn: bool)
    requires
        g.len() == BOARD_WIDTH,
    ensures
        game_outcome(crate::board::mirrored(g), turn) == game_outcome(g, turn),
{
    let m = crate::board::mirrored(g);
    lemma_mirror_win(g, !turn);
    assert(forall|c: int| 0 <= c < BOARD_WIDTH ==> #[trigger] m[c].len() == g[BOARD_WIDTH - 1
        - c].len());
    if forall|c: int| 0 <= c < BOARD_WIDTH ==> #[trigger] g[c].len() == BOARD_HEIGHT {
        assert forall|c: int| 0 <= c < BOARD_WIDTH implies #[trigger] m[c].len()
            == BOARD_HEIGHT by {
            assert(g[BOARD_WIDTH - 1 - c].len() == BOARD_HEIGHT);
        }
    }
    if forall|c: int| 0 <= c < BOARD_WIDTH ==> #[trigger] m[c].len() == BOARD_HEIGHT {
        assert forall|c: int| 0 <= c < BOARD_WIDTH implies #[trigger] g[c].len()
            == BOARD_HEIGHT by {
            assert(m[BOARD_WIDTH - 1 - c].len() == BOARD_HEIGHT);
        }
    }
}

} // verus!

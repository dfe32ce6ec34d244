//! The heuristic evaluator: every window of four cells in every strip of
//! every direction is classified by its piece counts, and uncontested runs
//! are scored exponentially in their length.
use vstd::prelude::*;

use crate::board::{grid_wf, Board, Grid, OutOfBounds, BOARD_HEIGHT, BOARD_WIDTH, NUMBER_TO_WIN};
use crate::board_iters::{
    cells_view, downward_strips, eff_height, horizontal_strips, upward_strips, vertical_strips,
    vertical_strips_upto, vstrip_included, vstrip_len, Cell,
};

verus! {

/// Used to define how much better an X in a row is to a X-1 in a row.
pub const SCALING_HEURISTIC: isize = 10;

/// The scaling base raised to the `n`th power.
pub open spec fn pow10(n: int) -> int
    decreases n,
{
    if n <= 0 {
        1
    } else {
        10 * pow10(n - 1)
    }
}

/// Whether strip cell `i` exists and holds a piece of the given color.
pub open spec fn cell_counts(s: Seq<Cell>, i: int, color: bool) -> int {
    if 0 <= i < s.len() && s[i] == Ok::<bool, OutOfBounds>(color) {
        1
    } else {
        0
    }
}

/// How many of the first `k` cells of the window starting at `start` hold a
/// piece of the given color. Cells past the strip's end count as empty.
pub open spec fn count_color(s: Seq<Cell>, start: int, k: int, color: bool) -> int
    decreases k,
{
    if k <= 0 {
        0
    } else {
        count_color(s, start, k - 1, color) + cell_counts(s, start + (k - 1), color)
    }
}

/// The score one window contributes: an uncontested run of `n` pieces is
/// worth the scaling base to the `n - 1`, positive for the second player.
pub open spec fn window_score(s: Seq<Cell>, start: int) -> int {
    let f = count_color(s, start, NUMBER_TO_WIN as int, false);
    let t = count_color(s, start, NUMBER_TO_WIN as int, true);
    if f > 0 && t == 0 {
        -pow10(f - 1)
    } else if t > 0 && f == 0 {
        pow10(t - 1)
    } else {
        0
    }
}

/// How many windows a strip of the given length yields: one per start
/// position, and always at least one.
pub open spec fn num_windows(len: int) -> int {
    if len <= NUMBER_TO_WIN {
        1
    } else {
        len - (NUMBER_TO_WIN - 1)
    }
}

/// The sum of the scores of the first `w` windows of a strip.
pub open spec fn strip_score_upto(s: Seq<Cell>, w: int) -> int
    decreases w,
{
    if w <= 0 {
        0
    } else {
        strip_score_upto(s, w - 1) + window_score(s, w - 1)
    }
}

/// The score of one strip: the sum over all its windows.
pub open spec fn strip_score(s: Seq<Cell>) -> int {
    strip_score_upto(s, num_windows(s.len() as int))
}

/// The sum of the scores of the first `i` strips.
pub open spec fn strips_score_upto(ss: Seq<Seq<Cell>>, i: int) -> int
    decreases i,
{
    if i <= 0 {
        0
    } else {
        strips_score_upto(ss, i - 1) + strip_score(ss[i - 1])
    }
}

/// The score of a list of strips.
pub open spec fn strips_score(ss: Seq<Seq<Cell>>) -> int {
    strips_score_upto(ss, ss.len() as int)
}

/// The heuristic value of a grid: the strip scores of all four directions,
/// over the full strip lists.
pub open spec fn heuristic(g: Grid) -> int {
    strips_score(horizontal_strips(g)) + strips_score(vertical_strips(g, true)) + strips_score(
        upward_strips(g, true),
    ) + strips_score(downward_strips(g, true))
}

/// Window counts lie between zero and the window width.
pub proof fn lemma_count_color_bounds(s: Seq<Cell>, start: int, k: int, color: bool)
    ensures
        0 <= count_color(s, start, k, color),
        count_color(s, start, k, color) <= (if k >= 0 {
            k
        } else {
            0
        }),
    decreases k,
{
    if k > 0 {
        lemma_count_color_bounds(s, start, k - 1, color);
    }
}

proof fn lemma_pow10_small()
    ensures
        pow10(0) == 1,
        pow10(1) == 10,
        pow10(2) == 100,
        pow10(3) == 1000,
{
    assert(pow10(0) == 1);
    assert(pow10(1) == 10);
    assert(pow10(2) == 100);
    assert(pow10(3) == 1000);
}

/// One window's score is at most a completed run's worth.
pub proof fn lemma_window_score_bounds(s: Seq<Cell>, start: int)
    ensures
        -1000 <= window_score(s, start) <= 1000,
{
    lemma_count_color_bounds(s, start, NUMBER_TO_WIN as int, false);
    lemma_count_color_bounds(s, start, NUMBER_TO_WIN as int, true);
    lemma_pow10_small();
}

proof fn lemma_strip_score_upto_bounds(s: Seq<Cell>, w: int)
    requires
        w >= 0,
    ensures
        -1000 * w <= strip_score_upto(s, w) <= 1000 * w,
    decreases w,
{
    if w > 0 {
        lemma_strip_score_upto_bounds(s, w - 1);
        lemma_window_score_bounds(s, w - 1);
    }
}

/// A board strip's score is bounded by four completed runs.
pub proof fn lemma_strip_score_bounds(s: Seq<Cell>)
    requires
        s.len() <= BOARD_WIDTH,
    ensures
        -4000 <= strip_score(s) <= 4000,
{
    lemma_strip_score_upto_bounds(s, num_windows(s.len() as int));
}

proof fn lemma_strips_score_upto_bounds(ss: Seq<Seq<Cell>>, i: int)
    requires
        0 <= i <= ss.len(),
        forall|a: int| 0 <= a < ss.len() ==> #[trigger] ss[a].len() <= BOARD_WIDTH,
    ensures
        -4000 * i <= strips_score_upto(ss, i) <= 4000 * i,
    decreases i,
{
    if i > 0 {
        lemma_strips_score_upto_bounds(ss, i - 1);
        lemma_strip_score_bounds(ss[i - 1]);
    }
}

/// The score of a short list of board strips stays well inside `isize`.
pub proof fn lemma_strips_score_bounds(ss: Seq<Seq<Cell>>)
    requires
        ss.len() <= 8,
        forall|a: int| 0 <= a < ss.len() ==> #[trigger] ss[a].len() <= BOARD_WIDTH,
    ensures
        -32000 <= strips_score(ss) <= 32000,
{
    lemma_strips_score_upto_bounds(ss, ss.len() as int);
}

/// A circular buffer used to iterate through all sets of four pieces in a
/// given strip. It automatically tracks how many of each piece type are
/// within the current window.
pub struct CircleBuffer {
    cells: Vec<Cell>,
    index: usize,
    false_pieces: u32,
    true_pieces: u32,
}

impl CircleBuffer {
    /// The strip the buffer slides over.
    pub closed spec fn strip(self) -> Seq<Cell> {
        self.cells@
    }

    /// The start position of the current window.
    pub closed spec fn position(self) -> int {
        self.index as int
    }

    /// The buffer is consistent: its position is a window start (or one past
    /// the last), and its counts are those of the current window.
    pub closed spec fn wf(self) -> bool {
        &&& 0 <= self.index <= num_windows(self.cells@.len() as int)
        &&& self.index < num_windows(self.cells@.len() as int) ==> {
            &&& self.false_pieces as int == count_color(
                self.cells@,
                self.index as int,
                NUMBER_TO_WIN as int,
                false,
            )
            &&& self.true_pieces as int == count_color(
                self.cells@,
                self.index as int,
                NUMBER_TO_WIN as int,
                true,
            )
        }
    }

    /// Creates a CircleBuffer over a strip, loaded with the first window.
    pub fn new(cells: Vec<Cell>) -> (r: CircleBuffer)
        ensures
            r.wf(),
            r.strip() == cells@,
            r.position() == 0,
    {
        let mut false_pieces: u32 = 0;
        let mut true_pieces: u32 = 0;
        let mut k: usize = 0;
        while k < NUMBER_TO_WIN as usize
            invariant
                0 <= k <= NUMBER_TO_WIN,
                false_pieces as int == count_color(cells@, 0, k as int, false),
                true_pieces as int == count_color(cells@, 0, k as int, true),
                false_pieces <= k,
                true_pieces <= k,
            decreases NUMBER_TO_WIN as int - k as int,
        {
            if k < cells.len() {
                match cells[k] {
                    Ok(true) => {
                        true_pieces = true_pieces + 1;
                    },
                    Ok(false) => {
                        false_pieces = false_pieces + 1;
                    },
                    Err(_) => {},
                }
            }
            k = k + 1;
        }
        CircleBuffer { cells, index: 0, false_pieces, true_pieces }
    }

    /// Yields the piece counts of the current window, then slides the window
    /// one cell further; yields nothing once every window has been seen.
    pub fn next(&mut self) -> (r: Option<(u32, u32)>)
        requires
            old(self).wf(),
        ensures
            final(self).wf(),
            final(self).strip() == old(self).strip(),
            old(self).position() < num_windows(old(self).strip().len() as int) ==> {
                &&& final(self).position() == old(self).position() + 1
                &&& r matches Some(p) && p.0 as int == count_color(
                    old(self).strip(),
                    old(self).position(),
                    NUMBER_TO_WIN as int,
                    false,
                ) && p.1 as int == count_color(
                    old(self).strip(),
                    old(self).position(),
                    NUMBER_TO_WIN as int,
                    true,
                )
            },
            old(self).position() == num_windows(old(self).strip().len() as int) ==> {
                &&& r is None
                &&& *final(self) == *old(self)
            },
    {
        let windows = if self.cells.len() <= NUMBER_TO_WIN as usize {
            1
        } else {
            self.cells.len() - (NUMBER_TO_WIN as usize - 1)
        };
        if self.index >= windows {
            return None;
        }
        let result = Some((self.false_pieces, self.true_pieces));
        proof {
            lemma_count_color_bounds(
                self.cells@,
                self.index as int,
                NUMBER_TO_WIN as int,
                false,
            );
            lemma_count_color_bounds(self.cells@, self.index as int, NUMBER_TO_WIN as int, true);
        }
        if self.index + 1 < windows {
            proof {
                lemma_window_count_slide(self.cells@, self.index as int, false);
                lemma_window_count_slide(self.cells@, self.index as int, true);
            }
            let outgoing = self.cells[self.index];
            let incoming = self.cells[self.index + NUMBER_TO_WIN as usize];
            match incoming {
                Ok(true) => {
                    self.true_pieces = self.true_pieces + 1;
                },
                Ok(false) => {
                    self.false_pieces = self.false_pieces + 1;
                },
                Err(_) => {},
            }
            match outgoing {
                Ok(true) => {
                    proof {
                        lemma_count_color_first(self.cells@, self.index as int, true);
                    }
                    self.true_pieces = self.true_pieces - 1;
                },
                Ok(false) => {
                    proof {
                        lemma_count_color_first(self.cells@, self.index as int, false);
                    }
                    self.false_pieces = self.false_pieces - 1;
                },
                Err(_) => {},
            }
        }
        self.index = self.index + 1;
        result
    }
}

/// Sliding the window one cell exchanges the outgoing cell's contribution
/// for the incoming one's.
proof fn lemma_window_count_slide(s: Seq<Cell>, p: int, color: bool)
    ensures
        count_color(s, p + 1, NUMBER_TO_WIN as int, color) == count_color(
            s,
            p,
            NUMBER_TO_WIN as int,
            color,
        ) - cell_counts(s, p, color) + cell_counts(s, p + 4, color),
{
    lemma_count_decompose(s, p);
    lemma_count_decompose(s, p + 1);
}

/// A window count is the sum of its four cells' contributions.
proof fn lemma_count_decompose(s: Seq<Cell>, p: int)
    ensures
        forall|color: bool|
            #[trigger] count_color(s, p, NUMBER_TO_WIN as int, color) == cell_counts(s, p, color)
                + cell_counts(s, p + 1, color) + cell_counts(s, p + 2, color) + cell_counts(
                s,
                p + 3,
                color,
            ),
{
    assert forall|color: bool|
        #[trigger] count_color(s, p, NUMBER_TO_WIN as int, color) == cell_counts(s, p, color)
            + cell_counts(s, p + 1, color) + cell_counts(s, p + 2, color) + cell_counts(
            s,
            p + 3,
            color,
        ) by {
        assert(count_color(s, p, 0, color) == 0);
        assert(count_color(s, p, 1, color) == count_color(s, p, 0, color) + cell_counts(
            s,
            p,
            color,
        ));
        assert(count_color(s, p, 2, color) == count_color(s, p, 1, color) + cell_counts(
            s,
            p + 1,
            color,
        ));
        assert(count_color(s, p, 3, color) == count_color(s, p, 2, color) + cell_counts(
            s,
            p + 2,
            color,
        ));
        assert(count_color(s, p, 4, color) == count_color(s, p, 3, color) + cell_counts(
            s,
            p + 3,
            color,
        ));
    }
}

/// A window whose first cell matches counts it.
proof fn lemma_count_color_first(s: Seq<Cell>, p: int, color: bool)
    requires
        cell_counts(s, p, color) == 1,
    ensures
        count_color(s, p, NUMBER_TO_WIN as int, color) >= 1,
{
    lemma_count_decompose(s, p);
}

/// Exponentiation by the scaling base, for run lengths inside one window.
fn pow10_exec(n: u32) -> (r: isize)
    requires
        n <= 3,
    ensures
        r as int == pow10(n as int),
{
    proof {
        lemma_pow10_small();
    }
    if n == 0 {
        1
    } else if n == 1 {
        SCALING_HEURISTIC
    } else if n == 2 {
        SCALING_HEURISTIC * SCALING_HEURISTIC
    } else {
        SCALING_HEURISTIC * SCALING_HEURISTIC * SCALING_HEURISTIC
    }
}

/// Scores the contents of a circle buffer based on how many X in a row it
/// has for all X < NUMBER_TO_WIN.
pub fn score_circle_buffer(circle_buffer: CircleBuffer) -> (r: isize)
    requires
        circle_buffer.wf(),
        circle_buffer.position() == 0,
        circle_buffer.strip().len() <= BOARD_WIDTH,
    ensures
        r as int == strip_score(circle_buffer.strip()),
{
    let ghost s = circle_buffer.strip();
    let mut cb = circle_buffer;
    let mut score: isize = 0;
    loop
        invariant
            cb.wf(),
            cb.strip() == s,
            s.len() <= BOARD_WIDTH,
            0 <= cb.position() <= num_windows(s.len() as int),
            score as int == strip_score_upto(s, cb.position()),
            -4000 <= score <= 4000,
        ensures
            score as int == strip_score(s),
        decreases num_windows(s.len() as int) - cb.position(),
    {
        let ghost pos = cb.position();
        match cb.next() {
            None => {
                break ;
            },
            Some((false_pieces, true_pieces)) => {
                proof {
                    lemma_count_color_bounds(s, pos, NUMBER_TO_WIN as int, false);
                    lemma_count_color_bounds(s, pos, NUMBER_TO_WIN as int, true);
                    lemma_strip_score_upto_bounds(s, pos + 1);
                }
                if false_pieces > 0 && true_pieces == 0 {
                    score = score - pow10_exec(false_pieces - 1);
                } else if true_pieces > 0 && false_pieces == 0 {
                    score = score + pow10_exec(true_pieces - 1);
                }
            },
        }
    }
    score
}

proof fn lemma_vstrips_shape(g: Grid, c: int, full: bool)
    requires
        grid_wf(g),
        0 <= c <= BOARD_WIDTH,
    ensures
        vertical_strips_upto(g, c, full).len() <= c,
        forall|i: int|
            0 <= i < vertical_strips_upto(g, c, full).len() ==> #[trigger] vertical_strips_upto(
                g,
                c,
                full,
            )[i].len() <= BOARD_WIDTH,
    decreases c,
{
    if c > 0 {
        lemma_vstrips_shape(g, c - 1, full);
        let rest = vertical_strips_upto(g, c - 1, full);
        assert(forall|i: int|
            0 <= i < rest.len() ==> vertical_strips_upto(g, c, full)[i] == #[trigger] rest[i]);
    }
}

/// Scores a list of strips, consuming it from the back.
fn score_strips_list(strips: Vec<Vec<Cell>>) -> (r: isize)
    requires
        strips@.len() <= 8,
        forall|a: int|
            0 <= a < strips@.len() ==> #[trigger] cells_view(strips@)[a].len() <= BOARD_WIDTH,
    ensures
        r as int == strips_score(cells_view(strips@)),
{
    let ghost ss = cells_view(strips@);
    let mut rem = strips;
    let mut score: isize = 0;
    proof {
        lemma_strips_score_bounds(ss);
        assert(cells_view(rem@) =~= ss.subrange(0, rem@.len() as int));
    }
    while rem.len() > 0
        invariant
            ss.len() <= 8,
            forall|a: int| 0 <= a < ss.len() ==> #[trigger] ss[a].len() <= BOARD_WIDTH,
            rem@.len() <= ss.len(),
            cells_view(rem@) == ss.subrange(0, rem@.len() as int),
            score as int == strips_score(ss) - strips_score_upto(ss, rem@.len() as int),
            -64000 <= score <= 64000,
        decreases rem@.len(),
    {
        let ghost n = rem@.len() as int;
        let strip = match rem.pop() {
            Some(strip) => strip,
            None => {
                proof {
                    assert(false);
                }
                Vec::new()
            },
        };
        proof {
            assert(strip@ == ss.subrange(0, n)[n - 1]);
            assert(strip@ == ss[n - 1]);
            assert(strips_score_upto(ss, n) == strips_score_upto(ss, n - 1) + strip_score(
                ss[n - 1],
            ));
            assert(cells_view(rem@) =~= ss.subrange(0, n - 1));
            lemma_strips_score_bounds(ss);
            lemma_strips_score_upto_bounds(ss, n - 1);
        }
        score = score + score_circle_buffer(CircleBuffer::new(strip));
    }
    proof {
        assert(strips_score_upto(ss, 0) == 0);
    }
    score
}

/// This heuristic judges a board state by trying to determine who is closer
/// to a connect four, by finding how many X in a rows there are, with bigger
/// Xs leading to a higher score.
fn score_by_closeness_to_win(board: &Board) -> (r: isize)
    requires
        board.wf(),
    ensures
        r as int == heuristic(board.grid()),
{
    let ghost g = board.grid();
    proof {
        board.lemma_wf_grid();
        crate::board::lemma_max_height_bounds(g);
        lemma_vstrips_shape(g, BOARD_WIDTH as int, true);
        assert(forall|a: int|
            0 <= a < horizontal_strips(g).len() ==> #[trigger] horizontal_strips(g)[a].len()
                <= BOARD_WIDTH);
        assert(upward_strips(g, true).len() <= 8);
        assert(forall|a: int|
            0 <= a < upward_strips(g, true).len() ==> #[trigger] upward_strips(g, true)[a].len()
                <= BOARD_WIDTH);
        assert(downward_strips(g, true).len() <= 8);
        assert(forall|a: int|
            0 <= a < downward_strips(g, true).len() ==> #[trigger] downward_strips(
                g,
                true,
            )[a].len() <= BOARD_WIDTH);
        lemma_strips_score_bounds(horizontal_strips(g));
        lemma_strips_score_bounds(vertical_strips(g, true));
        lemma_strips_score_bounds(upward_strips(g, true));
        lemma_strips_score_bounds(downward_strips(g, true));
    }
    let mut score: isize = 0;

    // First we can calculate scores along the horizontal strips
    score = score + score_strips_list(board.horizontal_strip_iter());

    // Next we can calculate scores along the vertical strips
    score = score + score_strips_list(board.vertical_strip_iter(true));

    // Next we can calculate scores along the upward diagonal strips
    score = score + score_strips_list(board.upward_diagonal_strip_iter(true));

    // Next we can calculate scores along the downward diagonal strips
    score = score + score_strips_list(board.downward_diagonal_strip_iter(true));

    score
}

/// Heuristically determines how good a given board state is.
///
/// Positive values are favorable to true, negative to false.
pub fn how_good_is_board(board: &Board) -> (r: isize)
    requires
        board.wf(),
    ensures
        r as int == heuristic(board.grid()),
{
    score_by_closeness_to_win(board)
}

/// Heuristically determines how good a given board state is.
///
/// Positive values are favorable to true, negative to false.
pub fn how_good_is(board: Board) -> (r: isize)
    requires
        board.wf(),
    ensures
        r as int == heuristic(board.grid()),
{
    how_good_is_board(&board)
}

/// The heuristic never reaches the sentinel scores that terminal outcomes
/// use: it stays strictly inside the integer range.
pub proof fn lemma_heuristic_bounds(g: Grid)
    requires
        grid_wf(g),
    ensures
        -128000 <= heuristic(g) <= 128000,
{
    lemma_max_height_bounds_local(g);
    lemma_vstrips_shape(g, BOARD_WIDTH as int, true);
    lemma_strips_score_bounds(horizontal_strips(g));
    lemma_strips_score_bounds(vertical_strips(g, true));
    lemma_strips_score_bounds(upward_strips(g, true));
    lemma_strips_score_bounds(downward_strips(g, true));
}

proof fn lemma_max_height_bounds_local(g: Grid)
    requires
        grid_wf(g),
    ensures
        horizontal_strips(g).len() <= 8,
        forall|a: int|
            0 <= a < horizontal_strips(g).len() ==> #[trigger] horizontal_strips(g)[a].len()
                <= BOARD_WIDTH,
        upward_strips(g, true).len() <= 8,
        forall|a: int|
            0 <= a < upward_strips(g, true).len() ==> #[trigger] upward_strips(g, true)[a].len()
                <= BOARD_WIDTH,
        downward_strips(g, true).len() <= 8,
        forall|a: int|
            0 <= a < downward_strips(g, true).len() ==> #[trigger] downward_strips(
                g,
                true,
            )[a].len() <= BOARD_WIDTH,
{
    crate::board::lemma_max_height_bounds(g);
}

proof fn lemma_max_upto_le(g: Grid, n: int, b: int)
    requires
        forall|c: int| 0 <= c < n ==> #[trigger] g[c].len() <= b,
        0 <= b,
    ensures
        crate::board::max_height_upto(g, n) <= b,
    decreases n,
{
    if n > 0 {
        lemma_max_upto_le(g, n - 1, b);
    }
}

/// Mirroring a grid leaves its maximum height unchanged.
proof fn lemma_max_height_mirror(g: Grid)
    requires
        g.len() == BOARD_WIDTH,
    ensures
        crate::board::max_height(crate::board::mirrored(g)) == crate::board::max_height(g),
{
    let m = crate::board::mirrored(g);
    crate::board::lemma_max_height_bounds(g);
    crate::board::lemma_max_height_bounds(m);
    assert(crate::board::max_height(g) >= 0) by {
        lemma_max_upto_ge_zero(g, BOARD_WIDTH as int);
    }
    assert(crate::board::max_height(m) >= 0) by {
        lemma_max_upto_ge_zero(m, BOARD_WIDTH as int);
    }
    assert forall|c: int| 0 <= c < BOARD_WIDTH implies #[trigger] m[c].len()
        <= crate::board::max_height(g) by {
        assert(g[BOARD_WIDTH - 1 - c].len() <= crate::board::max_height(g));
    }
    lemma_max_upto_le(m, BOARD_WIDTH as int, crate::board::max_height(g));
    assert forall|c: int| 0 <= c < BOARD_WIDTH implies #[trigger] g[c].len()
        <= crate::board::max_height(m) by {
        assert(m[BOARD_WIDTH - 1 - c].len() <= crate::board::max_height(m));
        assert(m[BOARD_WIDTH - 1 - c] == g[c]);
    }
    lemma_max_upto_le(g, BOARD_WIDTH as int, crate::board::max_height(m));
}

proof fn lemma_max_upto_ge_zero(g: Grid, n: int)
    ensures
        crate::board::max_height_upto(g, n) >= 0,
    decreases n,
{
    if n > 0 {
        lemma_max_upto_ge_zero(g, n - 1);
    }
}

/// Lists whose strips score the same, position by position, score the same.
proof fn lemma_strips_score_pointwise(ss1: Seq<Seq<Cell>>, ss2: Seq<Seq<Cell>>, n: int)
    requires
        forall|i: int| 0 <= i < n ==> strip_score(#[trigger] ss1[i]) == strip_score(ss2[i]),
    ensures
        strips_score_upto(ss1, n) == strips_score_upto(ss2, n),
    decreases n,
{
    if n > 0 {
        lemma_strips_score_pointwise(ss1, ss2, n - 1);
    }
}

/// Reversing a full-width strip leaves its score unchanged: each window's
/// counts reappear at the mirrored start position.
proof fn lemma_row_strip_mirror_score(s1: Seq<Cell>, s2: Seq<Cell>)
    requires
        s1.len() == BOARD_WIDTH,
        s2.len() == BOARD_WIDTH,
        forall|p: int| 0 <= p < BOARD_WIDTH ==> #[trigger] s1[p] == s2[BOARD_WIDTH - 1 - p],
    ensures
        strip_score(s1) == strip_score(s2),
{
    assert forall|x: int| 0 <= x < 4 implies #[trigger] window_score(s1, x) == window_score(
        s2,
        3 - x,
    ) by {
        lemma_count_decompose(s1, x);
        lemma_count_decompose(s2, 3 - x);
        assert forall|color: bool|
            #[trigger] count_color(s1, x, NUMBER_TO_WIN as int, color) == count_color(
                s2,
                3 - x,
                NUMBER_TO_WIN as int,
                color,
            ) by {
            assert(cell_counts(s1, x, color) == cell_counts(s2, 6 - x, color));
            assert(cell_counts(s1, x + 1, color) == cell_counts(s2, 5 - x, color));
            assert(cell_counts(s1, x + 2, color) == cell_counts(s2, 4 - x, color));
            assert(cell_counts(s1, x + 3, color) == cell_counts(s2, 3 - x, color));
        }
    }
    assert(num_windows(s1.len() as int) == 4);
    assert(num_windows(s2.len() as int) == 4);
    assert(strip_score_upto(s1, 0) == 0);
    assert(strip_score_upto(s2, 0) == 0);
    assert(window_score(s1, 0) == window_score(s2, 3));
    assert(window_score(s1, 1) == window_score(s2, 2));
    assert(window_score(s1, 2) == window_score(s2, 1));
    assert(window_score(s1, 3) == window_score(s2, 0));
    assert(strip_score_upto(s1, 4) == strip_score_upto(s1, 3) + window_score(s1, 3));
    assert(strip_score_upto(s1, 3) == strip_score_upto(s1, 2) + window_score(s1, 2));
    assert(strip_score_upto(s1, 2) == strip_score_upto(s1, 1) + window_score(s1, 1));
    assert(strip_score_upto(s1, 1) == strip_score_upto(s1, 0) + window_score(s1, 0));
    assert(strip_score_upto(s2, 4) == strip_score_upto(s2, 3) + window_score(s2, 3));
    assert(strip_score_upto(s2, 3) == strip_score_upto(s2, 2) + window_score(s2, 2));
    assert(strip_score_upto(s2, 2) == strip_score_upto(s2, 1) + window_score(s2, 1));
    assert(strip_score_upto(s2, 1) == strip_score_upto(s2, 0) + window_score(s2, 0));
}

/// The horizontal strips of the mirrored grid score the same, row by row.
proof fn lemma_mirror_horizontal_score(g: Grid)
    requires
        grid_wf(g),
    ensures
        strips_score(horizontal_strips(crate::board::mirrored(g))) == strips_score(
            horizontal_strips(g),
        ),
{
    let m = crate::board::mirrored(g);
    lemma_max_height_mirror(g);
    assert forall|r: int| 0 <= r < crate::board::max_height(g) implies strip_score(
        #[trigger] horizontal_strips(m)[r],
    ) == strip_score(horizontal_strips(g)[r]) by {
        let sm = horizontal_strips(m)[r];
        let sg = horizontal_strips(g)[r];
        assert forall|p: int| 0 <= p < BOARD_WIDTH implies #[trigger] sm[p] == sg[BOARD_WIDTH - 1
            - p] by {
            assert(sm[p] == crate::board::cell_at(m, p + p * 0 * 0, r));
            assert(crate::board::cell_at(m, p, r) == crate::board::cell_at(
                g,
                BOARD_WIDTH - 1 - p,
                r,
            ));
        }
        lemma_row_strip_mirror_score(sm, sg);
    }
    lemma_strips_score_pointwise(
        horizontal_strips(m),
        horizontal_strips(g),
        crate::board::max_height(g) as int,
    );
}

/// The score of the first `c` columns' vertical strips, column by column.
spec fn vcols_score(g: Grid, c: int, full: bool) -> int
    decreases c,
{
    if c <= 0 {
        0
    } else {
        vcols_score(g, c - 1, full) + (if vstrip_included(g, c - 1, full) {
            strip_score(
                crate::board_iters::strip_seq(g, c - 1, 0, 0, 1, vstrip_len(g, c - 1, full)),
            )
        } else {
            0
        })
    }
}

proof fn lemma_prefix_scores(ss1: Seq<Seq<Cell>>, ss2: Seq<Seq<Cell>>, n: int)
    requires
        0 <= n <= ss1.len(),
        n <= ss2.len(),
        forall|i: int| 0 <= i < n ==> #[trigger] ss1[i] == ss2[i],
    ensures
        strips_score_upto(ss1, n) == strips_score_upto(ss2, n),
    decreases n,
{
    if n > 0 {
        lemma_prefix_scores(ss1, ss2, n - 1);
    }
}

/// The vertical strip list's score is the per-column sum.
proof fn lemma_vstrips_score(g: Grid, c: int, full: bool)
    requires
        0 <= c,
    ensures
        strips_score(vertical_strips_upto(g, c, full)) == vcols_score(g, c, full),
    decreases c,
{
    if c > 0 {
        lemma_vstrips_score(g, c - 1, full);
        let rest = vertical_strips_upto(g, c - 1, full);
        if vstrip_included(g, c - 1, full) {
            let s = crate::board_iters::strip_seq(g, c - 1, 0, 0, 1, vstrip_len(g, c - 1, full));
            let whole = rest.push(s);
            assert(vertical_strips_upto(g, c, full) == whole);
            assert(strips_score_upto(whole, whole.len() as int) == strips_score_upto(
                whole,
                whole.len() - 1,
            ) + strip_score(whole[whole.len() - 1]));
            lemma_prefix_scores(whole, rest, rest.len() as int);
            assert(whole[whole.len() - 1] == s);
        }
    }
}

/// A mirrored column carries the original column's strip, so the per-column
/// sums match in opposite order.
proof fn lemma_mirror_vertical_score(g: Grid)
    requires
        grid_wf(g),
    ensures
        strips_score(vertical_strips(crate::board::mirrored(g), true)) == strips_score(
            vertical_strips(g, true),
        ),
{
    let m = crate::board::mirrored(g);
    lemma_vstrips_score(g, BOARD_WIDTH as int, true);
    lemma_vstrips_score(m, BOARD_WIDTH as int, true);
    assert forall|c: int| 0 <= c < BOARD_WIDTH implies vstrip_included(m, c, true)
        == vstrip_included(g, BOARD_WIDTH - 1 - c, true) && (vstrip_included(m, c, true)
        ==> strip_score(
        #[trigger] crate::board_iters::strip_seq(m, c, 0, 0, 1, vstrip_len(m, c, true)),
    ) == strip_score(
        crate::board_iters::strip_seq(
            g,
            BOARD_WIDTH - 1 - c,
            0,
            0,
            1,
            vstrip_len(g, BOARD_WIDTH - 1 - c, true),
        ),
    )) by {
        assert(m[c] == g[BOARD_WIDTH - 1 - c]);
        if vstrip_included(m, c, true) {
            let sm = crate::board_iters::strip_seq(m, c, 0, 0, 1, vstrip_len(m, c, true));
            let sg = crate::board_iters::strip_seq(
                g,
                BOARD_WIDTH - 1 - c,
                0,
                0,
                1,
                vstrip_len(g, BOARD_WIDTH - 1 - c, true),
            );
            assert forall|t: int| 0 <= t < sm.len() implies sm[t] == #[trigger] sg[t] by {
                assert(sm[t] == crate::board::cell_at(m, c + t * 0, 0 + t * 1));
                assert(crate::board::cell_at(m, c, t) == crate::board::cell_at(
                    g,
                    BOARD_WIDTH - 1 - c,
                    t,
                ));
            }
            assert(sm =~= sg);
        }
    }
    assert(vcols_score(m, 7, true) == vcols_score(m, 6, true) + (if vstrip_included(m, 6, true) {
        strip_score(crate::board_iters::strip_seq(m, 6, 0, 0, 1, vstrip_len(m, 6, true)))
    } else {
        0int
    }));
    assert(vcols_score(m, 6, true) == vcols_score(m, 5, true) + (if vstrip_included(m, 5, true) {
        strip_score(crate::board_iters::strip_seq(m, 5, 0, 0, 1, vstrip_len(m, 5, true)))
    } else {
        0int
    }));
    assert(vcols_score(m, 5, true) == vcols_score(m, 4, true) + (if vstrip_included(m, 4, true) {
        strip_score(crate::board_iters::strip_seq(m, 4, 0, 0, 1, vstrip_len(m, 4, true)))
    } else {
        0int
    }));
    assert(vcols_score(m, 4, true) == vcols_score(m, 3, true) + (if vstrip_included(m, 3, true) {
        strip_score(crate::board_iters::strip_seq(m, 3, 0, 0, 1, vstrip_len(m, 3, true)))
    } else {
        0int
    }));
    assert(vcols_score(m, 3, true) == vcols_score(m, 2, true) + (if vstrip_included(m, 2, true) {
        strip_score(crate::board_iters::strip_seq(m, 2, 0, 0, 1, vstrip_len(m, 2, true)))
    } else {
        0int
    }));
    assert(vcols_score(m, 2, true) == vcols_score(m, 1, true) + (if vstrip_included(m, 1, true) {
        strip_score(crate::board_iters::strip_seq(m, 1, 0, 0, 1, vstrip_len(m, 1, true)))
    } else {
        0int
    }));
    assert(vcols_score(m, 1, true) == vcols_score(m, 0, true) + (if vstrip_included(m, 0, true) {
        strip_score(crate::board_iters::strip_seq(m, 0, 0, 0, 1, vstrip_len(m, 0, true)))
    } else {
        0int
    }));
    assert(vcols_score(g, 7, true) == vcols_score(g, 6, true) + (if vstrip_included(g, 6, true) {
        strip_score(crate::board_iters::strip_seq(g, 6, 0, 0, 1, vstrip_len(g, 6, true)))
    } else {
        0int
    }));
    assert(vcols_score(g, 6, true) == vcols_score(g, 5, true) + (if vstrip_included(g, 5, true) {
        strip_score(crate::board_iters::strip_seq(g, 5, 0, 0, 1, vstrip_len(g, 5, true)))
    } else {
        0int
    }));
    assert(vcols_score(g, 5, true) == vcols_score(g, 4, true) + (if vstrip_included(g, 4, true) {
        strip_score(crate::board_iters::strip_seq(g, 4, 0, 0, 1, vstrip_len(g, 4, true)))
    } else {
        0int
    }));
    assert(vcols_score(g, 4, true) == vcols_score(g, 3, true) + (if vstrip_included(g, 3, true) {
        strip_score(crate::board_iters::strip_seq(g, 3, 0, 0, 1, vstrip_len(g, 3, true)))
    } else {
        0int
    }));
    assert(vcols_score(g, 3, true) == vcols_score(g, 2, true) + (if vstrip_included(g, 2, true) {
        strip_score(crate::board_iters::strip_seq(g, 2, 0, 0, 1, vstrip_len(g, 2, true)))
    } else {
        0int
    }));
    assert(vcols_score(g, 2, true) == vcols_score(g, 1, true) + (if vstrip_included(g, 1, true) {
        strip_score(crate::board_iters::strip_seq(g, 1, 0, 0, 1, vstrip_len(g, 1, true)))
    } else {
        0int
    }));
    assert(vcols_score(g, 1, true) == vcols_score(g, 0, true) + (if vstrip_included(g, 0, true) {
        strip_score(crate::board_iters::strip_seq(g, 0, 0, 0, 1, vstrip_len(g, 0, true)))
    } else {
        0int
    }));
}

/// The mirrored grid's upward diagonals are the original's downward ones,
/// index for index, and vice versa.
proof fn lemma_mirror_diagonals(g: Grid)
    requires
        grid_wf(g),
    ensures
        upward_strips(crate::board::mirrored(g), true) == downward_strips(g, true),
        downward_strips(crate::board::mirrored(g), true) == upward_strips(g, true),
{
    let m = crate::board::mirrored(g);
    lemma_max_height_mirror(g);
    let me = eff_height(g, true);
    let sr = crate::board_iters::diag_start_row(me);
    assert forall|k: int| 0 <= k < sr + 4 implies #[trigger] upward_strips(m, true)[k]
        == downward_strips(g, true)[k] by {
        let su = upward_strips(m, true)[k];
        let sd = downward_strips(g, true)[k];
        assert forall|t: int| 0 <= t < su.len() implies su[t] == #[trigger] sd[t] by {
            let c0 = if k <= sr {
                0int
            } else {
                k - sr
            };
            let r0 = if k <= sr {
                sr - k
            } else {
                0int
            };
            let cd = if k <= sr {
                BOARD_WIDTH as int
            } else {
                BOARD_WIDTH - (k - sr)
            };
            assert(su[t] == crate::board::cell_at(m, c0 + t * 1, r0 + t * 1));
            assert(sd[t] == crate::board::cell_at(g, (cd - 1) + t * -1, r0 + t * 1));
            assert(crate::board::cell_at(m, c0 + t, r0 + t) == crate::board::cell_at(
                g,
                BOARD_WIDTH - 1 - (c0 + t),
                r0 + t,
            ));
        }
        assert(su =~= sd);
    }
    assert(upward_strips(m, true) =~= downward_strips(g, true));
    assert forall|k: int| 0 <= k < sr + 4 implies #[trigger] downward_strips(m, true)[k]
        == upward_strips(g, true)[k] by {
        let su = upward_strips(g, true)[k];
        let sd = downward_strips(m, true)[k];
        assert forall|t: int| 0 <= t < sd.len() implies sd[t] == #[trigger] su[t] by {
            let c0 = if k <= sr {
                0int
            } else {
                k - sr
            };
            let r0 = if k <= sr {
                sr - k
            } else {
                0int
            };
            let cd = if k <= sr {
                BOARD_WIDTH as int
            } else {
                BOARD_WIDTH - (k - sr)
            };
            assert(sd[t] == crate::board::cell_at(m, (cd - 1) + t * -1, r0 + t * 1));
            assert(su[t] == crate::board::cell_at(g, c0 + t * 1, r0 + t * 1));
            assert(crate::board::cell_at(m, cd - 1 - t, r0 + t) == crate::board::cell_at(
                g,
                BOARD_WIDTH - 1 - (cd - 1 - t),
                r0 + t,
            ));
        }
        assert(sd =~= su);
    }
    assert(downward_strips(m, true) =~= upward_strips(g, true));
}

/// Mirroring a board leaves its heuristic score unchanged: the two players'
/// runs trade places column for column but keep their counts.
pub proof fn lemma_mirror_heuristic(g: Grid)
    requires
        grid_wf(g),
    ensures
        heuristic(crate::board::mirrored(g)) == heuristic(g),
{
    lemma_mirror_horizontal_score(g);
    lemma_mirror_vertical_score(g);
    lemma_mirror_diagonals(g);
}

} // verus!

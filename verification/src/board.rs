//! The bit-packed connect-four board: per column a piece count and a bitmap
//! of piece colors, together with the mathematical grid model used by every
//! contract in the crate.
use vstd::prelude::*;

verus! {

/// The number of pieces in a row required to win.
pub const NUMBER_TO_WIN: u8 = 4;

/// The height of the board.
pub const BOARD_HEIGHT: u8 = 6;

/// The width of the board.
pub const BOARD_WIDTH: u8 = 7;

/// An error state when accessing a nonexistent piece.
#[derive(Debug, PartialEq, Eq, Structural, Clone, Copy)]
pub struct OutOfBounds;

/// An error state when dropping a piece in a full column.
#[derive(Debug, PartialEq, Eq, Structural, Clone, Copy)]
pub struct FullColumn;

/// The mathematical model of a board: one sequence per column, listing the
/// piece colors from the bottom up. `true` is the second player's color.
pub type Grid = Seq<Seq<bool>>;

/// A grid is well formed when it has exactly `BOARD_WIDTH` columns, none
/// holding more than `BOARD_HEIGHT` pieces.
pub open spec fn grid_wf(g: Grid) -> bool {
    &&& g.len() == BOARD_WIDTH
    &&& forall|c: int| 0 <= c < BOARD_WIDTH ==> #[trigger] g[c].len() <= BOARD_HEIGHT
}

/// The grid obtained by reversing the column order.
pub open spec fn mirrored(g: Grid) -> Grid {
    Seq::new(g.len(), |c: int| g[g.len() - 1 - c])
}

/// The piece at a cell, `Err(OutOfBounds)` when the cell is empty or outside
/// the board.
pub open spec fn cell_at(g: Grid, c: int, r: int) -> Result<bool, OutOfBounds> {
    if 0 <= c < g.len() && 0 <= r < g[c].len() {
        Ok(g[c][r])
    } else {
        Err(OutOfBounds)
    }
}

/// The height of the tallest column among the first `n` columns.
pub open spec fn max_height_upto(g: Grid, n: int) -> int
    decreases n,
{
    if n <= 0 {
        0
    } else if g[n - 1].len() > max_height_upto(g, n - 1) {
        g[n - 1].len() as int
    } else {
        max_height_upto(g, n - 1)
    }
}

/// The height of the tallest column.
pub open spec fn max_height(g: Grid) -> int {
    max_height_upto(g, g.len() as int)
}

/// Every column is bounded by the maximum height.
pub proof fn lemma_max_height_bounds(g: Grid)
    ensures
        forall|c: int| 0 <= c < g.len() ==> #[trigger] g[c].len() <= max_height(g),
        grid_wf(g) ==> 0 <= max_height(g) <= BOARD_HEIGHT,
{
    assert forall|c: int| 0 <= c < g.len() implies #[trigger] g[c].len() <= max_height(g) by {
        lemma_max_height_upto_bounds(g, c, g.len() as int);
    }
    if grid_wf(g) {
        lemma_max_height_upto_wf(g, g.len() as int);
    }
}

proof fn lemma_max_height_upto_bounds(g: Grid, c: int, n: int)
    requires
        0 <= c < n,
    ensures
        g[c].len() <= max_height_upto(g, n),
        max_height_upto(g, n) >= 0,
    decreases n,
{
    if c < n - 1 {
        lemma_max_height_upto_bounds(g, c, n - 1);
    }
}

proof fn lemma_max_height_upto_wf(g: Grid, n: int)
    requires
        grid_wf(g),
        n <= g.len(),
    ensures
        0 <= max_height_upto(g, n) <= BOARD_HEIGHT,
    decreases n,
{
    if n > 0 {
        lemma_max_height_upto_wf(g, n - 1);
    }
}

/// Whether bit `r` of a column bitmap is set.
pub open spec fn nth_bit(bm: u8, r: int) -> bool {
    (bm >> (r as u8)) & 1u8 == 1u8
}

/// The column model read off a bitmap and a height: bit `r` gives the color
/// of the piece at row `r`, for rows below the height.
pub open spec fn col_seq(bm: u8, h: u8) -> Seq<bool> {
    Seq::new(h as nat, |r: int| nth_bit(bm, r))
}

/// The number of pieces among the first `n` columns.
pub open spec fn count_upto(g: Grid, n: int) -> int
    decreases n,
{
    if n <= 0 {
        0
    } else {
        count_upto(g, n - 1) + g[n - 1].len()
    }
}

/// The total number of pieces on a grid.
pub open spec fn piece_count(g: Grid) -> int {
    count_upto(g, g.len() as int)
}

/// The code of one column: the binary number written `1` followed by the
/// column's piece colors from the top down. It determines the column exactly.
pub open spec fn col_code(s: Seq<bool>) -> int
    decreases s.len(),
{
    if s.len() == 0 {
        1
    } else {
        2 * col_code(s.drop_last()) + (if s.last() {
            1int
        } else {
            0int
        })
    }
}

/// The key of the columns from `c` rightwards, written base 128 with column
/// `c` as the least significant digit.
pub open spec fn key_from(g: Grid, c: int) -> int
    decreases BOARD_WIDTH as int - c,
{
    if c < 0 || c >= BOARD_WIDTH {
        0
    } else {
        key_from(g, c + 1) * 128 + col_code(g[c])
    }
}

/// The canonical 64-bit key of a grid. Unlike a hash, it is injective on
/// well-formed grids, so key equality is grid equality.
pub open spec fn board_key(g: Grid) -> int {
    key_from(g, 0)
}

/// 128 raised to the `n`th power.
pub open spec fn pow128(n: int) -> int
    decreases n,
{
    if n <= 0 {
        1
    } else {
        128 * pow128(n - 1)
    }
}

spec fn pow2k(n: int) -> int
    decreases n,
{
    if n <= 0 {
        1
    } else {
        2 * pow2k(n - 1)
    }
}

proof fn lemma_pow2k_pos(n: int)
    ensures
        pow2k(n) >= 1,
    decreases n,
{
    if n > 0 {
        lemma_pow2k_pos(n - 1);
    }
}

proof fn lemma_col_code_bound_k(s: Seq<bool>, k: int)
    requires
        s.len() <= k,
    ensures
        1 <= col_code(s) < 2 * pow2k(k),
    decreases k,
{
    if s.len() == 0 {
        lemma_pow2k_pos(k);
    } else {
        lemma_col_code_bound_k(s.drop_last(), k - 1);
    }
}

/// Column codes of short columns fit in one base-128 digit.
pub proof fn lemma_col_code_bounds(s: Seq<bool>)
    requires
        s.len() <= BOARD_HEIGHT,
    ensures
        1 <= col_code(s) < 128,
{
    lemma_col_code_bound_k(s, BOARD_HEIGHT as int);
    assert(pow2k(0) == 1);
    assert(pow2k(1) == 2);
    assert(pow2k(2) == 4);
    assert(pow2k(3) == 8);
    assert(pow2k(4) == 16);
    assert(pow2k(5) == 32);
    assert(pow2k(6) == 64);
}

/// Two short columns with the same code are the same column.
pub proof fn lemma_col_code_injective(s1: Seq<bool>, s2: Seq<bool>)
    requires
        s1.len() <= BOARD_HEIGHT,
        s2.len() <= BOARD_HEIGHT,
        col_code(s1) == col_code(s2),
    ensures
        s1 == s2,
    decreases s1.len(),
{
    lemma_col_code_bounds(s1);
    lemma_col_code_bounds(s2);
    if s1.len() == 0 && s2.len() == 0 {
        assert(s1 =~= s2);
    } else if s1.len() == 0 {
        lemma_col_code_bounds(s2.drop_last());
        assert(false);
    } else if s2.len() == 0 {
        lemma_col_code_bounds(s1.drop_last());
        assert(false);
    } else {
        assert(s1.last() == s2.last());
        lemma_col_code_injective(s1.drop_last(), s2.drop_last());
        assert(s1 =~= s1.drop_last().push(s1.last()));
        assert(s2 =~= s2.drop_last().push(s2.last()));
    }
}

/// Keys of well-formed grids fit below `pow128(7 - c)`.
pub proof fn lemma_key_from_bounds(g: Grid, c: int)
    requires
        grid_wf(g),
        0 <= c,
    ensures
        0 <= key_from(g, c) < pow128(BOARD_WIDTH as int - c),
    decreases BOARD_WIDTH as int - c,
{
    if c < BOARD_WIDTH {
        lemma_key_from_bounds(g, c + 1);
        lemma_col_code_bounds(g[c]);
        let k = key_from(g, c + 1);
        let p = pow128(BOARD_WIDTH as int - c - 1);
        assert(k <= p - 1);
        assert(k * 128 <= (p - 1) * 128) by (nonlinear_arith)
            requires
                k <= p - 1,
        ;
    }
}

proof fn lemma_key_from_injective(g1: Grid, g2: Grid, c: int)
    requires
        grid_wf(g1),
        grid_wf(g2),
        0 <= c <= BOARD_WIDTH,
        key_from(g1, c) == key_from(g2, c),
    ensures
        forall|i: int| c <= i < BOARD_WIDTH ==> g1[i] == g2[i],
    decreases BOARD_WIDTH as int - c,
{
    if c < BOARD_WIDTH {
        lemma_col_code_bounds(g1[c]);
        lemma_col_code_bounds(g2[c]);
        let k1 = key_from(g1, c + 1);
        let k2 = key_from(g2, c + 1);
        let d1 = col_code(g1[c]);
        let d2 = col_code(g2[c]);
        assert(k1 * 128 + d1 == k2 * 128 + d2);
        assert((k1 - k2) * 128 == d2 - d1) by (nonlinear_arith)
            requires
                k1 * 128 + d1 == k2 * 128 + d2,
        ;
        assert(k1 == k2 && d1 == d2) by (nonlinear_arith)
            requires
                (k1 - k2) * 128 == d2 - d1,
                1 <= d1 < 128,
                1 <= d2 < 128,
        ;
        lemma_col_code_injective(g1[c], g2[c]);
        lemma_key_from_injective(g1, g2, c + 1);
    }
}

proof fn lemma_pow128_fits(n: int)
    requires
        n <= BOARD_WIDTH,
    ensures
        pow128(n) <= 0x2_0000_0000_0000,
    decreases n,
{
    if n > 0 {
        lemma_pow128_seven();
        lemma_pow128_mono(n, BOARD_WIDTH as int);
    }
}

proof fn lemma_pow128_seven()
    ensures
        pow128(7) == 0x2_0000_0000_0000,
{
    assert(pow128(0) == 1);
    assert(pow128(1) == 128);
    assert(pow128(2) == 16384);
    assert(pow128(3) == 0x200000);
    assert(pow128(4) == 0x10000000);
    assert(pow128(5) == 0x800000000);
    assert(pow128(6) == 0x40000000000);
    assert(pow128(7) == 0x2_0000_0000_0000);
}

proof fn lemma_pow128_pos(n: int)
    ensures
        pow128(n) >= 1,
    decreases n,
{
    if n > 0 {
        lemma_pow128_pos(n - 1);
        assert(128 * pow128(n - 1) >= 1) by (nonlinear_arith)
            requires
                pow128(n - 1) >= 1,
        ;
    }
}

proof fn lemma_pow128_mono(a: int, b: int)
    requires
        a <= b,
    ensures
        pow128(a) <= pow128(b),
    decreases b - a,
{
    if a < b {
        lemma_pow128_mono(a, b - 1);
        lemma_pow128_pos(b - 1);
        assert(128 * pow128(b - 1) >= pow128(b - 1)) by (nonlinear_arith)
            requires
                pow128(b - 1) >= 1,
        ;
    }
}

/// The canonical key fits a 64-bit integer.
pub proof fn lemma_pow128_le_u64()
    ensures
        pow128(BOARD_WIDTH as int) < 0x1_0000_0000_0000_0000,
{
    lemma_pow128_seven();
}

/// Key equality is grid equality: the canonical key is injective on
/// well-formed grids.
pub proof fn lemma_board_key_injective(g1: Grid, g2: Grid)
    requires
        grid_wf(g1),
        grid_wf(g2),
        board_key(g1) == board_key(g2),
    ensures
        g1 == g2,
{
    lemma_key_from_injective(g1, g2, 0);
    assert(g1 =~= g2);
}

/// Mirroring twice gives the original grid back.
pub proof fn lemma_mirror_involution(g: Grid)
    requires
        g.len() == BOARD_WIDTH,
    ensures
        mirrored(mirrored(g)) == g,
{
    assert(mirrored(mirrored(g)) =~= g);
}


/// A well-formed grid holds at most one board's worth of pieces.
pub proof fn lemma_piece_count_bounds(g: Grid)
    requires
        grid_wf(g),
    ensures
        0 <= piece_count(g) <= 42,
{
    lemma_count_upto_bounds(g, BOARD_WIDTH as int);
}

proof fn lemma_count_upto_bounds(g: Grid, n: int)
    requires
        grid_wf(g),
        0 <= n <= BOARD_WIDTH,
    ensures
        0 <= count_upto(g, n) <= 6 * n,
    decreases n,
{
    if n > 0 {
        lemma_count_upto_bounds(g, n - 1);
    }
}

/// Dropping one piece raises the piece count by one.
pub proof fn lemma_drop_piece_count(g: Grid, c: int, color: bool)
    requires
        g.len() == BOARD_WIDTH,
        0 <= c < BOARD_WIDTH,
    ensures
        piece_count(g.update(c, g[c].push(color))) == piece_count(g) + 1,
{
    lemma_count_upto_update(g, g.update(c, g[c].push(color)), c, BOARD_WIDTH as int);
}

proof fn lemma_count_upto_update(g: Grid, g2: Grid, c: int, n: int)
    requires
        g.len() == g2.len(),
        0 <= c < g.len(),
        n <= g.len(),
        g2[c].len() == g[c].len() + 1,
        forall|x: int| 0 <= x < g.len() && x != c ==> #[trigger] g2[x] == g[x],
    ensures
        count_upto(g2, n) == count_upto(g, n) + (if c < n {
            1int
        } else {
            0int
        }),
    decreases n,
{
    if n > 0 {
        lemma_count_upto_update(g, g2, c, n - 1);
        if n - 1 != c {
            assert(g2[n - 1] == g[n - 1]);
        }
    }
}

/// Mirroring a grid leaves its piece count unchanged.
pub proof fn lemma_mirror_piece_count(g: Grid)
    requires
        g.len() == BOARD_WIDTH,
    ensures
        piece_count(mirrored(g)) == piece_count(g),
{
    let m = mirrored(g);
    assert(count_upto(g, 7) == count_upto(g, 6) + g[6].len());
    assert(count_upto(g, 6) == count_upto(g, 5) + g[5].len());
    assert(count_upto(g, 5) == count_upto(g, 4) + g[4].len());
    assert(count_upto(g, 4) == count_upto(g, 3) + g[3].len());
    assert(count_upto(g, 3) == count_upto(g, 2) + g[2].len());
    assert(count_upto(g, 2) == count_upto(g, 1) + g[1].len());
    assert(count_upto(g, 1) == count_upto(g, 0) + g[0].len());
    assert(count_upto(m, 7) == count_upto(m, 6) + m[6].len());
    assert(count_upto(m, 6) == count_upto(m, 5) + m[5].len());
    assert(count_upto(m, 5) == count_upto(m, 4) + m[4].len());
    assert(count_upto(m, 4) == count_upto(m, 3) + m[3].len());
    assert(count_upto(m, 3) == count_upto(m, 2) + m[2].len());
    assert(count_upto(m, 2) == count_upto(m, 1) + m[1].len());
    assert(count_upto(m, 1) == count_upto(m, 0) + m[0].len());
    assert(forall|c: int| 0 <= c < 7 ==> #[trigger] m[c].len() == g[6 - c].len());
}

/// Dropping in the mirrored column of the mirrored grid mirrors the result
/// of dropping in the original.
pub proof fn lemma_mirror_drop(g: Grid, c: int, color: bool)
    requires
        g.len() == BOARD_WIDTH,
        0 <= c < BOARD_WIDTH,
    ensures
        mirrored(g.update(c, g[c].push(color))) == mirrored(g).update(
            BOARD_WIDTH - 1 - c,
            mirrored(g)[BOARD_WIDTH - 1 - c].push(color),
        ),
{
    assert(mirrored(g.update(c, g[c].push(color))) =~= mirrored(g).update(
        BOARD_WIDTH - 1 - c,
        mirrored(g)[BOARD_WIDTH - 1 - c].push(color),
    ));
}

/// A connect four board.
#[derive(Debug, PartialEq, Eq)]
pub struct Board {
    column_heights: Vec<u8>,
    column_bitmaps: Vec<u8>,
}

impl Board {
    /// The representation invariant: seven columns, heights bounded by the
    /// board height, and no stray bits above a column's height.
    pub closed spec fn wf(self) -> bool {
        &&& self.column_heights@.len() == BOARD_WIDTH
        &&& self.column_bitmaps@.len() == BOARD_WIDTH
        &&& forall|c: int|
            0 <= c < BOARD_WIDTH ==> #[trigger] self.column_heights@[c] <= BOARD_HEIGHT
        &&& forall|c: int|
            0 <= c < BOARD_WIDTH ==> #[trigger] (self.column_bitmaps@[c]
                >> self.column_heights@[c]) == 0u8
    }

    /// The board's mathematical model.
    pub closed spec fn grid(self) -> Grid {
        Seq::new(
            BOARD_WIDTH as nat,
            |c: int| col_seq(self.column_bitmaps@[c], self.column_heights@[c]),
        )
    }

    pub proof fn lemma_wf_grid(self)
        requires
            self.wf(),
        ensures
            grid_wf(self.grid()),
    {
    }

    /// Gets a boolean representation of a piece given a column and row.
    ///
    /// Fails if the row requested is out of bounds.
    pub fn get_piece(&self, col: u8, row: u8) -> (r: Result<bool, OutOfBounds>)
        requires
            self.wf(),
            col < BOARD_WIDTH,
        ensures
            r == cell_at(self.grid(), col as int, row as int),
    {
        if row < self.column_heights[col as usize] {
            let bm = self.column_bitmaps[col as usize];
            let piece = (bm & (1u8 << row)) != 0;
            proof {
                assert(((bm & (1u8 << row)) != 0) == ((bm >> row) & 1u8 == 1u8)) by (bit_vector)
                    requires
                        row < 8u8,
                ;
            }
            Ok(piece)
        } else {
            Err(OutOfBounds)
        }
    }

    /// Drops a new piece on top of the given column corresponding to the boolean.
    ///
    /// Fails if the column is already full.
    pub fn drop_piece(&mut self, col: u8, color: bool) -> (r: Result<(), FullColumn>)
        requires
            old(self).wf(),
            col < BOARD_WIDTH,
        ensures
            final(self).wf(),
            old(self).grid()[col as int].len() < BOARD_HEIGHT ==> {
                &&& r == Ok::<(), FullColumn>(())
                &&& final(self).grid() == old(self).grid().update(
                    col as int,
                    old(self).grid()[col as int].push(color),
                )
            },
            old(self).grid()[col as int].len() == BOARD_HEIGHT ==> {
                &&& r == Err::<(), FullColumn>(FullColumn)
                &&& *final(self) == *old(self)
            },
    {
        let col_height = self.column_heights[col as usize];
        if col_height < BOARD_HEIGHT {
            let bm = self.column_bitmaps[col as usize];
            let bit: u8 = if color {
                1u8
            } else {
                0u8
            };
            proof {
                assert(bm + (bit << col_height) < 128 && bm + (bit << col_height) == (bm | (bit
                    << col_height))) by (bit_vector)
                    requires
                        bm >> col_height == 0u8,
                        col_height < 6u8,
                        bit == 0u8 || bit == 1u8,
                ;
            }
            let new_bm = bm | (bit << col_height);
            let new_height = col_height + 1;
            self.column_bitmaps.set(col as usize, new_bm);
            self.column_heights.set(col as usize, new_height);
            proof {
                assert(new_bm >> new_height == 0u8) by (bit_vector)
                    requires
                        new_bm == (bm | (bit << col_height)),
                        new_height == col_height + 1,
                        bm >> col_height == 0u8,
                        col_height < 6u8,
                        bit == 0u8 || bit == 1u8,
                ;
                assert(forall|r: u8|
                    r < col_height ==> ((new_bm >> r) & 1u8) == ((bm >> r) & 1u8)) by (bit_vector)
                    requires
                        new_bm == (bm | (bit << col_height)),
                        col_height < 6u8,
                        bit == 0u8 || bit == 1u8,
                ;
                assert(((new_bm >> col_height) & 1u8) == bit) by (bit_vector)
                    requires
                        new_bm == (bm | (bit << col_height)),
                        bm >> col_height == 0u8,
                        col_height < 6u8,
                        bit == 0u8 || bit == 1u8,
                ;
                assert(col_seq(new_bm, new_height) =~= col_seq(bm, col_height).push(color));
                assert(final(self).grid() =~= old(self).grid().update(
                    col as int,
                    old(self).grid()[col as int].push(color),
                ));
            }
            Ok(())
        } else {
            proof {
                assert(old(self).grid()[col as int].len() == BOARD_HEIGHT);
            }
            Err(FullColumn)
        }
    }

    /// Returns the height of the pieces in the given column.
    pub fn get_height(&self, col: u8) -> (r: u8)
        requires
            self.wf(),
            col < BOARD_WIDTH,
        ensures
            r == self.grid()[col as int].len(),
    {
        self.column_heights[col as usize]
    }

    /// Returns the height of the highest column.
    pub fn get_max_height(&self) -> (r: u8)
        requires
            self.wf(),
        ensures
            r == max_height(self.grid()),
    {
        let mut m: u8 = 0;
        let mut c: usize = 0;
        while c < BOARD_WIDTH as usize
            invariant
                self.wf(),
                0 <= c <= BOARD_WIDTH,
                m == max_height_upto(self.grid(), c as int),
            decreases BOARD_WIDTH as int - c,
        {
            let h = self.column_heights[c];
            if h > m {
                m = h;
            }
            c = c + 1;
        }
        m
    }

    /// Returns if the board is full.
    pub fn is_full(&self) -> (r: bool)
        requires
            self.wf(),
        ensures
            r == forall|c: int|
                0 <= c < BOARD_WIDTH ==> #[trigger] self.grid()[c].len() == BOARD_HEIGHT,
    {
        let mut c: usize = 0;
        while c < BOARD_WIDTH as usize
            invariant
                self.wf(),
                0 <= c <= BOARD_WIDTH,
                forall|i: int| 0 <= i < c ==> #[trigger] self.grid()[i].len() == BOARD_HEIGHT,
            decreases BOARD_WIDTH as int - c,
        {
            if self.column_heights[c] != BOARD_HEIGHT {
                proof {
                    assert(self.grid()[c as int].len() != BOARD_HEIGHT);
                }
                return false;
            }
            c = c + 1;
        }
        true
    }

    /// The code of one column, used to build the canonical board key.
    fn column_code(&self, col: u8) -> (r: u8)
        requires
            self.wf(),
            col < BOARD_WIDTH,
        ensures
            r == col_code(self.grid()[col as int]),
    {
        let h = self.column_heights[col as usize];
        let bm = self.column_bitmaps[col as usize];
        let ghost s = self.grid()[col as int];
        let mut code: u8 = 1;
        let mut r: u8 = 0;
        while r < h
            invariant
                self.wf(),
                col < BOARD_WIDTH,
                h == s.len(),
                h <= BOARD_HEIGHT,
                bm == self.column_bitmaps@[col as int],
                s == self.grid()[col as int],
                0 <= r <= h,
                code == col_code(s.subrange(0, r as int)),
            decreases h as int - r as int,
        {
            let b = (bm >> r) & 1;
            proof {
                assert((bm >> r) & 1u8 < 2u8) by (bit_vector);
                lemma_col_code_bound_k(s.subrange(0, r as int), 5);
                assert(pow2k(5) == 32) by {
                    assert(pow2k(0) == 1);
                    assert(pow2k(1) == 2);
                    assert(pow2k(2) == 4);
                    assert(pow2k(3) == 8);
                    assert(pow2k(4) == 16);
                }
                assert(s.subrange(0, r as int + 1).drop_last() =~= s.subrange(0, r as int));
                assert(s.subrange(0, r as int + 1).last() == nth_bit(bm, r as int));
            }
            code = 2 * code + b;
            r = r + 1;
        }
        proof {
            assert(s.subrange(0, h as int) =~= s);
        }
        code
    }

    /// The canonical 64-bit key of this board; injective on well-formed
    /// boards, so it can stand in for the board in the transposition table.
    pub fn canonical_code(&self) -> (r: u64)
        requires
            self.wf(),
        ensures
            r == board_key(self.grid()),
    {
        let ghost g = self.grid();
        let mut key: u64 = 0;
        let mut i: u8 = 0;
        while i < BOARD_WIDTH
            invariant
                self.wf(),
                g == self.grid(),
                0 <= i <= BOARD_WIDTH,
                key == key_from(g, BOARD_WIDTH as int - i as int),
                0 <= key < pow128(i as int),
            decreases BOARD_WIDTH as int - i as int,
        {
            let c = BOARD_WIDTH - 1 - i;
            let code = self.column_code(c);
            proof {
                lemma_col_code_bounds(g[c as int]);
                assert(key * 128 + code < pow128(i as int + 1)) by (nonlinear_arith)
                    requires
                        key < pow128(i as int),
                        code < 128,
                        pow128(i as int + 1) == 128 * pow128(i as int),
                ;
                lemma_pow128_fits(i as int + 1);
            }
            key = key * 128 + code as u64;
            i = i + 1;
        }
        key
    }

    /// The canonical key of this board's mirror image, computed without
    /// building the mirrored board.
    pub fn mirrored_code(&self) -> (r: u64)
        requires
            self.wf(),
        ensures
            r == board_key(mirrored(self.grid())),
    {
        let ghost g = mirrored(self.grid());
        let mut key: u64 = 0;
        let mut i: u8 = 0;
        while i < BOARD_WIDTH
            invariant
                self.wf(),
                g == mirrored(self.grid()),
                grid_wf(g),
                0 <= i <= BOARD_WIDTH,
                key == key_from(g, BOARD_WIDTH as int - i as int),
                0 <= key < pow128(i as int),
            decreases BOARD_WIDTH as int - i as int,
        {
            let code = self.column_code(i);
            proof {
                assert(g[BOARD_WIDTH - 1 - i as int] == self.grid()[i as int]);
                lemma_col_code_bounds(g[BOARD_WIDTH - 1 - i as int]);
                assert(key * 128 + code < pow128(i as int + 1)) by (nonlinear_arith)
                    requires
                        key < pow128(i as int),
                        code < 128,
                        pow128(i as int + 1) == 128 * pow128(i as int),
                ;
                lemma_pow128_fits(i as int + 1);
            }
            key = key * 128 + code as u64;
            i = i + 1;
        }
        key
    }

    /// Flips this Board horizontally.
    pub fn flip(&mut self)
        requires
            old(self).wf(),
        ensures
            final(self).wf(),
            final(self).grid() == mirrored(old(self).grid()),
    {
        let mut new_heights: Vec<u8> = Vec::new();
        let mut new_bitmaps: Vec<u8> = Vec::new();
        let mut c: usize = 0;
        while c < BOARD_WIDTH as usize
            invariant
                old(self).wf(),
                self == old(self),
                0 <= c <= BOARD_WIDTH,
                new_heights@.len() == c,
                new_bitmaps@.len() == c,
                forall|i: int|
                    0 <= i < c ==> #[trigger] new_heights@[i] == self.column_heights@[
                        BOARD_WIDTH - 1 - i],
                forall|i: int|
                    0 <= i < c ==> #[trigger] new_bitmaps@[i] == self.column_bitmaps@[
                        BOARD_WIDTH - 1 - i],
            decreases BOARD_WIDTH as int - c,
        {
            new_heights.push(self.column_heights[BOARD_WIDTH as usize - 1 - c]);
            new_bitmaps.push(self.column_bitmaps[BOARD_WIDTH as usize - 1 - c]);
            c = c + 1;
        }
        self.column_heights = new_heights;
        self.column_bitmaps = new_bitmaps;
        proof {
            assert(final(self).grid() =~= mirrored(old(self).grid()));
        }
    }
}

/// The pieces of column `c` after dropping, from the bottom row up, the
/// nonzero entries of the lowest `k` rows of a row-major position (row 0 at
/// the top). Value 1 is the first player (`false`), 2 the second (`true`).
pub open spec fn col_from_rows(pos: Seq<Seq<u8>>, c: int, k: int) -> Seq<bool>
    decreases k,
{
    if k <= 0 {
        Seq::empty()
    } else {
        let prev = col_from_rows(pos, c, k - 1);
        let v = pos[BOARD_HEIGHT - k][c];
        if v == 0 {
            prev
        } else {
            prev.push(v == 2)
        }
    }
}

/// The row-major view of a vector of row vectors.
pub open spec fn rows_view(v: Seq<Vec<u8>>) -> Seq<Seq<u8>> {
    Seq::new(v.len(), |i: int| v[i]@)
}

/// The grid described by a row-major position array.
pub open spec fn grid_from_rows(pos: Seq<Seq<u8>>) -> Grid {
    Seq::new(BOARD_WIDTH as nat, |c: int| col_from_rows(pos, c, BOARD_HEIGHT as int))
}

proof fn lemma_col_from_rows_len(pos: Seq<Seq<u8>>, c: int, k: int)
    ensures
        col_from_rows(pos, c, k).len() <= (if k >= 0 {
            k
        } else {
            0
        }),
    decreases k,
{
    if k > 0 {
        lemma_col_from_rows_len(pos, c, k - 1);
    }
}

/// The value a position array holds at a cell: 0 empty, 1 first player,
/// 2 second player, with array row 0 at the top of the board.
pub open spec fn cell_code(g: Grid, c: int, r: int) -> u8 {
    match cell_at(g, c, r) {
        Ok(true) => 2u8,
        Ok(false) => 1u8,
        Err(_) => 0u8,
    }
}

impl Board {
    /// Used to initialize a board based on a 2d position, row 0 on top.
    ///
    /// If the position contains floating pieces, they settle downwards.
    pub fn from_arrays(arrays: &Vec<Vec<u8>>) -> (r: Board)
        requires
            arrays@.len() == BOARD_HEIGHT,
            forall|i: int|
                0 <= i < BOARD_HEIGHT ==> #[trigger] rows_view(arrays@)[i].len() == BOARD_WIDTH,
            forall|i: int, j: int|
                0 <= i < BOARD_HEIGHT && 0 <= j < BOARD_WIDTH ==> #[trigger] rows_view(
                    arrays@,
                )[i][j] <= 2,
        ensures
            r.wf(),
            r.grid() == grid_from_rows(rows_view(arrays@)),
    {
        let ghost pos = rows_view(arrays@);
        let mut board = Board::default();
        proof {
            assert(forall|c: int|
                0 <= c < BOARD_WIDTH ==> #[trigger] board.grid()[c] =~= col_from_rows(pos, c, 0));
        }
        let mut k: usize = 0;
        while k < BOARD_HEIGHT as usize
            invariant
                pos == rows_view(arrays@),
                pos.len() == BOARD_HEIGHT,
                forall|i: int| 0 <= i < BOARD_HEIGHT ==> #[trigger] pos[i].len() == BOARD_WIDTH,
                forall|i: int, j: int|
                    0 <= i < BOARD_HEIGHT && 0 <= j < BOARD_WIDTH ==> #[trigger] pos[i][j] <= 2,
                0 <= k <= BOARD_HEIGHT,
                board.wf(),
                forall|c: int|
                    0 <= c < BOARD_WIDTH ==> #[trigger] board.grid()[c] == col_from_rows(
                        pos,
                        c,
                        k as int,
                    ),
            decreases BOARD_HEIGHT as int - k as int,
        {
            let row = &arrays[BOARD_HEIGHT as usize - 1 - k];
            proof {
                assert(pos[BOARD_HEIGHT - 1 - k as int] == arrays@[BOARD_HEIGHT - 1 - k as int]@);
                assert(pos[BOARD_HEIGHT - 1 - k as int].len() == BOARD_WIDTH);
            }
            let mut c: usize = 0;
            while c < BOARD_WIDTH as usize
                invariant
                    pos == rows_view(arrays@),
                    pos.len() == BOARD_HEIGHT,
                    forall|i: int| 0 <= i < BOARD_HEIGHT ==> #[trigger] pos[i].len() == BOARD_WIDTH,
                    forall|i: int, j: int|
                        0 <= i < BOARD_HEIGHT && 0 <= j < BOARD_WIDTH ==> #[trigger] pos[i][j] <= 2,
                    0 <= k < BOARD_HEIGHT,
                    0 <= c <= BOARD_WIDTH,
                    row@ == pos[BOARD_HEIGHT - 1 - k as int],
                    row@.len() == BOARD_WIDTH,
                    board.wf(),
                    forall|cc: int|
                        0 <= cc < c ==> #[trigger] board.grid()[cc] == col_from_rows(
                            pos,
                            cc,
                            k as int + 1,
                        ),
                    forall|cc: int|
                        c <= cc < BOARD_WIDTH ==> #[trigger] board.grid()[cc] == col_from_rows(
                            pos,
                            cc,
                            k as int,
                        ),
                decreases BOARD_WIDTH as int - c as int,
            {
                let piece = row[c];
                proof {
                    lemma_col_from_rows_len(pos, c as int, k as int);
                    assert(col_from_rows(pos, c as int, k as int + 1) == (if pos[BOARD_HEIGHT - (k
                        + 1)][c as int] == 0 {
                        col_from_rows(pos, c as int, k as int)
                    } else {
                        col_from_rows(pos, c as int, k as int).push(
                            pos[BOARD_HEIGHT - (k + 1)][c as int] == 2,
                        )
                    }));
                }
                if piece == 1 {
                    let _ = board.drop_piece(c as u8, false);
                } else if piece == 2 {
                    let _ = board.drop_piece(c as u8, true);
                }
                c = c + 1;
            }
            k = k + 1;
        }
        proof {
            assert(board.grid() =~= grid_from_rows(pos));
        }
        board
    }

    /// Used to get the current state of the board as a 2d position, row 0 on
    /// top.
    pub fn to_arrays(&self) -> (r: Vec<Vec<u8>>)
        requires
            self.wf(),
        ensures
            r@.len() == BOARD_HEIGHT,
            forall|i: int|
                0 <= i < BOARD_HEIGHT ==> #[trigger] rows_view(r@)[i].len() == BOARD_WIDTH,
            forall|i: int, j: int|
                0 <= i < BOARD_HEIGHT && 0 <= j < BOARD_WIDTH ==> #[trigger] rows_view(r@)[i][j]
                    == cell_code(self.grid(), j, BOARD_HEIGHT - 1 - i),
    {
        let mut out: Vec<Vec<u8>> = Vec::new();
        let mut i: usize = 0;
        while i < BOARD_HEIGHT as usize
            invariant
                self.wf(),
                0 <= i <= BOARD_HEIGHT,
                out@.len() == i,
                forall|a: int| 0 <= a < i ==> #[trigger] rows_view(out@)[a].len() == BOARD_WIDTH,
                forall|a: int, j: int|
                    0 <= a < i && 0 <= j < BOARD_WIDTH ==> #[trigger] rows_view(out@)[a][j]
                        == cell_code(self.grid(), j, BOARD_HEIGHT - 1 - a),
            decreases BOARD_HEIGHT as int - i as int,
        {
            let mut line: Vec<u8> = Vec::new();
            let mut j: usize = 0;
            while j < BOARD_WIDTH as usize
                invariant
                    self.wf(),
                    0 <= i < BOARD_HEIGHT,
                    0 <= j <= BOARD_WIDTH,
                    line@.len() == j,
                    forall|b: int|
                        0 <= b < j ==> #[trigger] line@[b] == cell_code(
                            self.grid(),
                            b,
                            BOARD_HEIGHT - 1 - i as int,
                        ),
                decreases BOARD_WIDTH as int - j as int,
            {
                let v = match self.get_piece(j as u8, BOARD_HEIGHT - 1 - i as u8) {
                    Ok(true) => 2,
                    Ok(false) => 1,
                    Err(_) => 0,
                };
                line.push(v);
                j = j + 1;
            }
            let ghost prev = out@;
            out.push(line);
            proof {
                assert forall|a: int| 0 <= a < i + 1 implies #[trigger] rows_view(out@)[a].len()
                    == BOARD_WIDTH by {
                    if a < i {
                        assert(rows_view(out@)[a] == rows_view(prev)[a]);
                    } else {
                        assert(rows_view(out@)[a] == line@);
                    }
                }
                assert forall|a: int, j: int|
                    0 <= a < i + 1 && 0 <= j < BOARD_WIDTH implies #[trigger] rows_view(
                    out@,
                )[a][j] == cell_code(self.grid(), j, BOARD_HEIGHT - 1 - a) by {
                    if a < i {
                        assert(rows_view(out@)[a] == rows_view(prev)[a]);
                        assert(rows_view(prev)[a][j] == cell_code(
                            self.grid(),
                            j,
                            BOARD_HEIGHT - 1 - a,
                        ));
                    } else {
                        assert(rows_view(out@)[a] == line@);
                    }
                }
            }
            i = i + 1;
        }
        out
    }
}

impl Default for Board {
    /// An empty board.
    fn default() -> (r: Board)
        ensures
            r.wf(),
            r.grid() == empty_grid(),
    {
        let mut heights: Vec<u8> = Vec::new();
        let mut bitmaps: Vec<u8> = Vec::new();
        let mut c: usize = 0;
        while c < BOARD_WIDTH as usize
            invariant
                0 <= c <= BOARD_WIDTH,
                heights@.len() == c,
                bitmaps@.len() == c,
                forall|i: int| 0 <= i < c ==> #[trigger] heights@[i] == 0u8,
                forall|i: int| 0 <= i < c ==> #[trigger] bitmaps@[i] == 0u8,
            decreases BOARD_WIDTH as int - c,
        {
            heights.push(0);
            bitmaps.push(0);
            c = c + 1;
        }
        let r = Board { column_heights: heights, column_bitmaps: bitmaps };
        proof {
            assert(forall|c: int|
                0 <= c < BOARD_WIDTH ==> #[trigger] (r.column_bitmaps@[c] >> r.column_heights@[c])
                    == 0u8) by {
                assert(forall|bm: u8| bm == 0 ==> #[trigger] (bm >> 0u8) == 0u8) by (bit_vector);
            }
            assert(r.grid() =~= empty_grid()) by {
                assert(forall|c: int|
                    0 <= c < BOARD_WIDTH ==> #[trigger] r.grid()[c] =~= Seq::<bool>::empty());
            }
        }
        r
    }
}

/// The grid of the empty board.
pub open spec fn empty_grid() -> Grid {
    Seq::new(BOARD_WIDTH as nat, |c: int| Seq::<bool>::empty())
}

impl Clone for Board {
    /// An identical copy of the board.
    fn clone(&self) -> (r: Board)
        ensures
            r.grid() == self.grid(),
            self.wf() ==> r.wf(),
    {
        let r = Board {
            column_heights: self.column_heights.clone(),
            column_bitmaps: self.column_bitmaps.clone(),
        };
        proof {
            assert(r.column_heights@ =~= self.column_heights@);
            assert(r.column_bitmaps@ =~= self.column_bitmaps@);
        }
        r
    }
}

} // verus!

//! Strip generation: for each of the four directions, the ordered list of
//! maximal in-bounds lines of cells, as the win check and the heuristic
//! consume them.
use vstd::prelude::*;

use crate::board::{
    cell_at, max_height, grid_wf, lemma_max_height_bounds, Board, Grid, OutOfBounds, BOARD_HEIGHT,
    BOARD_WIDTH, NUMBER_TO_WIN,
};

verus! {

/// One cell of a strip: a piece color, or out of bounds / empty.
pub type Cell = Result<bool, OutOfBounds>;

/// The view of a vector of strips.
pub open spec fn cells_view(v: Seq<Vec<Cell>>) -> Seq<Seq<Cell>> {
    Seq::new(v.len(), |i: int| v[i]@)
}

/// The smaller of two integers.
pub open spec fn min2(a: int, b: int) -> int {
    if a <= b {
        a
    } else {
        b
    }
}

/// The cells along one line: `len` cells from `(c0, r0)` stepping by
/// `(dc, dr)`.
pub open spec fn strip_seq(g: Grid, c0: int, r0: int, dc: int, dr: int, len: int) -> Seq<Cell> {
    Seq::new(
        (if len >= 0 {
            len
        } else {
            0
        }) as nat,
        |k: int| cell_at(g, c0 + k * dc, r0 + k * dr),
    )
}

/// The horizontal strips: one full row for every row below the maximum
/// height, bottom row first.
pub open spec fn horizontal_strips(g: Grid) -> Seq<Seq<Cell>> {
    Seq::new(max_height(g) as nat, |r: int| strip_seq(g, 0, r, 1, 0, BOARD_WIDTH as int))
}

/// The length of the vertical strip of column `c`: up to the column height,
/// or a window-width beyond it (bounded by the board height) for full strips.
pub open spec fn vstrip_len(g: Grid, c: int, full: bool) -> int {
    if full {
        min2(g[c].len() + NUMBER_TO_WIN - 1, BOARD_HEIGHT as int)
    } else {
        g[c].len() as int
    }
}

/// Whether column `c` contributes a vertical strip.
pub open spec fn vstrip_included(g: Grid, c: int, full: bool) -> bool {
    g[c].len() > 0 && (full || g[c].len() >= NUMBER_TO_WIN)
}

/// The vertical strips of the columns left of `c`, in column order.
pub open spec fn vertical_strips_upto(g: Grid, c: int, full: bool) -> Seq<Seq<Cell>>
    decreases c,
{
    if c <= 0 {
        Seq::empty()
    } else {
        let rest = vertical_strips_upto(g, c - 1, full);
        if vstrip_included(g, c - 1, full) {
            rest.push(strip_seq(g, c - 1, 0, 0, 1, vstrip_len(g, c - 1, full)))
        } else {
            rest
        }
    }
}

/// The vertical strips of a grid.
pub open spec fn vertical_strips(g: Grid, full: bool) -> Seq<Seq<Cell>> {
    vertical_strips_upto(g, BOARD_WIDTH as int, full)
}

/// The effective scan height for diagonal strips: the maximum height, padded
/// by a window-width (bounded by the board height) for full strips.
pub open spec fn eff_height(g: Grid, full: bool) -> int {
    if full {
        min2(max_height(g) + NUMBER_TO_WIN - 1, BOARD_HEIGHT as int)
    } else {
        max_height(g)
    }
}

/// The row the first diagonal strip starts at.
pub open spec fn diag_start_row(me: int) -> int {
    if me >= NUMBER_TO_WIN {
        me - NUMBER_TO_WIN
    } else {
        0
    }
}

/// The upward-diagonal strips: starting on the left edge from
/// `diag_start_row` down to the bottom row, then along the bottom row while a
/// window still fits; each strip runs up-right to the effective height.
pub open spec fn upward_strips(g: Grid, full: bool) -> Seq<Seq<Cell>> {
    if !full && max_height(g) < NUMBER_TO_WIN {
        Seq::empty()
    } else {
        let me = eff_height(g, full);
        let sr = diag_start_row(me);
        Seq::new(
            (sr + NUMBER_TO_WIN) as nat,
            |k: int|
                {
                    let c0 = if k <= sr {
                        0
                    } else {
                        k - sr
                    };
                    let r0 = if k <= sr {
                        sr - k
                    } else {
                        0
                    };
                    strip_seq(g, c0, r0, 1, 1, min2(me - r0, BOARD_WIDTH - c0))
                },
        )
    }
}

/// The downward-diagonal strips: starting on the right edge from
/// `diag_start_row` down to the bottom row, then along the bottom row while a
/// window still fits; each strip runs up-left to the effective height.
pub open spec fn downward_strips(g: Grid, full: bool) -> Seq<Seq<Cell>> {
    if !full && max_height(g) < NUMBER_TO_WIN {
        Seq::empty()
    } else {
        let me = eff_height(g, full);
        let sr = diag_start_row(me);
        Seq::new(
            (sr + NUMBER_TO_WIN) as nat,
            |k: int|
                {
                    let c0 = if k <= sr {
                        BOARD_WIDTH as int
                    } else {
                        BOARD_WIDTH - (k - sr)
                    };
                    let r0 = if k <= sr {
                        sr - k
                    } else {
                        0
                    };
                    strip_seq(g, c0 - 1, r0, -1, 1, min2(me - r0, c0))
                },
        )
    }
}

/// Whether the `k`th cell of a strip from `(c0, r0)` stepping by `(dc, dr)`
/// stays on a board column and at a representable row.
pub open spec fn step_in_bounds(c0: int, r0: int, dc: int, dr: int, k: int) -> bool {
    &&& 0 <= c0 + k * dc
    &&& c0 + k * dc < BOARD_WIDTH
    &&& r0 + k * dr < 256
}

proof fn lemma_mul_unit(k: int, d: int)
    by (nonlinear_arith)
    ensures
        d == 1 ==> k * d == k,
        d == -1 ==> k * d == -k,
        d == 0 ==> k * d == 0,
{
}

impl Board {
    /// One strip of cells along a line, read off the board.
    fn read_strip(&self, c0: u8, r0: u8, dc: i8, dr: i8, len: u8) -> (r: Vec<Cell>)
        requires
            self.wf(),
            -1 <= dc <= 1,
            0 <= dr <= 1,
            forall|k: int|
                0 <= k < len ==> #[trigger] step_in_bounds(
                    c0 as int,
                    r0 as int,
                    dc as int,
                    dr as int,
                    k,
                ),
        ensures
            r@ == strip_seq(self.grid(), c0 as int, r0 as int, dc as int, dr as int, len as int),
    {
        let mut out: Vec<Cell> = Vec::new();
        let mut k: u8 = 0;
        while k < len
            invariant
                self.wf(),
                -1 <= dc <= 1,
                0 <= dr <= 1,
                forall|i: int|
                    0 <= i < len ==> #[trigger] step_in_bounds(
                        c0 as int,
                        r0 as int,
                        dc as int,
                        dr as int,
                        i,
                    ),
                0 <= k <= len,
                out@.len() == k,
                forall|i: int|
                    0 <= i < k ==> out@[i] == cell_at(
                        self.grid(),
                        c0 + i * dc as int,
                        r0 + i * dr as int,
                    ),
            decreases len as int - k as int,
        {
            proof {
                assert(step_in_bounds(c0 as int, r0 as int, dc as int, dr as int, k as int));
                lemma_mul_unit(k as int, dc as int);
                lemma_mul_unit(k as int, dr as int);
            }
            let c: u8 = if dc > 0 {
                c0 + k
            } else if dc < 0 {
                c0 - k
            } else {
                c0
            };
            let r: u8 = if dr > 0 {
                r0 + k
            } else {
                r0
            };
            proof {
                assert(c as int == c0 + k as int * (dc as int));
                assert(r as int == r0 + k as int * (dr as int));
            }
            let piece = if r < BOARD_HEIGHT {
                self.get_piece(c, r)
            } else {
                proof {
                    self.lemma_wf_grid();
                    assert(cell_at(self.grid(), c as int, r as int) == Err::<bool, OutOfBounds>(
                        OutOfBounds,
                    ));
                }
                Err(OutOfBounds)
            };
            out.push(piece);
            k = k + 1;
        }
        proof {
            assert(out@ =~= strip_seq(
                self.grid(),
                c0 as int,
                r0 as int,
                dc as int,
                dr as int,
                len as int,
            ));
        }
        out
    }

    /// Returns each horizontal strip of the board, bottom row first, exiting
    /// at the board's maximum height.
    pub fn horizontal_strip_iter(&self) -> (r: Vec<Vec<Cell>>)
        requires
            self.wf(),
        ensures
            cells_view(r@) == horizontal_strips(self.grid()),
    {
        proof {
            self.lemma_wf_grid();
        }
        let mh = self.get_max_height();
        proof {
            lemma_max_height_bounds(self.grid());
        }
        let mut out: Vec<Vec<Cell>> = Vec::new();
        let mut row: u8 = 0;
        while row < mh
            invariant
                self.wf(),
                grid_wf(self.grid()),
                mh == max_height(self.grid()),
                mh <= BOARD_HEIGHT,
                0 <= row <= mh,
                out@.len() == row,
                forall|i: int|
                    0 <= i < row ==> #[trigger] cells_view(out@)[i] == horizontal_strips(
                        self.grid(),
                    )[i],
            decreases mh as int - row as int,
        {
            let strip = self.read_strip(0, row, 1, 0, BOARD_WIDTH);
            let ghost prev = out@;
            out.push(strip);
            proof {
                assert(cells_view(out@) =~= cells_view(prev).push(strip@));
            }
            row = row + 1;
        }
        proof {
            assert(cells_view(out@) =~= horizontal_strips(self.grid()));
        }
        out
    }

    /// Returns each vertical strip of the board, in column order.
    ///
    /// `full` determines if strips shorter than the window are produced, and
    /// how far above the column's pieces a strip extends.
    pub fn vertical_strip_iter(&self, full: bool) -> (r: Vec<Vec<Cell>>)
        requires
            self.wf(),
        ensures
            cells_view(r@) == vertical_strips(self.grid(), full),
    {
        proof {
            self.lemma_wf_grid();
        }
        let mut out: Vec<Vec<Cell>> = Vec::new();
        let mut c: u8 = 0;
        while c < BOARD_WIDTH
            invariant
                self.wf(),
                grid_wf(self.grid()),
                0 <= c <= BOARD_WIDTH,
                cells_view(out@) == vertical_strips_upto(self.grid(), c as int, full),
            decreases BOARD_WIDTH as int - c as int,
        {
            let h = self.get_height(c);
            if !(h == 0 || (!full && h < NUMBER_TO_WIN)) {
                let len: u8 = if full {
                    if h + NUMBER_TO_WIN - 1 <= BOARD_HEIGHT {
                        h + NUMBER_TO_WIN - 1
                    } else {
                        BOARD_HEIGHT
                    }
                } else {
                    h
                };
                let ghost prev = out@;
                let strip = self.read_strip(c, 0, 0, 1, len);
                out.push(strip);
                proof {
                    assert(cells_view(out@) =~= cells_view(prev).push(strip@));
                }
            }
            c = c + 1;
        }
        out
    }

    /// Returns each upward diagonal strip of the board.
    ///
    /// `full` determines if strips are produced while no window of occupied
    /// rows fits, and how far above the pieces each strip extends.
    pub fn upward_diagonal_strip_iter(&self, full: bool) -> (r: Vec<Vec<Cell>>)
        requires
            self.wf(),
        ensures
            cells_view(r@) == upward_strips(self.grid(), full),
    {
        proof {
            self.lemma_wf_grid();
        }
        let mh = self.get_max_height();
        proof {
            lemma_max_height_bounds(self.grid());
        }
        let mut out: Vec<Vec<Cell>> = Vec::new();
        if !full && mh < NUMBER_TO_WIN {
            proof {
                assert(cells_view(out@) =~= upward_strips(self.grid(), full));
            }
            return out;
        }
        let me: u8 = if full {
            if mh + NUMBER_TO_WIN - 1 <= BOARD_HEIGHT {
                mh + NUMBER_TO_WIN - 1
            } else {
                BOARD_HEIGHT
            }
        } else {
            mh
        };
        let sr: u8 = if me >= NUMBER_TO_WIN {
            me - NUMBER_TO_WIN
        } else {
            0
        };
        let mut k: u8 = 0;
        while k < sr + NUMBER_TO_WIN
            invariant
                self.wf(),
                grid_wf(self.grid()),
                me == eff_height(self.grid(), full),
                sr == diag_start_row(me as int),
                me <= BOARD_HEIGHT,
                sr + NUMBER_TO_WIN <= BOARD_WIDTH,
                full || max_height(self.grid()) >= NUMBER_TO_WIN,
                0 <= k <= sr + NUMBER_TO_WIN,
                out@.len() == k,
                forall|i: int|
                    0 <= i < k ==> #[trigger] cells_view(out@)[i] == upward_strips(
                        self.grid(),
                        full,
                    )[i],
            decreases sr as int + NUMBER_TO_WIN as int - k as int,
        {
            let c0: u8 = if k <= sr {
                0
            } else {
                k - sr
            };
            let r0: u8 = if k <= sr {
                sr - k
            } else {
                0
            };
            let len: u8 = if me - r0 <= BOARD_WIDTH - c0 {
                me - r0
            } else {
                BOARD_WIDTH - c0
            };
            let strip = self.read_strip(c0, r0, 1, 1, len);
            let ghost prev = out@;
            out.push(strip);
            proof {
                assert(cells_view(out@) =~= cells_view(prev).push(strip@));
            }
            k = k + 1;
        }
        proof {
            assert(cells_view(out@) =~= upward_strips(self.grid(), full));
        }
        out
    }

    /// Returns each downward diagonal strip of the board.
    ///
    /// `full` determines if strips are produced while no window of occupied
    /// rows fits, and how far above the pieces each strip extends.
    pub fn downward_diagonal_strip_iter(&self, full: bool) -> (r: Vec<Vec<Cell>>)
        requires
            self.wf(),
        ensures
            cells_view(r@) == downward_strips(self.grid(), full),
    {
        proof {
            self.lemma_wf_grid();
        }
        let mh = self.get_max_height();
        proof {
            lemma_max_height_bounds(self.grid());
        }
        let mut out: Vec<Vec<Cell>> = Vec::new();
        if !full && mh < NUMBER_TO_WIN {
            proof {
                assert(cells_view(out@) =~= downward_strips(self.grid(), full));
            }
            return out;
        }
        let me: u8 = if full {
            if mh + NUMBER_TO_WIN - 1 <= BOARD_HEIGHT {
                mh + NUMBER_TO_WIN - 1
            } else {
                BOARD_HEIGHT
            }
        } else {
            mh
        };
        let sr: u8 = if me >= NUMBER_TO_WIN {
            me - NUMBER_TO_WIN
        } else {
            0
        };
        let mut k: u8 = 0;
        while k < sr + NUMBER_TO_WIN
            invariant
                self.wf(),
                grid_wf(self.grid()),
                me == eff_height(self.grid(), full),
                sr == diag_start_row(me as int),
                me <= BOARD_HEIGHT,
                sr + NUMBER_TO_WIN <= BOARD_WIDTH,
                full || max_height(self.grid()) >= NUMBER_TO_WIN,
                0 <= k <= sr + NUMBER_TO_WIN,
                out@.len() == k,
                forall|i: int|
                    0 <= i < k ==> #[trigger] cells_view(out@)[i] == downward_strips(
                        self.grid(),
                        full,
                    )[i],
            decreases sr as int + NUMBER_TO_WIN as int - k as int,
        {
            let c0: u8 = if k <= sr {
                BOARD_WIDTH
            } else {
                BOARD_WIDTH - (k - sr)
            };
            let r0: u8 = if k <= sr {
                sr - k
            } else {
                0
            };
            let len: u8 = if me - r0 <= c0 {
                me - r0
            } else {
                c0
            };
            let strip = self.read_strip(c0 - 1, r0, -1, 1, len);
            let ghost prev = out@;
            out.push(strip);
            proof {
                assert(cells_view(out@) =~= cells_view(prev).push(strip@));
            }
            k = k + 1;
        }
        proof {
            assert(cells_view(out@) =~= downward_strips(self.grid(), full));
        }
        out
    }
}

} // verus!

//! The spatial index: a fixed uniform grid over the simulation area.
//!
//! A position is mapped to the cell containing it by scaling each axis by
//! `cells / bound` and truncating. Positions may drift marginally outside the
//! area after integration; the computed coordinate is clamped to
//! `[0, cells - 1]` per axis, so every position maps to exactly one valid
//! cell id.

use vstd::prelude::*;
use vstd::arithmetic::div_mod::{lemma_div_pos_is_pos, lemma_multiply_divide_lt};
use vstd::arithmetic::mul::lemma_mul_strict_inequality;

verus! {

/// A fixed lattice of `cells_x * cells_y` cells covering the rectangular
/// area `[0, width] x [0, height]`. Positions, `width` and `height` are in
/// the same integer unit. The cell at `(cx, cy)` has id `cx + cy * cells_x`.
#[derive(Clone, Copy, PartialEq, Eq, Structural, Debug)]
pub struct Grid {
    pub width: u64,
    pub height: u64,
    pub cells_x: u64,
    pub cells_y: u64,
}

/// The column (or row) of a grid axis of length `bound`, divided into
/// `cells` cells, that position `pos` falls in: `pos * cells / bound`,
/// clamped to `[0, cells - 1]`. Positions at or beyond an edge map to the
/// cell at that edge, never outside the grid.
pub open spec fn cell_coord(pos: int, bound: int, cells: int) -> int {
    if pos <= 0 {
        0
    } else if pos >= bound {
        cells - 1
    } else {
        pos * cells / bound
    }
}

/// The id of the cell with coordinates `(cx, cy)` on a grid `cells_x` cells
/// wide.
pub open spec fn cell_id_at(cx: int, cy: int, cells_x: int) -> int {
    cx + cy * cells_x
}

/// A grid coordinate in the interior of the axis stays strictly below
/// `cells`; combined with the clamping arms this makes `cell_coord` total:
/// every position, however far out of bounds, maps into `[0, cells)`.
pub proof fn lemma_cell_coord_in_range(pos: int, bound: int, cells: int)
    requires
        0 < bound,
        0 < cells,
    ensures
        0 <= cell_coord(pos, bound, cells) < cells,
{
    if pos <= 0 {
    } else if pos >= bound {
    } else {
        lemma_div_pos_is_pos(pos * cells, bound);
        lemma_mul_strict_inequality(pos, bound, cells);
        lemma_multiply_divide_lt(pos * cells, bound, cells);
    }
}

/// A position exactly at, or beyond, the far boundary of an axis maps to the
/// last cell of that axis; a position at or below zero maps to the first.
pub proof fn lemma_cell_coord_clamps(pos: int, bound: int, cells: int)
    requires
        0 < bound,
        0 < cells,
    ensures
        pos >= bound ==> cell_coord(pos, bound, cells) == cells - 1,
        pos <= 0 ==> cell_coord(pos, bound, cells) == 0,
{
}

/// A cell coordinate pair within the grid yields a cell id within
/// `[0, cells_x * cells_y)`.
pub proof fn lemma_cell_id_in_range(cx: int, cy: int, cells_x: int, cells_y: int)
    by (nonlinear_arith)
    requires
        0 <= cx < cells_x,
        0 <= cy < cells_y,
    ensures
        0 <= cell_id_at(cx, cy, cells_x) < cells_x * cells_y,
{
}

/// The clamped grid coordinate of `pos` on one axis, as executable code.
fn coord_on_axis(pos: i64, bound: u64, cells: u64) -> (c: u64)
    requires
        0 < bound <= 0x1_0000_0000,
        0 < cells <= 0x8000,
    ensures
        c == cell_coord(pos as int, bound as int, cells as int),
        c < cells,
{
    proof {
        lemma_cell_coord_in_range(pos as int, bound as int, cells as int);
    }
    if pos <= 0 {
        0
    } else if pos >= bound as i64 {
        cells - 1
    } else {
        proof {
            assert((pos as u64) * cells <= 0x8000_0000_0000) by (nonlinear_arith)
                requires
                    0 < pos < 0x1_0000_0000,
                    0 < cells <= 0x8000,
            ;
        }
        (pos as u64) * cells / bound
    }
}

impl Grid {
    /// The grid covers a non-empty area, and its sizes are small enough that
    /// all cell arithmetic stays far below machine limits.
    pub open spec fn wf(self) -> bool {
        &&& 0 < self.width <= 0x1_0000_0000
        &&& 0 < self.height <= 0x1_0000_0000
        &&& 0 < self.cells_x <= 0x8000
        &&& 0 < self.cells_y <= 0x8000
    }

    /// The total number of cells.
    pub open spec fn num_cells(self) -> int {
        self.cells_x * self.cells_y
    }

    /// The cell id of the cell containing position `(x, y)`, after clamping
    /// each coordinate into the grid.
    pub open spec fn spec_cell_id_of(self, x: int, y: int) -> int {
        cell_id_at(
            cell_coord(x, self.width as int, self.cells_x as int),
            cell_coord(y, self.height as int, self.cells_y as int),
            self.cells_x as int,
        )
    }

    pub fn new(width: u64, height: u64, cells_x: u64, cells_y: u64) -> (g: Grid)
        requires
            0 < width <= 0x1_0000_0000,
            0 < height <= 0x1_0000_0000,
            0 < cells_x <= 0x8000,
            0 < cells_y <= 0x8000,
        ensures
            g.wf(),
            g == (Grid { width, height, cells_x, cells_y }),
    {
        Grid { width, height, cells_x, cells_y }
    }

    /// The number of cells, as a machine integer.
    pub fn cell_count(&self) -> (n: usize)
        requires
            self.wf(),
        ensures
            n == self.num_cells(),
    {
        proof {
            assert(self.cells_x * self.cells_y <= 0x4000_0000) by (nonlinear_arith)
                requires
                    0 < self.cells_x <= 0x8000,
                    0 < self.cells_y <= 0x8000,
            ;
        }
        (self.cells_x as usize) * (self.cells_y as usize)
    }

    /// The grid coordinates of the cell containing `(x, y)`, with each axis
    /// clamped into the grid.
    pub fn pos_to_grid(&self, x: i64, y: i64) -> (c: (u64, u64))
        requires
            self.wf(),
        ensures
            c.0 == cell_coord(x as int, self.width as int, self.cells_x as int),
            c.1 == cell_coord(y as int, self.height as int, self.cells_y as int),
            c.0 < self.cells_x,
            c.1 < self.cells_y,
    {
        let cx = coord_on_axis(x, self.width, self.cells_x);
        let cy = coord_on_axis(y, self.height, self.cells_y);
        (cx, cy)
    }

    /// The cell id of the cell containing `(x, y)`. Total: every position,
    /// in or out of bounds, yields an id in `[0, num_cells)`.
    pub fn pos_to_grid_index(&self, x: i64, y: i64) -> (id: u64)
        requires
            self.wf(),
        ensures
            id == self.spec_cell_id_of(x as int, y as int),
            id < self.num_cells(),
    {
        let (cx, cy) = self.pos_to_grid(x, y);
        proof {
            lemma_cell_id_in_range(
                cx as int,
                cy as int,
                self.cells_x as int,
                self.cells_y as int,
            );
            assert(self.cells_x * self.cells_y <= 0x4000_0000) by (nonlinear_arith)
                requires
                    0 < self.cells_x <= 0x8000,
                    0 < self.cells_y <= 0x8000,
            ;
        }
        cx + cy * self.cells_x
    }

    /// Whether `(nx, ny)` lies in the block of cells within `radius` cells
    /// of `(cx, cy)` on both axes, clipped at the grid boundary.
    pub open spec fn in_neighborhood(self, cx: int, cy: int, radius: int, nx: int, ny: int) -> bool {
        &&& 0 <= nx < self.cells_x
        &&& 0 <= ny < self.cells_y
        &&& cx - radius <= nx <= cx + radius
        &&& cy - radius <= ny <= cy + radius
    }

    /// The first column of the block of cells within `radius` of `cx`,
    /// clipped at the grid's left edge.
    pub open spec fn block_x_lo(self, cx: int, radius: int) -> int {
        vstd::math::max(cx - radius, 0)
    }

    /// The last column of the block, clipped at the right edge.
    pub open spec fn block_x_hi(self, cx: int, radius: int) -> int {
        vstd::math::min(cx + radius, self.cells_x - 1)
    }

    /// The first row of the block, clipped at the top edge.
    pub open spec fn block_y_lo(self, cy: int, radius: int) -> int {
        vstd::math::max(cy - radius, 0)
    }

    /// The last row of the block, clipped at the bottom edge.
    pub open spec fn block_y_hi(self, cy: int, radius: int) -> int {
        vstd::math::min(cy + radius, self.cells_y - 1)
    }

    /// How many columns the clipped block has.
    pub open spec fn block_width(self, cx: int, radius: int) -> int {
        self.block_x_hi(cx, radius) - self.block_x_lo(cx, radius) + 1
    }

    /// How many rows the clipped block has.
    pub open spec fn block_height(self, cy: int, radius: int) -> int {
        self.block_y_hi(cy, radius) - self.block_y_lo(cy, radius) + 1
    }

    /// The `k`-th cell of the clipped block, in row-major order.
    pub open spec fn block_cell(self, cx: int, cy: int, radius: int, k: int) -> (int, int) {
        let w = self.block_width(cx, radius);
        (self.block_x_lo(cx, radius) + k % w, self.block_y_lo(cy, radius) + k / w)
    }

    /// The cells of the block centered at `(cx, cy)` extending `radius`
    /// cells in every direction, clipped at the grid boundary (cells outside
    /// the grid are skipped, not wrapped). Exactly the cells of the clipped
    /// block, each once, enumerated row by row: element `k` is the block's
    /// `k`-th cell.
    pub fn neighbor_cells(&self, cx: u64, cy: u64, radius: u64) -> (v: Vec<(u64, u64)>)
        requires
            self.wf(),
            cx < self.cells_x,
            cy < self.cells_y,
            radius <= 0x8000,
        ensures
            forall|k: int|
                0 <= k < v@.len() ==> self.in_neighborhood(
                    cx as int,
                    cy as int,
                    radius as int,
                    #[trigger] v@[k].0 as int,
                    v@[k].1 as int,
                ),
            forall|nx: u64, ny: u64|
                self.in_neighborhood(cx as int, cy as int, radius as int, nx as int, ny as int)
                    ==> v@.contains((nx, ny)),
            v@.no_duplicates(),
            v@.len() == self.block_width(cx as int, radius as int) * self.block_height(
                cy as int,
                radius as int,
            ),
            forall|k: int|
                0 <= k < v@.len() ==> ((#[trigger] v@[k]).0 as int, v@[k].1 as int)
                    == self.block_cell(cx as int, cy as int, radius as int, k),
    {
        let ghost w = self.block_width(cx as int, radius as int);
        let x_lo: u64 = if cx > radius {
            cx - radius
        } else {
            0
        };
        let x_hi: u64 = if cx + radius < self.cells_x - 1 {
            cx + radius
        } else {
            self.cells_x - 1
        };
        let y_lo: u64 = if cy > radius {
            cy - radius
        } else {
            0
        };
        let y_hi: u64 = if cy + radius < self.cells_y - 1 {
            cy + radius
        } else {
            self.cells_y - 1
        };
        proof {
            assert(x_lo == self.block_x_lo(cx as int, radius as int));
            assert(x_hi == self.block_x_hi(cx as int, radius as int));
            assert(y_lo == self.block_y_lo(cy as int, radius as int));
            assert(y_hi == self.block_y_hi(cy as int, radius as int));
        }
        let mut v: Vec<(u64, u64)> = Vec::new();
        let mut ny: u64 = y_lo;
        while ny <= y_hi
            invariant
                y_lo <= ny <= y_hi + 1,
                x_lo <= x_hi < self.cells_x,
                y_lo <= y_hi < self.cells_y,
                w == x_hi - x_lo + 1,
                x_lo == self.block_x_lo(cx as int, radius as int),
                y_lo == self.block_y_lo(cy as int, radius as int),
                w == self.block_width(cx as int, radius as int),
                v@.len() == (ny - y_lo) * w,
                forall|k: int|
                    0 <= k < v@.len() ==> ((#[trigger] v@[k]).0 as int, v@[k].1 as int)
                        == self.block_cell(cx as int, cy as int, radius as int, k),
                forall|k: int|
                    0 <= k < v@.len() ==> x_lo <= (#[trigger] v@[k]).0 <= x_hi && y_lo <= v@[k].1
                        < ny,
                forall|qx: u64, qy: u64|
                    x_lo <= qx <= x_hi && y_lo <= qy < ny ==> v@.contains((qx, qy)),
                v@.no_duplicates(),
            decreases y_hi + 1 - ny,
        {
            let mut nx: u64 = x_lo;
            while nx <= x_hi
                invariant
                    x_lo <= nx <= x_hi + 1,
                    x_lo <= x_hi < self.cells_x,
                    y_lo <= y_hi < self.cells_y,
                    y_lo <= ny <= y_hi,
                    w == x_hi - x_lo + 1,
                    x_lo == self.block_x_lo(cx as int, radius as int),
                    y_lo == self.block_y_lo(cy as int, radius as int),
                    w == self.block_width(cx as int, radius as int),
                    v@.len() == (ny - y_lo) * w + (nx - x_lo),
                    forall|k: int|
                        0 <= k < v@.len() ==> ((#[trigger] v@[k]).0 as int, v@[k].1 as int)
                            == self.block_cell(cx as int, cy as int, radius as int, k),
                    forall|k: int|
                        0 <= k < v@.len() ==> (x_lo <= (#[trigger] v@[k]).0 <= x_hi && y_lo
                            <= v@[k].1 < ny) || (v@[k].1 == ny && x_lo <= v@[k].0 < nx),
                    forall|qx: u64, qy: u64|
                        x_lo <= qx <= x_hi && y_lo <= qy < ny ==> v@.contains((qx, qy)),
                    forall|qx: u64| x_lo <= qx < nx ==> v@.contains((qx, ny)),
                    v@.no_duplicates(),
                decreases x_hi + 1 - nx,
            {
                let ghost old_v = v@;
                v.push((nx, ny));
                proof {
                    vstd::arithmetic::div_mod::lemma_fundamental_div_mod_converse(
                        old_v.len() as int,
                        w,
                        ny - y_lo,
                        nx - x_lo,
                    );
                    assert(((v@[old_v.len() as int]).0 as int, v@[old_v.len() as int].1 as int)
                        == self.block_cell(cx as int, cy as int, radius as int, old_v.len() as int));
                    assert forall|qx: u64, qy: u64|
                        x_lo <= qx <= x_hi && y_lo <= qy < ny implies v@.contains(
                        (qx, qy),
                    ) by {
                        assert(old_v.contains((qx, qy)));
                        let k = choose|k: int| 0 <= k < old_v.len() && old_v[k] == (qx, qy);
                        assert(v@[k] == (qx, qy));
                    }
                    assert forall|qx: u64| x_lo <= qx < nx + 1 implies v@.contains((qx, ny)) by {
                        if qx < nx {
                            assert(old_v.contains((qx, ny)));
                            let k = choose|k: int| 0 <= k < old_v.len() && old_v[k] == (qx, ny);
                            assert(v@[k] == (qx, ny));
                        } else {
                            assert(v@[v@.len() - 1] == (qx, ny));
                        }
                    }
                }
                nx = nx + 1;
            }
            proof {
                assert((ny + 1 - y_lo) * w == (ny - y_lo) * w + w) by (nonlinear_arith);
            }
            ny = ny + 1;
        }
        proof {
            assert forall|nx: u64, ny2: u64|
                self.in_neighborhood(
                    cx as int,
                    cy as int,
                    radius as int,
                    nx as int,
                    ny2 as int,
                ) implies v@.contains((nx, ny2)) by {
                assert(x_lo <= nx <= x_hi && y_lo <= ny2 <= y_hi);
            }
            assert((y_hi + 1 - y_lo) * w == w * (y_hi + 1 - y_lo)) by (nonlinear_arith);
        }
        v
    }
}

} // verus!

use vstd::prelude::*;
use vstd::arithmetic::div_mod::lemma_fundamental_div_mod_converse;
use crate::tile::Tile;

verus! {

/// Row-major index of cell `(r, c)` in a grid with `cols` columns.
#[verifier::opaque]
pub open spec fn index_of(cols: int, r: int, c: int) -> int {
    r * cols + c
}

/// `r * cols + c` addresses a cell of a `rows` by `cols` grid exactly when `(r, c)` lies inside it.
pub proof fn lemma_index_bounds(rows: int, cols: int, r: int, c: int)
    requires
        0 <= r < rows,
        0 <= c < cols,
    ensures
        0 <= index_of(cols, r, c) < rows * cols,
        index_of(cols, r, c) + cols == index_of(cols, r + 1, c),
        index_of(cols, r, c) + 1 == index_of(cols, r, c + 1),
        index_of(cols, r, 0) == r * cols,
        index_of(cols, r, c) / cols == r,
        index_of(cols, r, c) % cols == c,
{
    reveal(index_of);
    assert(0 <= r * cols) by (nonlinear_arith) requires 0 <= r, 0 <= cols;
    assert(r * cols + c < rows * cols) by (nonlinear_arith) requires r < rows, c < cols, 0 <= c;
    assert((r + 1) * cols == r * cols + cols) by (nonlinear_arith);
    lemma_fundamental_div_mod_converse(r * cols + c, cols, r, c);
}

pub proof fn lemma_index_linear(cols: int, r: int, c: int)
    ensures
        index_of(cols, r, c) == r * cols + c,
{
    reveal(index_of);
}

/// Row-major order: a cell in an earlier row, or earlier in the same row, comes first.
pub proof fn lemma_index_order(cols: int, r1: int, c1: int, r2: int, c2: int)
    requires
        0 <= c1 < cols,
        0 <= c2 <= cols,
        r1 < r2 || (r1 == r2 && c1 < c2),
    ensures
        index_of(cols, r1, c1) < index_of(cols, r2, c2),
{
    reveal(index_of);
    if r1 < r2 {
        assert(r1 * cols + cols <= r2 * cols) by (nonlinear_arith) requires r1 < r2, 0 <= cols;
    }
}

/// The cells of `v`'s row-major numbering: row `v / cols`, column `v % cols`.
pub proof fn lemma_index_inverse(rows: int, cols: int, v: int)
    requires
        0 <= v < rows * cols,
        0 < cols,
    ensures
        0 <= v / cols < rows,
        0 <= v % cols < cols,
        index_of(cols, v / cols, v % cols) == v,
{
    reveal(index_of);
    assert(v == cols * (v / cols) + v % cols) by (nonlinear_arith) requires 0 < cols;
    assert(0 <= v % cols < cols) by (nonlinear_arith) requires 0 < cols, 0 <= v;
    assert(0 <= v / cols) by (nonlinear_arith) requires 0 < cols, 0 <= v;
    assert(v / cols < rows) by (nonlinear_arith)
        requires 0 < cols, v < rows * cols, v == cols * (v / cols) + v % cols, 0 <= v % cols;
    assert((v / cols) * cols + v % cols == v) by (nonlinear_arith)
        requires v == cols * (v / cols) + v % cols;
}

/// Row-major index of cell `(r, c)` of a grid that has `rows * cols` cells.
pub fn cell_index(rows: usize, cols: usize, r: usize, c: usize) -> (v: usize)
    requires
        r < rows,
        c < cols,
        rows * cols <= usize::MAX,
    ensures
        v == index_of(cols as int, r as int, c as int),
        v < rows * cols,
{
    proof {
        lemma_index_bounds(rows as int, cols as int, r as int, c as int);
        reveal(index_of);
    }
    r * cols + c
}

/// A dense rectangular grid of tiles, stored row by row, with a mask telling
/// which cells hold ground truth (known or discovered) and which are estimates.
pub struct Grid {
    pub rows: usize,
    pub cols: usize,
    pub tiles: Vec<Tile>,
    pub known: Vec<bool>,
}

impl Grid {
    pub open spec fn wf(&self) -> bool {
        &&& self.rows >= 1
        &&& self.cols >= 1
        &&& self.rows * self.cols <= usize::MAX
        &&& self.tiles@.len() == self.rows * self.cols
        &&& self.known@.len() == self.rows * self.cols
    }

    pub open spec fn len(&self) -> int {
        self.rows * self.cols
    }

    pub open spec fn in_bounds(&self, r: int, c: int) -> bool {
        0 <= r < self.rows && 0 <= c < self.cols
    }

    pub open spec fn tile(&self, r: int, c: int) -> Tile {
        self.tiles@[index_of(self.cols as int, r, c)]
    }

    pub open spec fn is_known(&self, r: int, c: int) -> bool {
        self.known@[index_of(self.cols as int, r, c)]
    }
}

/// Maps a vertex index to the `(row, column)` of its cell and back.
#[derive(Clone, Copy, Debug, PartialEq, Eq, Structural)]
pub struct CoordinateMap {
    pub rows: usize,
    pub cols: usize,
}

impl CoordinateMap {
    pub open spec fn wf(&self) -> bool {
        self.cols >= 1 && self.rows * self.cols <= usize::MAX
    }

    /// The cell of vertex `v`, if `v` numbers a cell.
    pub open spec fn coords_spec(&self, v: int) -> Option<(usize, usize)> {
        if 0 <= v < self.rows * self.cols {
            Some(((v / self.cols as int) as usize, (v % self.cols as int) as usize))
        } else {
            None
        }
    }

    pub fn get(&self, v: usize) -> (r: Option<(usize, usize)>)
        requires
            self.wf(),
        ensures
            r == self.coords_spec(v as int),
            r matches Some(p) ==> index_of(self.cols as int, p.0 as int, p.1 as int) == v
                && p.0 < self.rows && p.1 < self.cols,
    {
        if (v as u128) < (self.rows as u128) * (self.cols as u128) {
            proof { lemma_index_inverse(self.rows as int, self.cols as int, v as int); }
            Some((v / self.cols, v % self.cols))
        } else {
            None
        }
    }
}

/// The coordinate map of a grid's vertices.
pub fn get_coordinates(grid: &Grid) -> (r: CoordinateMap)
    requires
        grid.wf(),
    ensures
        r.rows == grid.rows,
        r.cols == grid.cols,
        r.wf(),
{
    CoordinateMap { rows: grid.rows, cols: grid.cols }
}

} // verus!

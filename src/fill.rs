use vstd::prelude::*;
use crate::tile::{Tile, cost_spec, get_cost};
use crate::grid::{Grid, cell_index, lemma_index_bounds, lemma_index_inverse};

verus! {

/// The ground-truth tile at cell `(r, c)`, if the cell exists and is known.
pub open spec fn scan_spec(g: Grid, r: int, c: int) -> Option<Tile> {
    if g.in_bounds(r, c) && g.is_known(r, c) { Some(g.tile(r, c)) } else { None }
}

/// The eight cells around `(r, c)`, row by row, left to right.
pub open spec fn neighbourhood(g: Grid, r: int, c: int) -> Seq<Option<Tile>> {
    seq![
        scan_spec(g, r - 1, c - 1), scan_spec(g, r - 1, c), scan_spec(g, r - 1, c + 1),
        scan_spec(g, r, c - 1), scan_spec(g, r, c + 1),
        scan_spec(g, r + 1, c - 1), scan_spec(g, r + 1, c), scan_spec(g, r + 1, c + 1),
    ]
}

/// The present tile of greatest cost of entry (impassable terrain counted at the
/// impassable cost), the first one on ties.
pub open spec fn max_cost_of(s: Seq<Option<Tile>>) -> Option<Tile>
    decreases s.len(),
{
    if s.len() == 0 {
        None
    } else {
        let prev = max_cost_of(s.drop_last());
        match s.last() {
            Some(t) => if prev is None || cost_spec(t) > cost_spec(prev->Some_0) { Some(t) } else { prev },
            None => prev,
        }
    }
}

/// The estimate for cell `(r, c)`: the costliest known neighbour, if it has any.
pub open spec fn estimate(g: Grid, r: int, c: int) -> Option<Tile> {
    max_cost_of(neighbourhood(g, r, c))
}

/// Two grids of one shape that agree on which cells are known and on the known tiles.
pub open spec fn same_knowledge(g1: Grid, g2: Grid) -> bool {
    &&& g1.rows == g2.rows
    &&& g1.cols == g2.cols
    &&& g1.known@ == g2.known@
    &&& g1.tiles@.len() == g2.tiles@.len()
    &&& forall|v: int| 0 <= v < g1.tiles@.len() && g1.known@[v] ==> #[trigger] g1.tiles@[v] == g2.tiles@[v]
}

/// Estimates read known cells only.
pub proof fn lemma_estimate_knowledge(g1: Grid, g2: Grid, r: int, c: int)
    requires
        g1.wf(),
        same_knowledge(g1, g2),
    ensures
        estimate(g1, r, c) == estimate(g2, r, c),
{
    assert forall|dr: int, dc: int| -1 <= dr <= 1 && -1 <= dc <= 1 implies
        #[trigger] scan_spec(g1, r + dr, c + dc) == scan_spec(g2, r + dr, c + dc) by {
        if g1.in_bounds(r + dr, c + dc) {
            lemma_index_bounds(g1.rows as int, g1.cols as int, r + dr, c + dc);
        }
    }
    assert(scan_spec(g1, r - 1, c - 1) == scan_spec(g2, r + -1, c + -1));
    assert(scan_spec(g1, r - 1, c) == scan_spec(g2, r + -1, c + 0));
    assert(scan_spec(g1, r - 1, c + 1) == scan_spec(g2, r + -1, c + 1));
    assert(scan_spec(g1, r, c - 1) == scan_spec(g2, r + 0, c + -1));
    assert(scan_spec(g1, r, c + 1) == scan_spec(g2, r + 0, c + 1));
    assert(scan_spec(g1, r + 1, c - 1) == scan_spec(g2, r + 1, c + -1));
    assert(scan_spec(g1, r + 1, c) == scan_spec(g2, r + 1, c + 0));
    assert(scan_spec(g1, r + 1, c + 1) == scan_spec(g2, r + 1, c + 1));
    assert(neighbourhood(g1, r, c) =~= neighbourhood(g2, r, c));
}

/// The tile at `(r, c)` if that cell exists and is known.
fn scan_matrix(g: &Grid, r: usize, c: usize) -> (t: Option<Tile>)
    requires
        g.wf(),
    ensures
        t == scan_spec(*g, r as int, c as int),
{
    if r < g.rows && c < g.cols {
        let v = cell_index(g.rows, g.cols, r, c);
        if g.known[v] {
            return Some(g.tiles[v]);
        }
    }
    None
}

/// The eight cells around `(x, y)`, as `neighbourhood` orders them.
fn show_neighbor(g: &Grid, x: usize, y: usize) -> (r: Vec<Option<Tile>>)
    requires
        g.wf(),
        x < g.rows,
        y < g.cols,
    ensures
        r@ == neighbourhood(*g, x as int, y as int),
{
    let mut out: Vec<Option<Tile>> = Vec::new();
    let up = x >= 1;
    let left = y >= 1;
    out.push(if up && left { scan_matrix(g, x - 1, y - 1) } else { None });
    out.push(if up { scan_matrix(g, x - 1, y) } else { None });
    out.push(if up { scan_matrix(g, x - 1, y + 1) } else { None });
    out.push(if left { scan_matrix(g, x, y - 1) } else { None });
    out.push(scan_matrix(g, x, y + 1));
    out.push(if left { scan_matrix(g, x + 1, y - 1) } else { None });
    out.push(scan_matrix(g, x + 1, y));
    out.push(scan_matrix(g, x + 1, y + 1));
    assert(out@ =~= neighbourhood(*g, x as int, y as int));
    out
}

/// The present tile of greatest cost of entry, the first one on ties.
fn find_max_in_tuple(tiles: &Vec<Option<Tile>>) -> (r: Option<Tile>)
    ensures
        r == max_cost_of(tiles@),
{
    let mut best: Option<Tile> = None;
    let mut i: usize = 0;
    while i < tiles.len()
        invariant
            i <= tiles@.len(),
            best == max_cost_of(tiles@.subrange(0, i as int)),
        decreases tiles@.len() - i,
    {
        proof {
            assert(tiles@.subrange(0, i + 1).drop_last() =~= tiles@.subrange(0, i as int));
        }
        if let Some(t) = tiles[i] {
            match best {
                None => {
                    best = Some(t);
                },
                Some(b) => {
                    if get_cost(&t) > get_cost(&b) {
                        best = Some(t);
                    }
                },
            }
        }
        i = i + 1;
    }
    assert(tiles@.subrange(0, tiles@.len() as int) =~= tiles@);
    best
}

/// What the estimation pass does to cell `v` of `g`, as it found `g` before the pass:
/// a known cell keeps its tile, an unknown one takes its estimate and stays unknown.
pub open spec fn filled_cell(before: Grid, after: Grid, v: int) -> bool {
    let r = v / before.cols as int;
    let c = v % before.cols as int;
    if before.known@[v] {
        after.tiles@[v] == before.tiles@[v]
    } else {
        estimate(before, r, c) is Some && after.tiles@[v] == estimate(before, r, c)->Some_0
    }
}

/// Cell `v` is unknown and has no known neighbour: only discovery can settle it.
pub open spec fn needs_discovery(g: Grid, v: int) -> bool {
    &&& 0 <= v < g.len()
    &&& !g.known@[v]
    &&& estimate(g, v / g.cols as int, v % g.cols as int) is None
}

/// Runs the estimation pass in row-major order from cell `from` until it comes to a
/// cell that needs discovery, and returns that cell, or the number of cells when the
/// pass is over. Estimated cells take the tile of their costliest known neighbour and
/// stay unknown, so they inform no later estimate.
pub fn fill_until_discovery(grid: &mut Grid, from: usize) -> (r: usize)
    requires
        old(grid).wf(),
        from <= old(grid).len(),
    ensures
        final(grid).wf(),
        same_knowledge(*old(grid), *final(grid)),
        final(grid).rows == old(grid).rows,
        final(grid).cols == old(grid).cols,
        final(grid).known@ == old(grid).known@,
        from <= r <= old(grid).len(),
        r < old(grid).len() ==> needs_discovery(*final(grid), r as int),
        forall|v: int| from <= v < r ==> #[trigger] filled_cell(*old(grid), *final(grid), v),
        forall|v: int| 0 <= v < old(grid).len() && !(from <= v < r) ==> #[trigger] final(grid).tiles@[v]
            == old(grid).tiles@[v],
{
    let ghost g0 = *grid;
    let n = grid.rows * grid.cols;
    let mut v = from;
    while v < n
        invariant_except_break
            forall|w: int| v <= w < n ==> #[trigger] grid.tiles@[w] == g0.tiles@[w],
        invariant
            g0.wf(),
            grid.wf(),
            n == g0.len(),
            grid.rows == g0.rows,
            grid.cols == g0.cols,
            grid.known@ == g0.known@,
            same_knowledge(g0, *grid),
            from <= v <= n,
            forall|w: int| from <= w < v ==> #[trigger] filled_cell(g0, *grid, w),
            forall|w: int| 0 <= w < n && !(from <= w) ==> #[trigger] grid.tiles@[w] == g0.tiles@[w],
        ensures
            v < n ==> needs_discovery(*grid, v as int),
            forall|w: int| v <= w < n ==> #[trigger] grid.tiles@[w] == g0.tiles@[w],
        decreases n - v,
    {
        proof { lemma_index_inverse(grid.rows as int, grid.cols as int, v as int); }
        if !grid.known[v] {
            let x = v / grid.cols;
            let y = v % grid.cols;
            let around = show_neighbor(grid, x, y);
            let guess = find_max_in_tuple(&around);
            proof { lemma_estimate_knowledge(g0, *grid, x as int, y as int); }
            match guess {
                None => {
                    break;
                },
                Some(t) => {
                    let ghost prev = *grid;
                    grid.tiles.set(v, t);
                    proof {
                        assert forall|w: int| 0 <= w < grid.tiles@.len() && g0.known@[w] implies
                            #[trigger] g0.tiles@[w] == grid.tiles@[w] by {
                            assert(prev.tiles@[w] == g0.tiles@[w]);
                        }
                        assert forall|w: int| from <= w < v + 1 implies #[trigger] filled_cell(g0, *grid, w) by {
                            if w < v {
                                assert(filled_cell(g0, prev, w));
                            }
                        }
                    }
                },
            }
        }
        v = v + 1;
    }
    v
}

/// Records the discovered tile of cell `v`, which becomes known.
pub fn record_discovery(grid: &mut Grid, v: usize, tile: Tile)
    requires
        old(grid).wf(),
        v < old(grid).len(),
    ensures
        final(grid).wf(),
        final(grid).rows == old(grid).rows,
        final(grid).cols == old(grid).cols,
        final(grid).tiles@ == old(grid).tiles@.update(v as int, tile),
        final(grid).known@ == old(grid).known@.update(v as int, true),
{
    grid.tiles.set(v, tile);
    grid.known.set(v, true);
}

} // verus!

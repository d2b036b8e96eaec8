use vstd::prelude::*;
use crate::tile::Tile;
use crate::grid::{Grid, cell_index, index_of, lemma_index_bounds};

verus! {

/// Converts between world coordinates `(row, column)` and the local indices of a grid
/// whose cell `(0, 0)` lies at `origin` in the world.
#[derive(Clone, Copy, Debug, PartialEq, Eq, Structural)]
pub struct Frame {
    pub origin_row: i32,
    pub origin_col: i32,
}

impl Frame {
    pub open spec fn local_spec(&self, p: (i32, i32)) -> (int, int) {
        (p.0 - self.origin_row, p.1 - self.origin_col)
    }

    pub open spec fn world_spec(&self, r: int, c: int) -> (int, int) {
        (r + self.origin_row, c + self.origin_col)
    }

    /// The local indices of world cell `p`, which lies in the grid's box.
    pub fn to_local(&self, p: (i32, i32)) -> (r: (usize, usize))
        requires
            p.0 >= self.origin_row,
            p.1 >= self.origin_col,
        ensures
            (r.0 as int, r.1 as int) == self.local_spec(p),
    {
        ((p.0 as i64 - self.origin_row as i64) as usize, (p.1 as i64 - self.origin_col as i64) as usize)
    }

    /// The world cell at local indices `(r, c)`.
    pub fn to_world(&self, r: usize, c: usize) -> (w: (i32, i32))
        requires
            self.origin_row + r <= i32::MAX,
            self.origin_col + c <= i32::MAX,
        ensures
            (w.0 as int, w.1 as int) == self.world_spec(r as int, c as int),
    {
        ((self.origin_row as i64 + r as i64) as i32, (self.origin_col as i64 + c as i64) as i32)
    }
}

/// Going to local indices and back gives the same world cell.
pub proof fn lemma_frame_round_trip(f: Frame, p: (i32, i32))
    ensures
        f.world_spec(f.local_spec(p).0, f.local_spec(p).1) == (p.0 as int, p.1 as int),
{
}

/// Least of a non-empty sequence.
pub open spec fn min_of(s: Seq<int>) -> int
    decreases s.len(),
{
    if s.len() <= 1 {
        s[0]
    } else if s.last() < min_of(s.drop_last()) {
        s.last()
    } else {
        min_of(s.drop_last())
    }
}

/// Greatest of a non-empty sequence.
pub open spec fn max_of(s: Seq<int>) -> int
    decreases s.len(),
{
    if s.len() <= 1 {
        s[0]
    } else if s.last() > max_of(s.drop_last()) {
        s.last()
    } else {
        max_of(s.drop_last())
    }
}

proof fn lemma_min_max_bound(s: Seq<int>, j: int)
    requires
        0 <= j < s.len(),
    ensures
        min_of(s) <= s[j] <= max_of(s),
    decreases s.len(),
{
    if s.len() > 1 && j < s.len() - 1 {
        lemma_min_max_bound(s.drop_last(), j);
    }
}

proof fn lemma_min_max_range(s: Seq<int>, lo: int, hi: int)
    requires
        s.len() >= 1,
        forall|j: int| 0 <= j < s.len() ==> lo <= #[trigger] s[j] <= hi,
    ensures
        lo <= min_of(s) <= hi,
        lo <= max_of(s) <= hi,
    decreases s.len(),
{
    if s.len() > 1 {
        lemma_min_max_range(s.drop_last(), lo, hi);
    }
}

/// The cells a plan must cover: those of the known records, the targets and the start.
pub open spec fn points(known: Seq<((i32, i32), Tile)>, targets: Seq<(i32, i32)>, start: (i32, i32)) -> Seq<(i32, i32)> {
    known.map_values(|k: ((i32, i32), Tile)| k.0) + targets + seq![start]
}

pub open spec fn rows_of(pts: Seq<(i32, i32)>) -> Seq<int> {
    pts.map_values(|p: (i32, i32)| p.0 as int)
}

pub open spec fn cols_of(pts: Seq<(i32, i32)>) -> Seq<int> {
    pts.map_values(|p: (i32, i32)| p.1 as int)
}

/// The frame of the least box that holds every point.
pub open spec fn frame_of(pts: Seq<(i32, i32)>) -> Frame {
    Frame { origin_row: min_of(rows_of(pts)) as i32, origin_col: min_of(cols_of(pts)) as i32 }
}

pub open spec fn box_rows(pts: Seq<(i32, i32)>) -> int {
    max_of(rows_of(pts)) - min_of(rows_of(pts)) + 1
}

pub open spec fn box_cols(pts: Seq<(i32, i32)>) -> int {
    max_of(cols_of(pts)) - min_of(cols_of(pts)) + 1
}

/// The box around `pts` has few enough cells to index.
pub open spec fn fits(pts: Seq<(i32, i32)>) -> bool {
    box_rows(pts) * box_cols(pts) <= usize::MAX
}

/// The tile of the last known record at local cell `(r, c)` of `frame`, if any.
pub open spec fn last_known(known: Seq<((i32, i32), Tile)>, frame: Frame, r: int, c: int) -> Option<Tile>
    decreases known.len(),
{
    if known.len() == 0 {
        None
    } else if frame.local_spec(known.last().0) == (r, c) {
        Some(known.last().1)
    } else {
        last_known(known.drop_last(), frame, r, c)
    }
}

/// `g` is the grid of the least box around `pts`, in `frame`, holding the last known
/// record of each cell, marked known, and impassable terrain, unknown, elsewhere.
pub open spec fn normalized(g: Grid, frame: Frame, known: Seq<((i32, i32), Tile)>, pts: Seq<(i32, i32)>) -> bool {
    &&& g.wf()
    &&& frame == frame_of(pts)
    &&& g.rows == box_rows(pts)
    &&& g.cols == box_cols(pts)
    &&& forall|r: int, c: int| #![trigger index_of(g.cols as int, r, c)] g.in_bounds(r, c) ==> {
        &&& g.tiles@[index_of(g.cols as int, r, c)] == match last_known(known, frame, r, c) {
            Some(t) => t,
            None => Tile::impassable_spec(),
        }
        &&& g.known@[index_of(g.cols as int, r, c)] == last_known(known, frame, r, c) is Some
    }
}

/// Every point of a plan lies inside the box of its frame.
pub proof fn lemma_points_in_box(pts: Seq<(i32, i32)>, j: int)
    requires
        0 <= j < pts.len(),
    ensures
        frame_of(pts).local_spec(pts[j]).0 >= 0,
        frame_of(pts).local_spec(pts[j]).1 >= 0,
        frame_of(pts).local_spec(pts[j]).0 < box_rows(pts),
        frame_of(pts).local_spec(pts[j]).1 < box_cols(pts),
        frame_of(pts).origin_row + box_rows(pts) - 1 <= i32::MAX,
        frame_of(pts).origin_col + box_cols(pts) - 1 <= i32::MAX,
{
    lemma_min_max_range(rows_of(pts), i32::MIN as int, i32::MAX as int);
    lemma_min_max_range(cols_of(pts), i32::MIN as int, i32::MAX as int);
    lemma_min_max_bound(rows_of(pts), j);
    lemma_min_max_bound(cols_of(pts), j);
    lemma_min_max_bound(rows_of(pts), 0);
    lemma_min_max_bound(cols_of(pts), 0);
}


/// The grid of the least box around the known records, the targets and the start, filled
/// with impassable terrain and then with the known records, later ones over earlier.
/// `None` when the box has more cells than can be indexed.
pub fn from_vec_to_matrix(known: &Vec<((i32, i32), Tile)>, targets: &Vec<(i32, i32)>, start: (i32, i32)) -> (r: Option<(
    Grid,
    Frame,
)>)
    requires
        targets@.len() > 0,
    ensures
        r is Some <==> fits(points(known@, targets@, start)),
        r matches Some(gf) ==> normalized(gf.0, gf.1, known@, points(known@, targets@, start)),
{
    let ghost all = points(known@, targets@, start);
    let mut pts: Vec<(i32, i32)> = Vec::new();
    let mut i: usize = 0;
    while i < known.len()
        invariant
            i <= known@.len(),
            pts@ == known@.subrange(0, i as int).map_values(|k: ((i32, i32), Tile)| k.0),
        decreases known@.len() - i,
    {
        pts.push(known[i].0);
        proof {
            assert(pts@ =~= known@.subrange(0, i + 1).map_values(|k: ((i32, i32), Tile)| k.0));
        }
        i = i + 1;
    }
    assert(known@.subrange(0, known@.len() as int) =~= known@);
    let mut j: usize = 0;
    while j < targets.len()
        invariant
            j <= targets@.len(),
            pts@ == known@.map_values(|k: ((i32, i32), Tile)| k.0) + targets@.subrange(0, j as int),
        decreases targets@.len() - j,
    {
        pts.push(targets[j]);
        proof {
            assert(pts@ =~= known@.map_values(|k: ((i32, i32), Tile)| k.0) + targets@.subrange(0, j + 1));
        }
        j = j + 1;
    }
    assert(targets@.subrange(0, targets@.len() as int) =~= targets@);
    pts.push(start);
    assert(pts@ =~= all);

    let mut lo_r: i32 = pts[0].0;
    let mut hi_r: i32 = pts[0].0;
    let mut lo_c: i32 = pts[0].1;
    let mut hi_c: i32 = pts[0].1;
    let mut k: usize = 1;
    proof {
        assert(rows_of(pts@.subrange(0, 1)) =~= seq![pts@[0].0 as int]);
        assert(cols_of(pts@.subrange(0, 1)) =~= seq![pts@[0].1 as int]);
    }
    while k < pts.len()
        invariant
            1 <= k <= pts@.len(),
            lo_r == min_of(rows_of(pts@.subrange(0, k as int))),
            hi_r == max_of(rows_of(pts@.subrange(0, k as int))),
            lo_c == min_of(cols_of(pts@.subrange(0, k as int))),
            hi_c == max_of(cols_of(pts@.subrange(0, k as int))),
        decreases pts@.len() - k,
    {
        let p = pts[k];
        proof {
            assert(rows_of(pts@.subrange(0, k + 1)).drop_last() =~= rows_of(pts@.subrange(0, k as int)));
            assert(cols_of(pts@.subrange(0, k + 1)).drop_last() =~= cols_of(pts@.subrange(0, k as int)));
        }
        if p.0 < lo_r {
            lo_r = p.0;
        }
        if p.0 > hi_r {
            hi_r = p.0;
        }
        if p.1 < lo_c {
            lo_c = p.1;
        }
        if p.1 > hi_c {
            hi_c = p.1;
        }
        k = k + 1;
    }
    assert(pts@.subrange(0, pts@.len() as int) =~= pts@);
    proof {
        lemma_min_max_bound(rows_of(all), 0);
        lemma_min_max_bound(cols_of(all), 0);
        assert(lo_r == min_of(rows_of(all)));
        assert(hi_r == max_of(rows_of(all)));
        assert(lo_c == min_of(cols_of(all)));
        assert(hi_c == max_of(cols_of(all)));
        assert(rows_of(all).len() > 0);
        assert(lo_r <= hi_r);
        assert(lo_c <= hi_c);
    }
    let rows_wide = (hi_r as i64 - lo_r as i64 + 1) as u128;
    let cols_wide = (hi_c as i64 - lo_c as i64 + 1) as u128;
    assert(rows_wide * cols_wide <= 0x1_0000_0000u128 * 0x1_0000_0000u128) by (nonlinear_arith)
        requires 1 <= rows_wide <= 0x1_0000_0000u128, 1 <= cols_wide <= 0x1_0000_0000u128;
    if rows_wide * cols_wide > usize::MAX as u128 {
        return None;
    }
    proof {
        let br = box_rows(all);
        let bc = box_cols(all);
        assert(br <= usize::MAX && bc <= usize::MAX) by (nonlinear_arith)
            requires br >= 1, bc >= 1, br * bc <= usize::MAX;
    }
    let rows = rows_wide as usize;
    let cols = cols_wide as usize;
    assert(rows == box_rows(all));
    assert(cols == box_cols(all));
    assert(rows * cols <= usize::MAX);
    let n = rows * cols;
    let frame = Frame { origin_row: lo_r, origin_col: lo_c };
    let mut tiles: Vec<Tile> = Vec::new();
    let mut mask: Vec<bool> = Vec::new();
    let mut m: usize = 0;
    while m < n
        invariant
            m <= n,
            tiles@ == Seq::new(m as nat, |x: int| Tile::impassable_spec()),
            mask@ == Seq::new(m as nat, |x: int| false),
        decreases n - m,
    {
        tiles.push(Tile::impassable());
        mask.push(false);
        m = m + 1;
    }
    let mut grid = Grid { rows, cols, tiles, known: mask };
    proof {
        assert(known@.subrange(0, 0) =~= Seq::<((i32, i32), Tile)>::empty());
        assert forall|r: int, c: int| #![trigger index_of(cols as int, r, c)] grid.in_bounds(r, c) implies {
            &&& grid.tiles@[index_of(cols as int, r, c)] == match last_known(known@.subrange(0, 0), frame, r, c) {
                Some(t) => t,
                None => Tile::impassable_spec(),
            }
            &&& grid.known@[index_of(cols as int, r, c)] == last_known(known@.subrange(0, 0), frame, r, c) is Some
        } by {
            lemma_index_bounds(rows as int, cols as int, r, c);
        }
    }
    let mut i: usize = 0;
    while i < known.len()
        invariant
            grid.wf(),
            grid.rows == rows,
            grid.cols == cols,
            frame == frame_of(all),
            rows == box_rows(all),
            cols == box_cols(all),
            all == points(known@, targets@, start),
            i <= known@.len(),
            forall|r: int, c: int| #![trigger index_of(cols as int, r, c)] grid.in_bounds(r, c) ==> {
                &&& grid.tiles@[index_of(cols as int, r, c)] == match last_known(known@.subrange(0, i as int), frame, r, c) {
                    Some(t) => t,
                    None => Tile::impassable_spec(),
                }
                &&& grid.known@[index_of(cols as int, r, c)] == last_known(known@.subrange(0, i as int), frame, r, c) is Some
            },
        decreases known@.len() - i,
    {
        let (p, tile) = known[i];
        proof {
            lemma_points_in_box(all, i as int);
            assert(all[i as int] == p);
        }
        let (r0, c0) = frame.to_local(p);
        let idx = cell_index(rows, cols, r0, c0);
        let ghost prev = grid;
        grid.tiles.set(idx, tile);
        grid.known.set(idx, true);
        proof {
            assert(known@.subrange(0, i + 1).drop_last() =~= known@.subrange(0, i as int));
            assert forall|r: int, c: int| #![trigger index_of(cols as int, r, c)] grid.in_bounds(r, c) implies {
                &&& grid.tiles@[index_of(cols as int, r, c)] == match last_known(known@.subrange(0, i + 1), frame, r, c) {
                    Some(t) => t,
                    None => Tile::impassable_spec(),
                }
                &&& grid.known@[index_of(cols as int, r, c)] == last_known(known@.subrange(0, i + 1), frame, r, c) is Some
            } by {
                lemma_index_bounds(rows as int, cols as int, r, c);
                lemma_index_bounds(rows as int, cols as int, r0 as int, c0 as int);
                assert(prev.in_bounds(r, c));
            }
        }
        i = i + 1;
    }
    assert(known@.subrange(0, known@.len() as int) =~= known@);
    Some((grid, frame))
}

} // verus!

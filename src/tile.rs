use vstd::prelude::*;

verus! {

/// Traversal cost charged for entering a cell that can never be walked on.
pub const IMPASSABLE_COST: u32 = 100000;

/// One grid cell: its terrain cost, whether it can be walked on, and its elevation.
#[derive(Clone, Copy, Debug, PartialEq, Eq, Structural)]
pub struct Tile {
    pub walkable: bool,
    pub cost: u32,
    pub elevation: u32,
}

/// A unit move on the grid.
#[derive(Clone, Copy, Debug, PartialEq, Eq, Structural)]
pub enum Direction {
    Up,
    Down,
    Left,
    Right,
}

impl Tile {
    pub open spec fn impassable_spec() -> Tile {
        Tile { walkable: false, cost: 0, elevation: 0 }
    }

    /// The terrain that fills a cell nothing is known about.
    pub fn impassable() -> (r: Tile)
        ensures
            r == Tile::impassable_spec(),
    {
        Tile { walkable: false, cost: 0, elevation: 0 }
    }
}

/// Cost of entering `t`: its terrain cost, or the impassable cost.
pub open spec fn cost_spec(t: Tile) -> nat {
    if t.walkable { t.cost as nat } else { IMPASSABLE_COST as nat }
}

/// Extra cost of climbing from `from` onto `to`: the square of the rise.
pub open spec fn elevation_penalty_spec(to: Tile, from: Tile) -> nat {
    if to.elevation <= from.elevation {
        0
    } else {
        ((to.elevation - from.elevation) * (to.elevation - from.elevation)) as nat
    }
}

/// Weight of the edge from a cell holding `from` to a neighbour holding `to`.
pub open spec fn edge_weight_spec(to: Tile, from: Tile) -> nat {
    cost_spec(to) + elevation_penalty_spec(to, from)
}

pub proof fn lemma_edge_weight_bound(to: Tile, from: Tile)
    ensures
        edge_weight_spec(to, from) <= MAX_EDGE_WEIGHT,
{
    if to.elevation > from.elevation {
        let d = (to.elevation - from.elevation) as int;
        assert(d * d <= 0xffff_fffe_0000_0001int) by (nonlinear_arith) requires 0 < d <= 0xffff_ffffint;
    }
}

/// Raising a cell, all else equal, never makes stepping onto it cheaper; raising it
/// further above the cell one steps from makes stepping onto it strictly dearer.
pub proof fn lemma_raising_never_cheapens_entry(to: Tile, raised: Tile, from: Tile)
    requires
        raised.walkable == to.walkable,
        raised.cost == to.cost,
        raised.elevation >= to.elevation,
    ensures
        edge_weight_spec(raised, from) >= edge_weight_spec(to, from),
        raised.elevation > to.elevation && raised.elevation > from.elevation
            ==> edge_weight_spec(raised, from) > edge_weight_spec(to, from),
{
    let f = from.elevation as int;
    let a = to.elevation as int;
    let b = raised.elevation as int;
    if b > f {
        if a > f {
            assert((a - f) * (a - f) <= (b - f) * (b - f)) by (nonlinear_arith) requires f < a <= b;
            assert(b > a ==> (a - f) * (a - f) < (b - f) * (b - f)) by (nonlinear_arith) requires f < a <= b;
        } else {
            assert((b - f) * (b - f) > 0) by (nonlinear_arith) requires b > f;
        }
    }
}

pub fn get_cost(tile: &Tile) -> (r: u64)
    ensures
        r == cost_spec(*tile),
{
    if tile.walkable { tile.cost as u64 } else { IMPASSABLE_COST as u64 }
}

pub fn is_walkable(tile: &Tile) -> (r: bool)
    ensures
        r == tile.walkable,
{
    tile.walkable
}

pub fn get_cost_elevation(tile_arrive: &Tile, tile_start: &Tile) -> (r: u64)
    ensures
        r == elevation_penalty_spec(*tile_arrive, *tile_start),
        r <= 0xffff_fffe_0000_0001u64,
{
    if tile_arrive.elevation <= tile_start.elevation {
        return 0;
    }
    let d: u64 = (tile_arrive.elevation - tile_start.elevation) as u64;
    assert(d * d <= 0xffff_fffe_0000_0001u64) by (nonlinear_arith)
        requires d <= 0xffff_ffffu64;
    d * d
}

/// Largest weight an edge can carry.
pub const MAX_EDGE_WEIGHT: u64 = 0xffff_ffff_0000_0000;

pub fn edge_weight(to: &Tile, from: &Tile) -> (r: u64)
    ensures
        r == edge_weight_spec(*to, *from),
        r <= MAX_EDGE_WEIGHT,
{
    get_cost(to) + get_cost_elevation(to, from)
}

} // verus!

use vstd::prelude::*;
use crate::tile::{Tile, Direction};
use crate::grid::{Grid, CoordinateMap, get_coordinates, index_of, lemma_index_bounds, lemma_index_inverse};
use crate::graph::{change_matrix, graph_of, cell_edges, neighbour_edges, edge_to, vertices_of, open_side, lemma_cell_edges_sides};
use crate::normalize::{Frame, from_vec_to_matrix, normalized, points, fits, lemma_points_in_box};
use crate::fill::{fill_until_discovery, record_discovery, needs_discovery, same_knowledge, filled_cell};
use crate::search::{find_connected_targets, reachable, has_edge, symmetric};
use crate::route::{build_path, edges_adjacent, step_ok, routes_nearest_first};

verus! {

/// Side-by-side cells of a grid are one move apart.
proof fn lemma_side_by_side(g: Grid, cm: CoordinateMap, r: int, c: int, nr: int, nc: int)
    requires
        g.wf(),
        cm.rows == g.rows,
        cm.cols == g.cols,
        g.in_bounds(r, c),
        g.in_bounds(nr, nc),
        (nr == r && (nc == c + 1 || nc == c - 1)) || (nc == c && (nr == r + 1 || nr == r - 1)),
    ensures
        step_ok(cm, index_of(g.cols as int, r, c), index_of(g.cols as int, nr, nc)),
{
    lemma_index_bounds(g.rows as int, g.cols as int, r, c);
    lemma_index_bounds(g.rows as int, g.cols as int, nr, nc);
}

/// The edges leaving one cell join it to side-by-side cells.
proof fn lemma_cell_edges_adjacent(g: Grid, cm: CoordinateMap, r: int, c: int)
    requires
        g.wf(),
        cm.rows == g.rows,
        cm.cols == g.cols,
        g.in_bounds(r, c),
    ensures
        forall|k: int| 0 <= k < cell_edges(g, r, c).len() ==> step_ok(
            cm,
            index_of(g.cols as int, r, c),
            (#[trigger] cell_edges(g, r, c)[k]).index as int,
        ),
{
    reveal(neighbour_edges);
    let u = index_of(g.cols as int, r, c);
    if r >= 1 {
        lemma_side_by_side(g, cm, r, c, r - 1, c);
        lemma_index_bounds(g.rows as int, g.cols as int, r - 1, c);
    }
    if r + 1 < g.rows {
        lemma_side_by_side(g, cm, r, c, r + 1, c);
        lemma_index_bounds(g.rows as int, g.cols as int, r + 1, c);
    }
    if c >= 1 {
        lemma_side_by_side(g, cm, r, c, r, c - 1);
        lemma_index_bounds(g.rows as int, g.cols as int, r, c - 1);
    }
    if c + 1 < g.cols {
        lemma_side_by_side(g, cm, r, c, r, c + 1);
        lemma_index_bounds(g.rows as int, g.cols as int, r, c + 1);
    }
}

/// The edges of a grid's graph join side-by-side cells.
pub proof fn lemma_grid_edges_adjacent(g: Grid, graph: Seq<Vec<crate::graph::Node>>, cm: CoordinateMap)
    requires
        g.wf(),
        graph_of(g, graph),
        cm.rows == g.rows,
        cm.cols == g.cols,
    ensures
        edges_adjacent(cm, graph),
{
    assert forall|u: int, k: int| 0 <= u < graph.len() && 0 <= k < graph[u]@.len()
        implies step_ok(cm, u, (#[trigger] graph[u]@[k]).index as int) by {
        lemma_index_inverse(g.rows as int, g.cols as int, u);
        let r = u / g.cols as int;
        let c = u % g.cols as int;
        assert(graph[index_of(g.cols as int, r, c)]@ == cell_edges(g, r, c));
        lemma_cell_edges_adjacent(g, cm, r, c);
        assert(graph[u]@[k] == cell_edges(g, r, c)[k]);
    }
}

/// Every edge of a grid's graph has an edge back: both its cells are walkable and side by side.
pub proof fn lemma_grid_graph_symmetric(g: Grid, graph: Seq<Vec<crate::graph::Node>>)
    requires
        g.wf(),
        graph_of(g, graph),
    ensures
        symmetric(graph),
{
    assert forall|u: int, v: int| 0 <= u < graph.len() && #[trigger] has_edge(graph, u, v) implies has_edge(graph, v, u) by {
        lemma_index_inverse(g.rows as int, g.cols as int, u);
        let r = u / g.cols as int;
        let c = u % g.cols as int;
        assert(graph[index_of(g.cols as int, r, c)]@ == cell_edges(g, r, c));
        let k = choose|k: int| 0 <= k < graph[u]@.len() && (#[trigger] graph[u]@[k]).index == v;
        assert(g.tile(r, c).walkable);
        lemma_cell_edges_sides(g, r, c);
        assert(cell_edges(g, r, c)[k] == graph[u]@[k]);
        let (nr, nc) = choose|nr: int, nc: int|
            open_side(g, r, c, nr, nc) && (#[trigger] cell_edges(g, r, c)[k]).index == index_of(g.cols as int, nr, nc);
        lemma_index_bounds(g.rows as int, g.cols as int, nr, nc);
        assert(graph[index_of(g.cols as int, nr, nc)]@ == cell_edges(g, nr, nc));
        lemma_cell_edges_sides(g, nr, nc);
        assert(open_side(g, nr, nc, r, c));
        let k2 = choose|k2: int| 0 <= k2 < cell_edges(g, nr, nc).len()
            && (#[trigger] cell_edges(g, nr, nc)[k2]).index == index_of(g.cols as int, r, c);
        assert(graph[v]@[k2].index == u);
    }
}

/// The vertices of `targets` that some walk from `start` reaches in `graph`, in order.
pub open spec fn reachable_targets(
    g: Grid,
    graph: Seq<Vec<crate::graph::Node>>,
    start: (usize, usize),
    targets: Seq<(usize, usize)>,
) -> Seq<usize> {
    vertices_of(g.cols as int, targets).filter(
        |t: usize| reachable(graph, index_of(g.cols as int, start.0 as int, start.1 as int), t as int),
    )
}

/// `segs` is a route on `g` from `start` that visits, nearest first, every target that
/// some walk from `start` reaches in the graph of `g`, and no other (see `route_ok`,
/// `covers` and `nearest_first`).
pub open spec fn plans_route(g: Grid, start: (usize, usize), targets: Seq<(usize, usize)>, segs: Seq<Vec<Direction>>) -> bool {
    exists|graph: Seq<Vec<crate::graph::Node>>| #[trigger] graph_of(g, graph) && routes_nearest_first(
        CoordinateMap { rows: g.rows, cols: g.cols },
        graph,
        index_of(g.cols as int, start.0 as int, start.1 as int) as usize,
        reachable_targets(g, graph, start, targets),
        segs,
    )
}

/// `plan` has just been prepared from the known records, the targets and the start: its
/// grid is their normalized grid, its targets and start are their local cells, and the
/// estimation pass has not begun.
pub open spec fn prepared(plan: Plan, known: Seq<((i32, i32), Tile)>, targets: Seq<(i32, i32)>, start: (i32, i32)) -> bool {
    &&& plan.wf()
    &&& plan.next == 0
    &&& normalized(plan.grid, plan.frame, known, points(known, targets, start))
    &&& plan.targets@.len() == targets.len()
    &&& forall|i: int| 0 <= i < targets.len() ==> (#[trigger] plan.targets@[i]).0 as int
        == plan.frame.local_spec(targets[i]).0 && plan.targets@[i].1 as int == plan.frame.local_spec(targets[i]).1
    &&& (plan.start.0 as int, plan.start.1 as int) == plan.frame.local_spec(start)
}

/// The planner's entry points.
pub struct BestPath {}

/// A planning call in progress: the normalized grid, its frame, the targets and start as
/// local cells, and how far the estimation pass has come.
pub struct Plan {
    pub grid: Grid,
    pub frame: Frame,
    pub targets: Vec<(usize, usize)>,
    pub start: (usize, usize),
    pub next: usize,
}

impl Plan {
    pub open spec fn wf(&self) -> bool {
        &&& self.grid.wf()
        &&& self.grid.in_bounds(self.start.0 as int, self.start.1 as int)
        &&& forall|i: int| 0 <= i < self.targets@.len() ==> self.grid.in_bounds(
            (#[trigger] self.targets@[i]).0 as int,
            self.targets@[i].1 as int,
        )
        &&& self.next <= self.grid.len()
        &&& self.frame.origin_row + self.grid.rows - 1 <= i32::MAX
        &&& self.frame.origin_col + self.grid.cols - 1 <= i32::MAX
    }

    /// The estimation pass has stopped at a cell that needs discovery.
    pub open spec fn awaits_discovery(&self) -> bool {
        needs_discovery(self.grid, self.next as int)
    }

    /// The world cell of local vertex `v`.
    pub open spec fn world_of(&self, v: int) -> (int, int) {
        self.frame.world_spec(v / self.grid.cols as int, v % self.grid.cols as int)
    }

    /// Runs the estimation pass on to the next cell that needs discovery and returns its
    /// world cell, or `None` when every cell has been settled.
    pub fn next_discovery(&mut self) -> (r: Option<(i32, i32)>)
        requires
            old(self).wf(),
        ensures
            final(self).wf(),
            same_knowledge(old(self).grid, final(self).grid),
            final(self).targets@ == old(self).targets@,
            final(self).start == old(self).start,
            final(self).frame == old(self).frame,
            old(self).next <= final(self).next,
            forall|v: int| old(self).next <= v < final(self).next ==> #[trigger] filled_cell(old(self).grid, final(self).grid, v),
            forall|v: int| 0 <= v < old(self).grid.len() && !(old(self).next <= v < final(self).next)
                ==> #[trigger] final(self).grid.tiles@[v] == old(self).grid.tiles@[v],
            r is None <==> final(self).next == final(self).grid.len(),
            r matches Some(p) ==> final(self).awaits_discovery()
                && (p.0 as int, p.1 as int) == final(self).world_of(final(self).next as int),
    {
        let v = fill_until_discovery(&mut self.grid, self.next);
        self.next = v;
        if v < self.grid.rows * self.grid.cols {
            proof { lemma_index_inverse(self.grid.rows as int, self.grid.cols as int, v as int); }
            Some(self.frame.to_world(v / self.grid.cols, v % self.grid.cols))
        } else {
            None
        }
    }

    /// Records the discovered tile of the cell the pass stopped at, and moves past it.
    pub fn discovered(&mut self, tile: Tile)
        requires
            old(self).wf(),
            old(self).next < old(self).grid.len(),
        ensures
            final(self).wf(),
            final(self).grid.tiles@ == old(self).grid.tiles@.update(old(self).next as int, tile),
            final(self).grid.known@ == old(self).grid.known@.update(old(self).next as int, true),
            final(self).next == old(self).next + 1,
            final(self).targets@ == old(self).targets@,
            final(self).start == old(self).start,
            final(self).frame == old(self).frame,
    {
        record_discovery(&mut self.grid, self.next, tile);
        self.next = self.next + 1;
    }

    /// The moves that visit every target reachable from the start, nearest remaining
    /// target first, one segment per target visited.
    pub fn route(&self) -> (r: Vec<Vec<Direction>>)
        requires
            self.wf(),
        ensures
            plans_route(self.grid, self.start, self.targets@, r@),
    {
        let (graph, target_nodes, start) = change_matrix(&self.grid, &self.targets, self.start);
        let coordinates = get_coordinates(&self.grid);
        proof {
            lemma_grid_edges_adjacent(self.grid, graph@, coordinates);
            lemma_index_bounds(self.grid.rows as int, self.grid.cols as int, self.start.0 as int, self.start.1 as int);
            assert forall|i: int| 0 <= i < target_nodes@.len() implies (#[trigger] target_nodes@[i]) < graph@.len() by {
                let p = self.targets@[i];
                lemma_index_bounds(self.grid.rows as int, self.grid.cols as int, p.0 as int, p.1 as int);
            }
        }
        let reachable_targets = find_connected_targets(&graph, start, &target_nodes);
        proof {
            lemma_grid_graph_symmetric(self.grid, graph@);
            assert forall|i: int| 0 <= i < reachable_targets@.len() implies (#[trigger] reachable_targets@[i]) < graph@.len() by {
                target_nodes@.lemma_filter_contains_rev(|t: usize| reachable(graph@, start as int, t as int), reachable_targets@[i]);
                assert(target_nodes@.filter(|t: usize| reachable(graph@, start as int, t as int)).contains(reachable_targets@[i]));
            }
        }
        match build_path(&graph, start, reachable_targets, &coordinates) {
            Ok(paths) => {
                assert(coordinates == CoordinateMap { rows: self.grid.rows, cols: self.grid.cols });
                assert(graph_of(self.grid, graph@));
                paths
            },
            Err(_) => vec![Vec::new()],
        }
    }
}

impl BestPath {
    /// Starts a planning call: the grid of the least box around the known records, the
    /// targets and the start, with the known records in it.
    /// `None` when the box has more cells than can be indexed.
    pub fn prepare(known: &Vec<((i32, i32), Tile)>, targets: &Vec<(i32, i32)>, start: (i32, i32)) -> (r: Option<Plan>)
        requires
            targets@.len() > 0,
        ensures
            r is Some <==> fits(points(known@, targets@, start)),
            r matches Some(plan) ==> prepared(plan, known@, targets@, start),
    {
        let ghost all = points(known@, targets@, start);
        let (grid, frame) = match from_vec_to_matrix(known, targets, start) {
            Some(gf) => gf,
            None => {
                return None;
            },
        };
        let mut local: Vec<(usize, usize)> = Vec::new();
        let mut i: usize = 0;
        while i < targets.len()
            invariant
                all == points(known@, targets@, start),
                normalized(grid, frame, known@, all),
                i <= targets@.len(),
                local@.len() == i,
                forall|j: int| 0 <= j < i ==> (#[trigger] local@[j]).0 as int == frame.local_spec(targets@[j]).0
                    && local@[j].1 as int == frame.local_spec(targets@[j]).1,
                forall|j: int| 0 <= j < i ==> grid.in_bounds((#[trigger] local@[j]).0 as int, local@[j].1 as int),
            decreases targets@.len() - i,
        {
            proof {
                lemma_points_in_box(all, known@.len() + i);
                assert(all[known@.len() + i] == targets@[i as int]);
            }
            local.push(frame.to_local(targets[i]));
            i = i + 1;
        }
        proof {
            lemma_points_in_box(all, all.len() - 1);
            assert(all[all.len() - 1] == start);
        }
        let s = frame.to_local(start);
        Some(Plan { grid, frame, targets: local, start: s, next: 0 })
    }

    /// Plans on what is known alone: cells of the box with no known record stay
    /// impassable. No segments when the box has more cells than can be indexed.
    pub fn shortest_path(known: &Vec<((i32, i32), Tile)>, targets: &Vec<(i32, i32)>, start: (i32, i32)) -> (r: Vec<Vec<Direction>>)
        requires
            targets@.len() > 0,
        ensures
            !fits(points(known@, targets@, start)) ==> r@.len() == 0,
            fits(points(known@, targets@, start)) ==> exists|p: Plan| #[trigger] prepared(p, known@, targets@, start)
                && plans_route(p.grid, p.start, p.targets@, r@),
    {
        match BestPath::prepare(known, targets, start) {
            Some(plan) => plan.route(),
            None => Vec::new(),
        }
    }
}


/// A plan never ends a leg at a target that no walk from the start reaches in the
/// grid's graph: such a target is left out of the route.
pub proof fn lemma_unreachable_target_left_out(
    g: Grid,
    start: (usize, usize),
    targets: Seq<(usize, usize)>,
    segs: Seq<Vec<Direction>>,
    graph: Seq<Vec<crate::graph::Node>>,
    t: usize,
)
    requires
        g.wf(),
        plans_route(g, start, targets, segs),
        graph_of(g, graph),
        !reachable(graph, index_of(g.cols as int, start.0 as int, start.1 as int), t as int),
    ensures
        forall|visits: Seq<usize>| #[trigger] crate::route::route_ok(
            CoordinateMap { rows: g.rows, cols: g.cols },
            index_of(g.cols as int, start.0 as int, start.1 as int) as usize,
            reachable_targets(g, graph, start, targets),
            visits,
            segs,
        ) ==> !visits.contains(t),
{
    let s = index_of(g.cols as int, start.0 as int, start.1 as int);
    let ts = vertices_of(g.cols as int, targets);
    let f = reachable_targets(g, graph, start, targets);
    assert forall|visits: Seq<usize>| #[trigger] crate::route::route_ok(
        CoordinateMap { rows: g.rows, cols: g.cols },
        s as usize,
        f,
        visits,
        segs,
    ) implies !visits.contains(t) by {
        if visits.contains(t) {
            let i = choose|i: int| 0 <= i < visits.len() && visits[i] == t;
            assert(f.contains(visits[i]));
            let j = choose|j: int| 0 <= j < f.len() && f[j] == t;
            broadcast use vstd::seq_lib::group_filter_ensures;
            assert(f[j] == t);
        }
    }
}


/// Moves replayed from a local cell end at the local cell of where they end when
/// replayed from its world cell: a route's legs land on the same targets in either frame.
pub proof fn lemma_replay_in_world(frame: Frame, r: int, c: int, ds: Seq<Direction>)
    ensures
        ({
            let end = crate::route::replay((r, c), ds);
            frame.world_spec(end.0, end.1)
        }) == crate::route::replay(frame.world_spec(r, c), ds),
    decreases ds.len(),
{
    if ds.len() > 0 {
        lemma_replay_in_world(frame, r, c, ds.drop_last());
    }
}


/// `hi` is `lo` with the cell `(r0, c0)` raised: same shape, same terrain everywhere,
/// and that one cell no lower.
pub open spec fn raised_at(lo: Grid, hi: Grid, r0: int, c0: int) -> bool {
    &&& lo.wf()
    &&& hi.wf()
    &&& hi.rows == lo.rows
    &&& hi.cols == lo.cols
    &&& lo.in_bounds(r0, c0)
    &&& forall|r: int, c: int| #![trigger index_of(lo.cols as int, r, c)]
        lo.in_bounds(r, c) && (r != r0 || c != c0) ==> hi.tile(r, c) == lo.tile(r, c)
    &&& hi.tile(r0, c0).walkable == lo.tile(r0, c0).walkable
    &&& hi.tile(r0, c0).cost == lo.tile(r0, c0).cost
    &&& hi.tile(r0, c0).elevation >= lo.tile(r0, c0).elevation
}

/// Two lists of edges lead to the same vertices, in order.
pub open spec fn same_ends(s1: Seq<crate::graph::Node>, s2: Seq<crate::graph::Node>) -> bool {
    &&& s1.len() == s2.len()
    &&& forall|k: int| 0 <= k < s1.len() ==> (#[trigger] s1[k]).index == s2[k].index
}

/// Two lists of edges lead to the same vertices, in order, the first never dearer.
pub open spec fn no_dearer(s1: Seq<crate::graph::Node>, s2: Seq<crate::graph::Node>) -> bool {
    &&& same_ends(s1, s2)
    &&& forall|k: int| 0 <= k < s1.len() ==> (#[trigger] s1[k]).distance <= s2[k].distance
}

proof fn lemma_edge_to_raised(lo: Grid, hi: Grid, r0: int, c0: int, r: int, c: int, nr: int, nc: int)
    requires
        raised_at(lo, hi, r0, c0),
        lo.in_bounds(r, c),
    ensures
        same_ends(edge_to(lo, r, c, nr, nc), edge_to(hi, r, c, nr, nc)),
        r != r0 || c != c0 ==> no_dearer(edge_to(lo, r, c, nr, nc), edge_to(hi, r, c, nr, nc)),
{
    if lo.in_bounds(nr, nc) {
        lemma_index_bounds(lo.rows as int, lo.cols as int, nr, nc);
        lemma_index_bounds(lo.rows as int, lo.cols as int, r, c);
        if nr == r0 && nc == c0 {
            crate::tile::lemma_raising_never_cheapens_entry(lo.tile(nr, nc), hi.tile(nr, nc), lo.tile(r, c));
            crate::tile::lemma_edge_weight_bound(lo.tile(nr, nc), lo.tile(r, c));
            crate::tile::lemma_edge_weight_bound(hi.tile(nr, nc), lo.tile(r, c));
        }
    }
}

proof fn lemma_concat_no_dearer(a1: Seq<crate::graph::Node>, a2: Seq<crate::graph::Node>, b1: Seq<crate::graph::Node>, b2: Seq<crate::graph::Node>)
    ensures
        same_ends(a1, a2) && same_ends(b1, b2) ==> same_ends(a1 + b1, a2 + b2),
        no_dearer(a1, a2) && no_dearer(b1, b2) ==> no_dearer(a1 + b1, a2 + b2),
{
    if same_ends(a1, a2) && same_ends(b1, b2) {
        assert forall|k: int| 0 <= k < (a1 + b1).len() implies (#[trigger] (a1 + b1)[k]).index == (a2 + b2)[k].index by {
            if k >= a1.len() {
                assert(b1[k - a1.len()].index == b2[k - a1.len()].index);
            }
        }
    }
    if no_dearer(a1, a2) && no_dearer(b1, b2) {
        assert forall|k: int| 0 <= k < (a1 + b1).len() implies (#[trigger] (a1 + b1)[k]).distance <= (a2 + b2)[k].distance by {
            if k >= a1.len() {
                assert(b1[k - a1.len()].distance <= b2[k - a1.len()].distance);
            }
        }
    }
}

/// Raising one cell leaves the graph's edges where they were, and makes no edge out of
/// another cell cheaper.
proof fn lemma_raised_graph(
    lo: Grid,
    hi: Grid,
    r0: int,
    c0: int,
    gl: Seq<Vec<crate::graph::Node>>,
    gh: Seq<Vec<crate::graph::Node>>,
)
    requires
        raised_at(lo, hi, r0, c0),
        graph_of(lo, gl),
        graph_of(hi, gh),
    ensures
        gl.len() == gh.len(),
        forall|u: int| 0 <= u < gl.len() ==> #[trigger] same_ends(gl[u]@, gh[u]@),
        forall|u: int| 0 <= u < gl.len() && u != index_of(lo.cols as int, r0, c0) ==> #[trigger] no_dearer(gl[u]@, gh[u]@),
{
    reveal(neighbour_edges);
    assert forall|u: int| 0 <= u < gl.len() implies #[trigger] same_ends(gl[u]@, gh[u]@)
        && (u != index_of(lo.cols as int, r0, c0) ==> no_dearer(gl[u]@, gh[u]@)) by {
        lemma_index_inverse(lo.rows as int, lo.cols as int, u);
        let r = u / lo.cols as int;
        let c = u % lo.cols as int;
        assert(gl[index_of(lo.cols as int, r, c)]@ == cell_edges(lo, r, c));
        assert(gh[index_of(hi.cols as int, r, c)]@ == cell_edges(hi, r, c));
        lemma_index_bounds(lo.rows as int, lo.cols as int, r, c);
        lemma_index_bounds(lo.rows as int, lo.cols as int, r0, c0);
        assert(hi.tile(r, c).walkable == lo.tile(r, c).walkable);
        lemma_edge_to_raised(lo, hi, r0, c0, r, c, r - 1, c);
        lemma_edge_to_raised(lo, hi, r0, c0, r, c, r, c + 1);
        lemma_edge_to_raised(lo, hi, r0, c0, r, c, r + 1, c);
        lemma_edge_to_raised(lo, hi, r0, c0, r, c, r, c - 1);
        let (a1, b1, d1, e1) = (edge_to(lo, r, c, r - 1, c), edge_to(lo, r, c, r, c + 1), edge_to(lo, r, c, r + 1, c), edge_to(lo, r, c, r, c - 1));
        let (a2, b2, d2, e2) = (edge_to(hi, r, c, r - 1, c), edge_to(hi, r, c, r, c + 1), edge_to(hi, r, c, r + 1, c), edge_to(hi, r, c, r, c - 1));
        lemma_concat_no_dearer(a1, a2, b1, b2);
        lemma_concat_no_dearer(a1 + b1, a2 + b2, d1, d2);
        lemma_concat_no_dearer(a1 + b1 + d1, a2 + b2 + d2, e1, e2);
        if !lo.tile(r, c).walkable {
            assert(same_ends(cell_edges(lo, r, c), cell_edges(hi, r, c)));
        }
    }
    assert forall|u: int| 0 <= u < gl.len() && u != index_of(lo.cols as int, r0, c0)
        implies #[trigger] no_dearer(gl[u]@, gh[u]@) by {
        assert(same_ends(gl[u]@, gh[u]@));
    }
}

/// A walk that meets `x` only at its end costs no more in `gl` than in `gh`, when the
/// two graphs have their edges in the same places and `gl`'s edges out of every vertex
/// but `x` are never dearer.
proof fn lemma_walk_no_dearer(
    gl: Seq<Vec<crate::graph::Node>>,
    gh: Seq<Vec<crate::graph::Node>>,
    x: int,
    p: Seq<usize>,
    ks: Seq<int>,
)
    requires
        gl.len() == gh.len(),
        forall|u: int| 0 <= u < gl.len() ==> #[trigger] same_ends(gl[u]@, gh[u]@),
        forall|u: int| 0 <= u < gl.len() && u != x ==> #[trigger] no_dearer(gl[u]@, gh[u]@),
        crate::search::is_walk_via(gh, p, ks),
        forall|i: int| 0 <= i < p.len() - 1 ==> #[trigger] p[i] != x,
    ensures
        crate::search::is_walk_via(gl, p, ks),
        crate::search::walk_cost(gl, p, ks) <= crate::search::walk_cost(gh, p, ks),
    decreases ks.len(),
{
    assert forall|i: int| 0 <= i < ks.len() implies 0 <= #[trigger] ks[i] < gl[p[i] as int]@.len()
        && gl[p[i] as int]@[ks[i]].index == p[i + 1] by {
        assert(same_ends(gl[p[i] as int]@, gh[p[i] as int]@));
    }
    if ks.len() > 0 {
        let q = p.drop_last();
        let js = ks.drop_last();
        assert(crate::search::is_walk_via(gh, q, js)) by {
            assert forall|i: int| 0 <= i < js.len() implies 0 <= #[trigger] js[i] < gh[q[i] as int]@.len()
                && gh[q[i] as int]@[js[i]].index == q[i + 1] by {
                assert(js[i] == ks[i] && q[i] == p[i] && q[i + 1] == p[i + 1]);
            }
        }
        assert forall|i: int| 0 <= i < q.len() - 1 implies #[trigger] q[i] != x by {
            assert(q[i] == p[i]);
        }
        lemma_walk_no_dearer(gl, gh, x, q, js);
        let u = p[ks.len() - 1] as int;
        assert(p[ks.len() - 1] != x);
        assert(no_dearer(gl[u]@, gh[u]@));
        assert(ks[ks.len() - 1] == ks.last());
    }
}

/// Raising one cell never brings it nearer: the distance to it from any start is no
/// less after raising it than before.
pub proof fn lemma_raising_never_brings_nearer(
    lo: Grid,
    hi: Grid,
    r0: int,
    c0: int,
    gl: Seq<Vec<crate::graph::Node>>,
    gh: Seq<Vec<crate::graph::Node>>,
    s: int,
    dl: Seq<Option<u128>>,
    pl: Seq<Option<usize>>,
    dh: Seq<Option<u128>>,
    ph: Seq<Option<usize>>,
)
    requires
        raised_at(lo, hi, r0, c0),
        graph_of(lo, gl),
        graph_of(hi, gh),
        crate::search::shortest_paths_from(gl, s, dl, pl),
        crate::search::shortest_paths_from(gh, s, dh, ph),
        dh[index_of(lo.cols as int, r0, c0)] is Some,
    ensures
        dl[index_of(lo.cols as int, r0, c0)] is Some,
        dl[index_of(lo.cols as int, r0, c0)]->Some_0 <= dh[index_of(lo.cols as int, r0, c0)]->Some_0,
{
    let x = index_of(lo.cols as int, r0, c0);
    lemma_index_bounds(lo.rows as int, lo.cols as int, r0, c0);
    lemma_raised_graph(lo, hi, r0, c0, gl, gh);
    let rank = choose|rank: Seq<nat>| #![trigger rank.len()] {
        &&& rank.len() == ph.len()
        &&& forall|v: int| 0 <= v < ph.len() ==> #[trigger] rank[v] < ph.len()
        &&& forall|v: int| 0 <= v < ph.len() && (#[trigger] ph[v]) is Some ==> rank[ph[v]->Some_0 as int] < rank[v]
    };
    let (p, ks) = crate::search::lemma_shortest_walk_exists(gh, s, dh, ph, rank, x);
    assert forall|i: int| 0 <= i < p.len() - 1 implies #[trigger] p[i] != x by {
        assert(rank[p[i] as int] < rank[x]);
    }
    lemma_walk_no_dearer(gl, gh, x, p, ks);
    crate::search::lemma_distance_is_least(gl, s, dl, pl, p, ks);
}

} // verus!

use vstd::prelude::*;
use crate::tile::Direction;
use crate::grid::CoordinateMap;
use crate::graph::{Node, graph_wf};
use crate::search::{lemma_walk_via_reaches, is_walk_via, walk_cost, lemma_distance_is_least, lemma_pred_chain_is_shortest, PathResult, find_shortest_paths, is_pred_chain, shortest_paths_from, results_of, result_of, reachable, symmetric, lemma_reachable_back, lemma_reachable_trans, lemma_reached_has_path};

verus! {

/// Why a plan could not be turned into moves.
#[derive(Clone, Copy, Debug, PartialEq, Eq, Structural)]
pub enum PlanError {
    /// A vertex of a path has no cell.
    MissingCoordinates,
    /// Two consecutive vertices of a path are not side by side.
    NotAdjacent,
}

/// The cell reached from `p` by one move.
pub open spec fn step(p: (int, int), d: Direction) -> (int, int) {
    match d {
        Direction::Up => (p.0 - 1, p.1),
        Direction::Down => (p.0 + 1, p.1),
        Direction::Left => (p.0, p.1 - 1),
        Direction::Right => (p.0, p.1 + 1),
    }
}

/// The cell reached from `p` by the moves `ds`, in order.
pub open spec fn replay(p: (int, int), ds: Seq<Direction>) -> (int, int)
    decreases ds.len(),
{
    if ds.len() == 0 {
        p
    } else {
        step(replay(p, ds.drop_last()), ds.last())
    }
}

/// The move from cell `a` to the side-by-side cell `b`.
pub open spec fn direction_between(a: (int, int), b: (int, int)) -> Option<Direction> {
    if b == (a.0 - 1, a.1) {
        Some(Direction::Up)
    } else if b == (a.0 + 1, a.1) {
        Some(Direction::Down)
    } else if b == (a.0, a.1 - 1) {
        Some(Direction::Left)
    } else if b == (a.0, a.1 + 1) {
        Some(Direction::Right)
    } else {
        None
    }
}

/// The cell of vertex `v`, as a pair of integers.
pub open spec fn pos(cm: CoordinateMap, v: int) -> (int, int) {
    let p = cm.coords_spec(v)->Some_0;
    (p.0 as int, p.1 as int)
}

/// Vertices `a` and `b` both have cells, and those cells are side by side.
pub open spec fn step_ok(cm: CoordinateMap, a: int, b: int) -> bool {
    &&& cm.coords_spec(a) is Some
    &&& cm.coords_spec(b) is Some
    &&& direction_between(pos(cm, a), pos(cm, b)) is Some
}

/// The error for a step between vertices `a` and `b` that is not a move.
pub open spec fn step_error(cm: CoordinateMap, a: int, b: int) -> PlanError {
    if cm.coords_spec(a) is None || cm.coords_spec(b) is None {
        PlanError::MissingCoordinates
    } else {
        PlanError::NotAdjacent
    }
}

pub open spec fn path_ok(cm: CoordinateMap, path: Seq<usize>) -> bool {
    forall|i: int| 0 <= i < path.len() - 1 ==> step_ok(cm, #[trigger] path[i] as int, path[i + 1] as int)
}

/// Turns a path of vertices into the moves that walk it.
pub fn path_to_directions(coordinates: &CoordinateMap, path: &Vec<usize>) -> (r: Result<Vec<Direction>, PlanError>)
    requires
        coordinates.wf(),
    ensures
        r is Ok <==> path_ok(*coordinates, path@),
        r matches Err(e) ==> exists|i: int| 0 <= i < path@.len() - 1
            && !step_ok(*coordinates, #[trigger] path@[i] as int, path@[i + 1] as int)
            && (forall|j: int| 0 <= j < i ==> step_ok(*coordinates, #[trigger] path@[j] as int, path@[j + 1] as int))
            && e == step_error(*coordinates, path@[i] as int, path@[i + 1] as int),
        r matches Ok(ds) ==> {
            &&& ds@.len() == if path@.len() == 0 { 0 } else { path@.len() - 1 }
            &&& forall|i: int| 0 <= i < ds@.len() ==> Some(#[trigger] ds@[i]) == direction_between(
                pos(*coordinates, path@[i] as int),
                pos(*coordinates, path@[i + 1] as int),
            )
            &&& path@.len() > 0 ==> replay(pos(*coordinates, path@[0] as int), ds@)
                == pos(*coordinates, path@.last() as int)
        },
{
    let mut directions: Vec<Direction> = Vec::new();
    if path.len() == 0 {
        return Ok(directions);
    }
    let mut i: usize = 1;
    while i < path.len()
        invariant
            coordinates.wf(),
            1 <= i <= path@.len(),
            directions@.len() == i - 1,
            forall|j: int| 0 <= j < i - 1 ==> step_ok(*coordinates, #[trigger] path@[j] as int, path@[j + 1] as int),
            forall|j: int| 0 <= j < i - 1 ==> Some(#[trigger] directions@[j]) == direction_between(
                pos(*coordinates, path@[j] as int),
                pos(*coordinates, path@[j + 1] as int),
            ),
            replay(pos(*coordinates, path@[0] as int), directions@) == pos(*coordinates, path@[i - 1] as int),
        decreases path@.len() - i,
    {
        let current_node = path[i - 1];
        let next_node = path[i];
        let current = match coordinates.get(current_node) {
            Some(c) => c,
            None => {
                return Err(PlanError::MissingCoordinates);
            },
        };
        let next = match coordinates.get(next_node) {
            Some(c) => c,
            None => {
                return Err(PlanError::MissingCoordinates);
            },
        };
        let direction = if next.0 + 1 == current.0 && next.1 == current.1 {
            Direction::Up
        } else if next.0 == current.0 + 1 && next.1 == current.1 {
            Direction::Down
        } else if next.0 == current.0 && next.1 + 1 == current.1 {
            Direction::Left
        } else if next.0 == current.0 && next.1 == current.1 + 1 {
            Direction::Right
        } else {
            return Err(PlanError::NotAdjacent);
        };
        let ghost prev = directions@;
        directions.push(direction);
        assert(directions@.drop_last() =~= prev);
        i = i + 1;
    }
    Ok(directions)
}


/// Every edge of `graph` joins side-by-side cells.
pub open spec fn edges_adjacent(cm: CoordinateMap, graph: Seq<Vec<Node>>) -> bool {
    forall|u: int, k: int| 0 <= u < graph.len() && 0 <= k < graph[u]@.len()
        ==> step_ok(cm, u, (#[trigger] graph[u]@[k]).index as int)
}

/// Where the `i`-th segment of a route begins: the start, then each visited target in turn.
pub open spec fn leg_start(start: usize, visits: Seq<usize>, i: int) -> usize {
    if i == 0 { start } else { visits[i - 1] }
}

/// `segs` is a route from `start` that visits the targets `visits`, in order, each one
/// of `targets`: every segment is a non-empty run of moves from where the previous
/// one ended to its own target.
pub open spec fn route_ok(
    cm: CoordinateMap,
    start: usize,
    targets: Seq<usize>,
    visits: Seq<usize>,
    segs: Seq<Vec<Direction>>,
) -> bool {
    &&& visits.len() == segs.len()
    &&& forall|i: int| 0 <= i < visits.len() ==> targets.contains(#[trigger] visits[i])
    &&& forall|i: int| 0 <= i < segs.len() ==> (#[trigger] segs[i])@.len() >= 1
    &&& forall|i: int| 0 <= i < segs.len() ==> replay(pos(cm, leg_start(start, visits, i) as int), (#[trigger] segs[i])@)
        == pos(cm, visits[i] as int)
    &&& forall|a: int, b: int| 0 <= a < b < visits.len() ==> #[trigger] visits[a] != #[trigger] visits[b]
}

/// Every target that some walk from `start` reaches is visited, but those at `start`.
pub open spec fn covers(graph: Seq<Vec<Node>>, start: usize, targets: Seq<usize>, visits: Seq<usize>) -> bool {
    forall|i: int| 0 <= i < targets.len() && reachable(graph, start as int, #[trigger] targets[i] as int)
        ==> targets[i] == start || visits.contains(targets[i])
}

/// Leg `i` of a route follows the walk `p`, taking edges `ks`, from where the leg
/// begins to the target it visits, each move going from one cell of the walk to the
/// next; no walk from where the leg begins to a target not yet visited (nor at `start`)
/// costs less, and every walk to such a target listed before the visited one costs more.
pub open spec fn leg_nearest(
    cm: CoordinateMap,
    graph: Seq<Vec<Node>>,
    start: usize,
    targets: Seq<usize>,
    visits: Seq<usize>,
    segs: Seq<Vec<Direction>>,
    p: Seq<usize>,
    ks: Seq<int>,
    i: int,
) -> bool {
    &&& is_walk_via(graph, p, ks)
    &&& p[0] == leg_start(start, visits, i)
    &&& p.last() == visits[i]
    &&& segs[i]@.len() + 1 == p.len()
    &&& forall|j: int| 0 <= j < segs[i]@.len() ==> Some(#[trigger] segs[i]@[j])
        == direction_between(pos(cm, p[j] as int), pos(cm, p[j + 1] as int))
    &&& forall|j: int, q: Seq<usize>, js: Seq<int>| #![trigger is_walk_via(graph, q, js), targets[j]]
        0 <= j < targets.len() && targets[j] != start && !visits.subrange(0, i).contains(targets[j])
            && is_walk_via(graph, q, js) && q[0] == leg_start(start, visits, i) && q.last() == targets[j]
        ==> walk_cost(graph, p, ks) <= walk_cost(graph, q, js)
    &&& forall|j: int, q: Seq<usize>, js: Seq<int>| #![trigger is_walk_via(graph, q, js), targets[j]]
        0 <= j < targets.len() && targets[j] != start && !visits.subrange(0, i).contains(targets[j])
            && (forall|j2: int| 0 <= j2 < targets.len() && #[trigger] targets[j2] == visits[i] ==> j < j2)
            && is_walk_via(graph, q, js) && q[0] == leg_start(start, visits, i) && q.last() == targets[j]
        ==> walk_cost(graph, p, ks) < walk_cost(graph, q, js)
}

/// Every leg of the route goes, along a cheapest walk, to a target that no target not
/// yet visited is cheaper to reach than.
pub open spec fn nearest_first(
    cm: CoordinateMap,
    graph: Seq<Vec<Node>>,
    start: usize,
    targets: Seq<usize>,
    visits: Seq<usize>,
    segs: Seq<Vec<Direction>>,
) -> bool {
    exists|paths: Seq<Seq<usize>>, edges: Seq<Seq<int>>| #![trigger paths.len(), edges.len()] {
        &&& paths.len() == visits.len()
        &&& edges.len() == visits.len()
        &&& forall|i: int| 0 <= i < visits.len() ==> #[trigger] leg_nearest(cm, graph, start, targets, visits, segs, paths[i], edges[i], i)
    }
}

/// A route from `start` that visits, once each, every target some walk reaches but
/// those at `start`, always going next to the nearest target not yet visited.
pub open spec fn routes_nearest_first(
    cm: CoordinateMap,
    graph: Seq<Vec<Node>>,
    start: usize,
    targets: Seq<usize>,
    segs: Seq<Vec<Direction>>,
) -> bool {
    exists|visits: Seq<usize>| #[trigger] route_ok(cm, start, targets, visits, segs) && covers(graph, start, targets, visits)
        && nearest_first(cm, graph, start, targets, visits, segs)
}

/// A predecessor path of a search from `start` in a graph whose edges join side-by-side
/// cells walks side-by-side cells from `start`.
proof fn lemma_pred_chain_walk(
    cm: CoordinateMap,
    graph: Seq<Vec<Node>>,
    start: int,
    dist: Seq<Option<u128>>,
    pred: Seq<Option<usize>>,
    p: Seq<usize>,
)
    requires
        edges_adjacent(cm, graph),
        shortest_paths_from(graph, start, dist, pred),
        is_pred_chain(pred, p),
        p.len() >= 2,
    ensures
        path_ok(cm, p),
        p[0] == start,
{
    assert forall|i: int| 0 <= i < p.len() - 1 implies step_ok(cm, #[trigger] p[i] as int, p[i + 1] as int) by {
        let v = p[i + 1] as int;
        assert(pred[v] == Some(p[i]));
        assert(crate::search::pred_step(graph, dist, pred, v));
        let u = p[i] as int;
        let k = choose|k: int| #![trigger graph[u]@[k]]
            0 <= k < graph[u]@.len() && graph[u]@[k].index == v
            && dist[v]->Some_0 == dist[u]->Some_0 + graph[u]@[k].distance;
        assert(step_ok(cm, u, graph[u]@[k].index as int));
    }
    assert(pred[p[1] as int] == Some(p[0]));
    assert(crate::search::pred_step(graph, dist, pred, p[1] as int));
}

/// Every vertex reaches itself.
proof fn lemma_reaches_itself(graph: Seq<Vec<Node>>, v: usize)
    requires
        v < graph.len(),
    ensures
        reachable(graph, v as int, v as int),
{
    let p = seq![v];
    assert(p[0] == v && p.last() == v);
    assert(crate::search::is_walk(graph, p));
}

/// Index of the first result with the least total cost.
fn cheapest(paths: &Vec<PathResult>) -> (r: usize)
    requires
        paths@.len() > 0,
    ensures
        r < paths@.len(),
        forall|j: int| 0 <= j < paths@.len() ==> paths@[r as int].total_cost <= (#[trigger] paths@[j]).total_cost,
        forall|j: int| 0 <= j < r ==> paths@[r as int].total_cost < (#[trigger] paths@[j]).total_cost,
{
    let mut best: usize = 0;
    let mut i: usize = 1;
    while i < paths.len()
        invariant
            1 <= i <= paths@.len(),
            best < i,
            forall|j: int| 0 <= j < i ==> paths@[best as int].total_cost <= (#[trigger] paths@[j]).total_cost,
            forall|j: int| 0 <= j < best ==> paths@[best as int].total_cost < (#[trigger] paths@[j]).total_cost,
        decreases paths@.len() - i,
    {
        if paths[i].total_cost < paths[best].total_cost {
            best = i;
        }
        i = i + 1;
    }
    best
}

/// The entries of `targets` other than `t`, in order.
fn remove_all(targets: &Vec<usize>, t: usize) -> (r: (Vec<usize>, Ghost<Seq<int>>))
    requires
        targets@.contains(t),
    ensures
        forall|j: int| 0 <= j < r.0@.len() ==> (#[trigger] r.0@[j]) != t && targets@.contains(r.0@[j]),
        forall|j: int| 0 <= j < targets@.len() && (#[trigger] targets@[j]) != t ==> r.0@.contains(targets@[j]),
        r.0@.len() < targets@.len(),
        kept_in_order(targets@, r.0@, r.1@),
        forall|j: int| 0 <= j < targets@.len() && targets@[j] != t ==> #[trigger] placed(r.1@, j),
{
    let mut out: Vec<usize> = Vec::new();
    let ghost mut sel: Seq<int> = Seq::empty();
    let mut i: usize = 0;
    while i < targets.len()
        invariant
            i <= targets@.len(),
            targets@.contains(t),
            kept_in_order(targets@, out@, sel),
            forall|k: int| 0 <= k < sel.len() ==> #[trigger] sel[k] < i && out@[k] != t,
            forall|j: int| 0 <= j < i && targets@[j] != t ==> #[trigger] placed(sel, j),
            out@.len() <= i,
            (exists|j: int| 0 <= j < i && targets@[j] == t) ==> out@.len() < i,
        decreases targets@.len() - i,
    {
        let x = targets[i];
        if x != t {
            let ghost prev = sel;
            out.push(x);
            proof {
                sel = sel.push(i as int);
                assert forall|j: int| 0 <= j < i + 1 && targets@[j] != t implies #[trigger] placed(sel, j) by {
                    if j < i {
                        assert(placed(prev, j));
                        let k = choose|k: int| 0 <= k < prev.len() && prev[k] == j;
                        assert(sel[k] == j);
                    } else {
                        assert(sel[prev.len() as int] == j);
                    }
                }
            }
        }
        proof {
            if exists|j: int| 0 <= j < i + 1 && targets@[j] == t {
                let j = choose|j: int| 0 <= j < i + 1 && targets@[j] == t;
                if j < i {
                    assert(exists|j: int| 0 <= j < i && targets@[j] == t);
                }
            }
        }
        i = i + 1;
    }
    proof {
        assert forall|j: int| 0 <= j < out@.len() implies (#[trigger] out@[j]) != t && targets@.contains(out@[j]) by {
            assert(out@[j] == targets@[sel[j]]);
        }
        assert forall|j: int| 0 <= j < targets@.len() && (#[trigger] targets@[j]) != t implies out@.contains(targets@[j]) by {
            assert(placed(sel, j));
            let k = choose|k: int| 0 <= k < sel.len() && sel[k] == j;
            assert(out@[k] == targets@[j]);
        }
    }
    (out, Ghost(sel))
}

/// A target listed before the one a leg goes to, and still to be visited, costs more
/// to reach than that leg, as the first cheapest result wins.
proof fn lemma_earlier_target_farther(
    graph: Seq<Vec<Node>>,
    current: int,
    dist: Seq<Option<u128>>,
    pred: Seq<Option<usize>>,
    all_targets: Seq<usize>,
    remaining: Seq<usize>,
    order: Seq<int>,
    paths: Seq<PathResult>,
    idx: int,
    p: Seq<usize>,
    ks: Seq<int>,
    j: int,
    q: Seq<usize>,
    js: Seq<int>,
)
    requires
        shortest_paths_from(graph, current, dist, pred),
        results_of(dist, pred, remaining, paths),
        0 <= idx < paths.len(),
        forall|w: int| 0 <= w < idx ==> paths[idx].total_cost < (#[trigger] paths[w]).total_cost,
        dist[remaining[idx] as int] is Some,
        walk_cost(graph, p, ks) == dist[remaining[idx] as int]->Some_0,
        kept_in_order(all_targets, remaining, order),
        0 <= j < all_targets.len(),
        remaining.contains(all_targets[j]) ==> placed(order, j),
        remaining.contains(all_targets[j]),
        forall|j2: int| 0 <= j2 < all_targets.len() && #[trigger] all_targets[j2] == remaining[idx] ==> j < j2,
        is_walk_via(graph, q, js),
        q[0] == current,
        q.last() == all_targets[j],
    ensures
        walk_cost(graph, p, ks) < walk_cost(graph, q, js),
{
    lemma_distance_is_least(graph, current, dist, pred, q, js);
    let k = choose|k: int| 0 <= k < order.len() && order[k] == j;
    assert(remaining[k] == all_targets[j]);
    assert(all_targets[order[idx]] == remaining[idx]);
    assert(j < order[idx]);
    if k > idx {
        assert(order[idx] < order[k]);
    }
    assert(result_of(dist, pred, remaining[k], paths[k]));
    assert(result_of(dist, pred, remaining[idx], paths[idx]));
}

/// Dropping the entries equal to `t` from a list kept in order keeps it in order, and
/// every position whose entry stays is still placed.
proof fn lemma_keep_order(
    all_targets: Seq<usize>,
    remaining: Seq<usize>,
    order: Seq<int>,
    next: Seq<usize>,
    sel: Seq<int>,
    t: usize,
) -> (new_order: Seq<int>)
    requires
        kept_in_order(all_targets, remaining, order),
        forall|j: int| 0 <= j < all_targets.len() && remaining.contains(all_targets[j]) ==> #[trigger] placed(order, j),
        kept_in_order(remaining, next, sel),
        forall|j: int| 0 <= j < remaining.len() && remaining[j] != t ==> #[trigger] placed(sel, j),
        forall|k: int| 0 <= k < next.len() ==> (#[trigger] next[k]) != t,
    ensures
        kept_in_order(all_targets, next, new_order),
        forall|j: int| 0 <= j < all_targets.len() && next.contains(all_targets[j]) ==> #[trigger] placed(new_order, j),
{
    let new_order = Seq::new(next.len(), |k: int| order[sel[k]]);
    assert forall|k: int| 0 <= k < new_order.len() implies 0 <= #[trigger] new_order[k] < all_targets.len()
        && next[k] == all_targets[new_order[k]] by {
        assert(next[k] == remaining[sel[k]]);
    }
    assert forall|a: int, b: int| 0 <= a < b < new_order.len() implies #[trigger] new_order[a] < #[trigger] new_order[b] by {
        assert(sel[a] < sel[b]);
        assert(order[sel[a]] < order[sel[b]]);
    }
    assert forall|j: int| 0 <= j < all_targets.len() && next.contains(all_targets[j])
        implies #[trigger] placed(new_order, j) by {
        let w = choose|w: int| 0 <= w < next.len() && next[w] == all_targets[j];
        assert(next[w] == remaining[sel[w]]);
        assert(remaining.contains(all_targets[j]));
        assert(placed(order, j));
        let k = choose|k: int| 0 <= k < order.len() && order[k] == j;
        assert(remaining[k] == all_targets[j]);
        assert(placed(sel, k));
        let k2 = choose|k2: int| 0 <= k2 < sel.len() && sel[k2] == k;
        assert(new_order[k2] == j);
    }
    new_order
}

/// Taking one more leg, to the first cheapest remaining target along its predecessor
/// path, keeps every leg of the route nearest first.
proof fn lemma_leg_step(
    cm: CoordinateMap,
    graph: Seq<Vec<Node>>,
    start: usize,
    current: usize,
    dist: Seq<Option<u128>>,
    pred: Seq<Option<usize>>,
    all_targets: Seq<usize>,
    remaining: Seq<usize>,
    order: Seq<int>,
    paths: Seq<PathResult>,
    idx: int,
    p: Seq<usize>,
    ks: Seq<int>,
    dirs: Seq<Direction>,
    prev_visits: Seq<usize>,
    prev_segs: Seq<Vec<Direction>>,
    segs: Seq<Vec<Direction>>,
    legs: Seq<Seq<usize>>,
    edges: Seq<Seq<int>>,
)
    requires
        shortest_paths_from(graph, current as int, dist, pred),
        results_of(dist, pred, remaining, paths),
        0 <= idx < paths.len(),
        forall|w: int| 0 <= w < paths.len() ==> paths[idx].total_cost <= (#[trigger] paths[w]).total_cost,
        forall|w: int| 0 <= w < idx ==> paths[idx].total_cost < (#[trigger] paths[w]).total_cost,
        is_walk_via(graph, p, ks),
        p[0] == current,
        p.last() == remaining[idx],
        dist[remaining[idx] as int] is Some,
        walk_cost(graph, p, ks) == dist[remaining[idx] as int]->Some_0,
        dirs.len() + 1 == p.len(),
        forall|j: int| 0 <= j < dirs.len() ==> Some(#[trigger] dirs[j])
            == direction_between(pos(cm, p[j] as int), pos(cm, p[j + 1] as int)),
        current == leg_start(start, prev_visits, prev_visits.len() as int),
        reachable(graph, start as int, current as int),
        forall|i: int| 0 <= i < all_targets.len() && reachable(graph, start as int, #[trigger] all_targets[i] as int)
            ==> all_targets[i] == start || prev_visits.contains(all_targets[i]) || remaining.contains(all_targets[i]),
        kept_in_order(all_targets, remaining, order),
        forall|j: int| 0 <= j < all_targets.len() && remaining.contains(all_targets[j]) ==> #[trigger] placed(order, j),
        legs.len() == prev_visits.len(),
        edges.len() == prev_visits.len(),
        prev_segs.len() == prev_visits.len(),
        segs.len() == prev_segs.len() + 1,
        forall|m: int| 0 <= m < prev_segs.len() ==> segs[m] == prev_segs[m],
        segs.last()@ == dirs,
        forall|m: int| 0 <= m < prev_visits.len() ==> #[trigger] leg_nearest(cm, graph, start, all_targets, prev_visits, prev_segs, legs[m], edges[m], m),
    ensures
        forall|m: int| 0 <= m <= prev_visits.len() ==> #[trigger] leg_nearest(cm, graph, start, all_targets,
            prev_visits.push(remaining[idx]), segs, legs.push(p)[m], edges.push(ks)[m], m),
{
    reveal(leg_nearest);
    let target = remaining[idx];
    let visits = prev_visits.push(target);
    let i = prev_visits.len() as int;
    assert(visits.subrange(0, i) =~= prev_visits);
    assert(leg_start(start, visits, i) == current);
    assert(result_of(dist, pred, remaining[idx], paths[idx]));
    assert forall|j: int, q: Seq<usize>, js: Seq<int>| #![trigger is_walk_via(graph, q, js), all_targets[j]]
        0 <= j < all_targets.len() && all_targets[j] != start && !visits.subrange(0, i).contains(all_targets[j])
            && is_walk_via(graph, q, js) && q[0] == leg_start(start, visits, i) && q.last() == all_targets[j]
        implies walk_cost(graph, p, ks) <= walk_cost(graph, q, js) by {
        let x = all_targets[j];
        lemma_distance_is_least(graph, current as int, dist, pred, q, js);
        lemma_walk_via_reaches(graph, q, js);
        lemma_reachable_trans(graph, start as int, current as int, x as int);
        assert(remaining.contains(x));
        let w = choose|w: int| 0 <= w < remaining.len() && remaining[w] == x;
        assert(result_of(dist, pred, remaining[w], paths[w]));
    }
    assert forall|j: int, q: Seq<usize>, js: Seq<int>| #![trigger is_walk_via(graph, q, js), all_targets[j]]
        0 <= j < all_targets.len() && all_targets[j] != start && !visits.subrange(0, i).contains(all_targets[j])
            && (forall|j2: int| 0 <= j2 < all_targets.len() && #[trigger] all_targets[j2] == visits[i] ==> j < j2)
            && is_walk_via(graph, q, js) && q[0] == leg_start(start, visits, i) && q.last() == all_targets[j]
        implies walk_cost(graph, p, ks) < walk_cost(graph, q, js) by {
        let x = all_targets[j];
        lemma_walk_via_reaches(graph, q, js);
        lemma_reachable_trans(graph, start as int, current as int, x as int);
        assert(remaining.contains(x));
        lemma_earlier_target_farther(graph, current as int, dist, pred, all_targets, remaining, order,
            paths, idx, p, ks, j, q, js);
    }
    assert(legs.push(p)[i] == p && edges.push(ks)[i] == ks);
    assert(leg_nearest(cm, graph, start, all_targets, visits, segs, legs.push(p)[i], edges.push(ks)[i], i));
    assert forall|m: int| 0 <= m <= prev_visits.len() implies #[trigger] leg_nearest(cm, graph, start, all_targets,
        visits, segs, legs.push(p)[m], edges.push(ks)[m], m) by {
        if m < i {
            assert(leg_nearest(cm, graph, start, all_targets, prev_visits, prev_segs, legs[m], edges[m], m));
            assert(legs.push(p)[m] == legs[m] && edges.push(ks)[m] == edges[m]);
            assert(visits.subrange(0, m) =~= prev_visits.subrange(0, m));
            assert(segs[m] == prev_segs[m]);
            assert(leg_start(start, visits, m) == leg_start(start, prev_visits, m));
            assert(visits[m] == prev_visits[m]);
        }
    }
}

/// Position `j` is among the positions `sel`.
pub open spec fn placed(sel: Seq<int>, j: int) -> bool {
    exists|k: int| 0 <= k < sel.len() && sel[k] == j
}

/// `kept` holds entries of `all`, in their order there: entry `k` is `all[sel[k]]`, and
/// the positions `sel` increase.
pub open spec fn kept_in_order(all: Seq<usize>, kept: Seq<usize>, sel: Seq<int>) -> bool {
    &&& sel.len() == kept.len()
    &&& forall|k: int| 0 <= k < sel.len() ==> 0 <= #[trigger] sel[k] < all.len() && kept[k] == all[sel[k]]
    &&& forall|a: int, b: int| 0 <= a < b < sel.len() ==> #[trigger] sel[a] < #[trigger] sel[b]
}

/// Visits the targets one at a time, each time going next to the remaining target that
/// is cheapest to reach from where the route stands, and returns the moves of each leg.
/// A target that cannot be reached from there is dropped.
pub fn build_path(graph: &Vec<Vec<Node>>, start: usize, target_nodes: Vec<usize>, coordinates: &CoordinateMap)
    -> (r: Result<Vec<Vec<Direction>>, PlanError>)
    requires
        graph_wf(graph@),
        coordinates.wf(),
        edges_adjacent(*coordinates, graph@),
        symmetric(graph@),
        start < graph@.len(),
        forall|i: int| 0 <= i < target_nodes@.len() ==> (#[trigger] target_nodes@[i]) < graph@.len(),
    ensures
        r matches Ok(segs) && routes_nearest_first(*coordinates, graph@, start, target_nodes@, segs@),
{
    let ghost all_targets = target_nodes@;
    let ghost mut visits: Seq<usize> = Seq::empty();
    let ghost mut legs: Seq<Seq<usize>> = Seq::empty();
    let ghost mut leg_edges: Seq<Seq<int>> = Seq::empty();
    let mut final_path: Vec<Vec<Direction>> = Vec::new();
    let mut current = start;
    let mut remaining = target_nodes.clone();
    assert(remaining@ == target_nodes@);
    let n = graph.len();
    let ghost mut order: Seq<int> = Seq::new(remaining@.len(), |k: int| k);
    proof {
        assert forall|j: int| 0 <= j < all_targets.len() && remaining@.contains(all_targets[j])
            implies #[trigger] placed(order, j) by {
            assert(order[j] == j);
        }
        lemma_reaches_itself(graph@, start);
        assert forall|i: int| 0 <= i < all_targets.len() && reachable(graph@, start as int, #[trigger] all_targets[i] as int)
            implies all_targets[i] == start || visits.contains(all_targets[i]) || remaining@.contains(all_targets[i]) by {
            assert(remaining@[i] == all_targets[i]);
        }
    }
    while remaining.len() > 0
        invariant
            graph_wf(graph@),
            coordinates.wf(),
            edges_adjacent(*coordinates, graph@),
            current < graph@.len(),
            forall|i: int| 0 <= i < remaining@.len() ==> (#[trigger] remaining@[i]) < graph@.len(),
            forall|i: int| 0 <= i < remaining@.len() ==> all_targets.contains(#[trigger] remaining@[i]),
            route_ok(*coordinates, start, all_targets, visits, final_path@),
            current == if visits.len() == 0 { start } else { visits.last() },
            all_targets == target_nodes@,
            n == graph@.len(),
            symmetric(graph@),
            reachable(graph@, start as int, current as int),
            forall|i: int| 0 <= i < all_targets.len() && reachable(graph@, start as int, #[trigger] all_targets[i] as int)
                ==> all_targets[i] == start || visits.contains(all_targets[i]) || remaining@.contains(all_targets[i]),
            forall|i: int| 0 <= i < remaining@.len() ==> !visits.contains(#[trigger] remaining@[i]),
            kept_in_order(all_targets, remaining@, order),
            forall|j: int| 0 <= j < all_targets.len() && remaining@.contains(all_targets[j]) ==> #[trigger] placed(order, j),
            forall|a: int, b: int| 0 <= a < b < visits.len() ==> #[trigger] visits[a] != #[trigger] visits[b],
            legs.len() == visits.len(),
            leg_edges.len() == visits.len(),
            forall|i: int| 0 <= i < visits.len() ==> #[trigger] leg_nearest(*coordinates, graph@, start, all_targets, visits, final_path@, legs[i], leg_edges[i], i),
        decreases remaining@.len(),
    {
        let paths = find_shortest_paths(graph, current, &remaining);
        let ghost (dist, pred) = choose|dist: Seq<Option<u128>>, pred: Seq<Option<usize>>| {
            &&& shortest_paths_from(graph@, current as int, dist, pred)
            &&& results_of(dist, pred, remaining@, paths@)
        };
        let idx = cheapest(&paths);
        let best = &paths[idx];
        let target = best.target_node;
        assert(result_of(dist, pred, remaining@[idx as int], paths@[idx as int]));
        assert(remaining@[idx as int] == target);
        proof {
            lemma_reachable_back(graph@, start as int, current as int);
            if reachable(graph@, start as int, target as int) {
                lemma_reachable_trans(graph@, current as int, start as int, target as int);
                if target != current {
                    lemma_reached_has_path(graph@, current as int, dist, pred, target as int);
                }
            }
            assert(!visits.contains(remaining@[idx as int]));
        }
        let ghost was_current = current;
        let ghost old_visits = visits;
        match &best.path {
            Some(path) => {
                proof { lemma_pred_chain_walk(*coordinates, graph@, current as int, dist, pred, path@); }
                let directions = path_to_directions(coordinates, path);
                let directions = match directions {
                    Ok(d) => d,
                    Err(e) => {
                        return Err(e);
                    },
                };
                let ghost prev_visits = visits;
                let ghost prev_segs = final_path@;
                let ghost old_legs = legs;
                let ghost old_edges = leg_edges;
                let ghost directions_view = directions@;
                proof {
                    lemma_pred_chain_is_shortest(graph@, current as int, dist, pred, path@);
                }
                let ghost ks = choose|ks: Seq<int>| #[trigger] is_walk_via(graph@, path@, ks)
                    && dist[path@.last() as int]->Some_0 == walk_cost(graph@, path@, ks);
                proof {
                    lemma_walk_via_reaches(graph@, path@, ks);
                    lemma_reachable_trans(graph@, start as int, current as int, target as int);
                    visits = visits.push(target);
                    legs = legs.push(path@);
                    leg_edges = leg_edges.push(ks);
                }
                final_path.push(directions);
                proof {
                    lemma_leg_step(*coordinates, graph@, start, current, dist, pred, all_targets, remaining@, order,
                        paths@, idx as int, path@, ks, directions_view, prev_visits, prev_segs, final_path@, old_legs, old_edges);
                }
                proof {
                    assert forall|i: int| 0 <= i < final_path@.len() implies
                        replay(pos(*coordinates, leg_start(start, visits, i) as int), (#[trigger] final_path@[i])@)
                        == pos(*coordinates, visits[i] as int) by {
                        if i < prev_segs.len() {
                            assert(final_path@[i] == prev_segs[i]);
                            assert(leg_start(start, visits, i) == leg_start(start, prev_visits, i));
                        }
                    }
                    assert forall|i: int| 0 <= i < visits.len() implies all_targets.contains(#[trigger] visits[i]) by {
                        if i < prev_visits.len() {
                            assert(visits[i] == prev_visits[i]);
                        }
                    }
                    assert forall|i: int| 0 <= i < final_path@.len() implies (#[trigger] final_path@[i])@.len() >= 1 by {
                        if i < prev_segs.len() {
                            assert(final_path@[i] == prev_segs[i]);
                        }
                    }
                    assert forall|a: int, b: int| 0 <= a < b < visits.len() implies #[trigger] visits[a] != #[trigger] visits[b] by {
                        if b == visits.len() - 1 {
                            assert(visits[a] == prev_visits[a]);
                            assert(prev_visits.contains(visits[a]));
                        } else {
                            assert(visits[a] == prev_visits[a] && visits[b] == prev_visits[b]);
                        }
                    }
                }
                current = target;
            },
            None => {},
        }
        let (next, Ghost(sel)) = remove_all(&remaining, target);
        proof {
            assert forall|i: int| 0 <= i < next@.len() implies (#[trigger] next@[i]) < graph@.len()
                && all_targets.contains(next@[i]) && !visits.contains(next@[i]) by {
                assert(remaining@.contains(next@[i]));
                let w = choose|w: int| 0 <= w < remaining@.len() && remaining@[w] == next@[i];
                assert(!old_visits.contains(remaining@[w]));
                if visits.contains(next@[i]) {
                    let u = choose|u: int| 0 <= u < visits.len() && visits[u] == next@[i];
                    if u < old_visits.len() {
                        assert(old_visits[u] == next@[i]);
                    }
                }
            }
            assert(reachable(graph@, start as int, target as int) ==> visits.contains(target) || target == start
                || old_visits.contains(target)) by {
                if best.path is Some {
                    assert(visits[visits.len() - 1] == target);
                } else if reachable(graph@, start as int, target as int) {
                    assert(target == was_current);
                    if old_visits.len() > 0 {
                        assert(old_visits[old_visits.len() - 1] == target);
                    }
                }
            }
            assert forall|i: int| 0 <= i < all_targets.len() && reachable(graph@, start as int, #[trigger] all_targets[i] as int)
                implies all_targets[i] == start || visits.contains(all_targets[i]) || next@.contains(all_targets[i]) by {
                let x = all_targets[i];
                if old_visits.contains(x) {
                    let w = choose|w: int| 0 <= w < old_visits.len() && old_visits[w] == x;
                    assert(visits[w] == x);
                } else if x != start && remaining@.contains(x) && x != target {
                    let w = choose|w: int| 0 <= w < remaining@.len() && remaining@[w] == x;
                    assert(next@.contains(remaining@[w]));
                }
            }
        }
        proof {
            order = lemma_keep_order(all_targets, remaining@, order, next@, sel, target);
        }
        remaining = next;
    }
    assert(route_ok(*coordinates, start, target_nodes@, visits, final_path@));
    assert(covers(graph@, start, target_nodes@, visits));
    assert(nearest_first(*coordinates, graph@, start, target_nodes@, visits, final_path@));
    assert(routes_nearest_first(*coordinates, graph@, start, target_nodes@, final_path@));
    Ok(final_path)
}

} // verus!

use vstd::prelude::*;
use crate::graph::{Node, graph_wf};

verus! {

/// Number of `true` entries.
pub open spec fn count_true(s: Seq<bool>) -> nat
    decreases s.len(),
{
    if s.len() == 0 {
        0
    } else {
        count_true(s.drop_last()) + if s.last() { 1nat } else { 0nat }
    }
}

proof fn lemma_count_le(s: Seq<bool>)
    ensures
        count_true(s) <= s.len(),
    decreases s.len(),
{
    if s.len() > 0 {
        lemma_count_le(s.drop_last());
    }
}

proof fn lemma_count_update(s: Seq<bool>, i: int)
    requires
        0 <= i < s.len(),
        !s[i],
    ensures
        count_true(s.update(i, true)) == count_true(s) + 1,
        count_true(s) < s.len(),
    decreases s.len(),
{
    if i == s.len() - 1 {
        assert(s.update(i, true).drop_last() =~= s.drop_last());
        lemma_count_le(s.drop_last());
    } else {
        assert(s.update(i, true).drop_last() =~= s.drop_last().update(i, true));
        lemma_count_update(s.drop_last(), i);
    }
}

proof fn lemma_count_none(m: nat)
    ensures
        count_true(Seq::new(m, |j: int| false)) == 0,
    decreases m,
{
    if m > 0 {
        assert(Seq::new(m, |j: int| false).drop_last() =~= Seq::new((m - 1) as nat, |j: int| false));
        lemma_count_none((m - 1) as nat);
    }
}

/// Edge `k` of `u` is relaxed: its end has a distance no larger than `u`'s plus the weight.
pub open spec fn edge_relaxed(graph: Seq<Vec<Node>>, dist: Seq<Option<u128>>, u: int, k: int) -> bool {
    let e = graph[u]@[k];
    &&& dist[u] is Some
    &&& dist[e.index as int] is Some
    &&& dist[e.index as int]->Some_0 <= dist[u]->Some_0 + e.distance
}

/// `v`'s predecessor, if it has one, is a vertex with a distance, joined to `v` by an
/// edge whose weight is exactly the difference of their distances.
pub open spec fn pred_step(
    graph: Seq<Vec<Node>>,
    dist: Seq<Option<u128>>,
    pred: Seq<Option<usize>>,
    v: int,
) -> bool {
    match pred[v] {
        Some(u) => {
            &&& u < graph.len()
            &&& dist[u as int] is Some
            &&& dist[v] is Some
            &&& exists|k: int| #![trigger graph[u as int]@[k]]
                0 <= k < graph[u as int]@.len() && graph[u as int]@[k].index == v
                    && dist[v]->Some_0 == dist[u as int]->Some_0 + graph[u as int]@[k].distance
        },
        None => true,
    }
}

/// Predecessor links never go round in a circle: some ranking below the number of
/// vertices puts each vertex after its predecessor.
pub open spec fn preds_ranked(pred: Seq<Option<usize>>) -> bool {
    exists|rank: Seq<nat>| #![trigger rank.len()] {
        &&& rank.len() == pred.len()
        &&& forall|v: int| 0 <= v < pred.len() ==> #[trigger] rank[v] < pred.len()
        &&& forall|v: int| 0 <= v < pred.len() && (#[trigger] pred[v]) is Some ==> rank[pred[v]->Some_0 as int] < rank[v]
    }
}

/// What single-source shortest-path search leaves behind: the start at distance zero
/// with no predecessor, every other vertex with a distance reached through a
/// predecessor edge, and every edge out of a reached vertex relaxed.
pub open spec fn shortest_paths_from(
    graph: Seq<Vec<Node>>,
    start: int,
    dist: Seq<Option<u128>>,
    pred: Seq<Option<usize>>,
) -> bool {
    &&& dist.len() == graph.len()
    &&& pred.len() == graph.len()
    &&& dist[start] == Some(0u128)
    &&& pred[start] is None
    &&& forall|v: int| 0 <= v < graph.len() ==> #[trigger] pred_step(graph, dist, pred, v)
    &&& forall|v: int| 0 <= v < graph.len() && v != start && (#[trigger] dist[v]) is Some
        ==> pred[v] is Some
    &&& forall|u: int, k: int| 0 <= u < graph.len() && dist[u] is Some && 0 <= k < graph[u]@.len()
        ==> #[trigger] edge_relaxed(graph, dist, u, k)
    &&& preds_ranked(pred)
}

/// Single-source shortest distances and predecessors from `start`.
pub fn dijkstra(graph: &Vec<Vec<Node>>, start: usize) -> (r: (Vec<Option<u128>>, Vec<Option<usize>>))
    requires
        graph_wf(graph@),
        start < graph@.len(),
    ensures
        shortest_paths_from(graph@, start as int, r.0@, r.1@),
{
    let n = graph.len();
    let mut distance: Vec<Option<u128>> = Vec::new();
    let mut predecessor: Vec<Option<usize>> = Vec::new();
    let mut visited: Vec<bool> = Vec::new();
    let mut i: usize = 0;
    while i < n
        invariant
            i <= n,
            n == graph@.len(),
            distance@ == Seq::new(i as nat, |j: int| None::<u128>),
            predecessor@ == Seq::new(i as nat, |j: int| None::<usize>),
            visited@ == Seq::new(i as nat, |j: int| false),
        decreases n - i,
    {
        distance.push(None);
        predecessor.push(None);
        visited.push(false);
        i = i + 1;
    }
    distance.set(start, Some(0));
    let mut nvisited: usize = 0;
    let ghost mut order: Seq<nat> = Seq::new(n as nat, |j: int| 0nat);
    proof { lemma_count_none(n as nat); }
    loop
        invariant
            n == graph@.len(),
            graph_wf(graph@),
            start < n,
            distance@.len() == n,
            predecessor@.len() == n,
            visited@.len() == n,
            nvisited == count_true(visited@),
            distance@[start as int] == Some(0u128),
            predecessor@[start as int] is None,
            forall|v: int| 0 <= v < n ==> #[trigger] pred_step(graph@, distance@, predecessor@, v),
            forall|v: int| 0 <= v < n && (#[trigger] predecessor@[v]) is Some
                ==> predecessor@[v]->Some_0 < n && visited@[predecessor@[v]->Some_0 as int],
            forall|v: int| 0 <= v < n && v != start && (#[trigger] distance@[v]) is Some
                ==> predecessor@[v] is Some,
            forall|u: int| 0 <= u < n && #[trigger] visited@[u] ==> distance@[u] is Some,
            forall|u: int, k: int| 0 <= u < n && visited@[u] && 0 <= k < graph@[u]@.len()
                ==> #[trigger] edge_relaxed(graph@, distance@, u, k),
            forall|x: int, y: int| 0 <= x < n && 0 <= y < n && #[trigger] visited@[x] && !#[trigger] visited@[y]
                && distance@[y] is Some ==> distance@[x]->Some_0 <= distance@[y]->Some_0,
            forall|v: int| 0 <= v < n && (#[trigger] distance@[v]) is Some
                ==> distance@[v]->Some_0 <= nvisited * (u64::MAX as int),
            order.len() == n,
            forall|v: int| 0 <= v < n ==> #[trigger] order[v] < n,
            forall|v: int| 0 <= v < n && #[trigger] visited@[v] ==> order[v] < nvisited,
            forall|v: int| 0 <= v < n && visited@[v] && (#[trigger] predecessor@[v]) is Some
                ==> order[predecessor@[v]->Some_0 as int] < order[v],
        ensures
            forall|v: int| 0 <= v < n && (#[trigger] distance@[v]) is Some ==> visited@[v],
        decreases n - nvisited,
    {
        // Pick the unvisited vertex of least tentative distance, the lowest index on ties.
        let mut best: Option<usize> = None;
        let mut j: usize = 0;
        while j < n
            invariant
                j <= n,
                n == graph@.len(),
                distance@.len() == n,
                visited@.len() == n,
                match best {
                    Some(b) => b < j && !visited@[b as int] && distance@[b as int] is Some
                        && forall|m: int| 0 <= m < j && !visited@[m] && (#[trigger] distance@[m]) is Some
                            ==> distance@[b as int]->Some_0 <= distance@[m]->Some_0,
                    None => forall|m: int| 0 <= m < j && !visited@[m] ==> (#[trigger] distance@[m]) is None,
                },
            decreases n - j,
        {
            if !visited[j] {
                if let Some(d) = distance[j] {
                    match best {
                        None => {
                            best = Some(j);
                        },
                        Some(b) => {
                            if d < distance[b].unwrap() {
                                best = Some(j);
                            }
                        },
                    }
                }
            }
            j = j + 1;
        }
        let u = match best {
            None => {
                assert forall|v: int| 0 <= v < n && (#[trigger] distance@[v]) is Some implies visited@[v] by {
                    if !visited@[v] {
                        assert(distance@[v] is None);
                    }
                }
                break;
            },
            Some(b) => b,
        };
        let du = distance[u].unwrap();
        proof {
            lemma_count_update(visited@, u as int);
            lemma_count_le(visited@);
        }
        let ghost before = visited@;
        visited.set(u, true);
        proof {
            order = order.update(u as int, nvisited as nat);
            assert forall|v: int| 0 <= v < n && visited@[v] && (#[trigger] predecessor@[v]) is Some
                implies order[predecessor@[v]->Some_0 as int] < order[v] by {
                if v != u {
                    assert(before[v]);
                }
            }
        }
        nvisited = nvisited + 1;
        assert(du + u64::MAX <= nvisited * (u64::MAX as int)) by (nonlinear_arith)
            requires du <= (nvisited - 1) * (u64::MAX as int);
        assert(nvisited * (u64::MAX as int) <= u128::MAX) by (nonlinear_arith)
            requires nvisited <= usize::MAX;
        let edges = &graph[u];
        let mut k: usize = 0;
        while k < edges.len()
            invariant
                n == graph@.len(),
                graph_wf(graph@),
                start < n,
                u < n,
                edges@ == graph@[u as int]@,
                k <= edges@.len(),
                visited@[u as int],
                distance@.len() == n,
                predecessor@.len() == n,
                visited@.len() == n,
                distance@[u as int] == Some(du),
                du + u64::MAX <= nvisited * (u64::MAX as int),
                nvisited * (u64::MAX as int) <= u128::MAX,
                distance@[start as int] == Some(0u128),
                predecessor@[start as int] is None,
                forall|v: int| 0 <= v < n ==> #[trigger] pred_step(graph@, distance@, predecessor@, v),
                forall|v: int| 0 <= v < n && (#[trigger] predecessor@[v]) is Some
                ==> predecessor@[v]->Some_0 < n && visited@[predecessor@[v]->Some_0 as int],
                forall|v: int| 0 <= v < n && v != start && (#[trigger] distance@[v]) is Some
                    ==> predecessor@[v] is Some,
                forall|x: int| 0 <= x < n && #[trigger] visited@[x] ==> distance@[x] is Some,
                forall|x: int, m: int| 0 <= x < n && x != u && visited@[x] && 0 <= m < graph@[x]@.len()
                    ==> #[trigger] edge_relaxed(graph@, distance@, x, m),
                forall|m: int| 0 <= m < k ==> #[trigger] edge_relaxed(graph@, distance@, u as int, m),
                forall|x: int| 0 <= x < n && #[trigger] visited@[x] ==> distance@[x]->Some_0 <= du,
                forall|y: int| 0 <= y < n && !#[trigger] visited@[y] && distance@[y] is Some
                    ==> du <= distance@[y]->Some_0,
                forall|v: int| 0 <= v < n && (#[trigger] distance@[v]) is Some
                    ==> distance@[v]->Some_0 <= nvisited * (u64::MAX as int),
                order.len() == n,
                forall|v: int| 0 <= v < n ==> #[trigger] order[v] < n,
                forall|v: int| 0 <= v < n && #[trigger] visited@[v] ==> order[v] < nvisited,
                forall|v: int| 0 <= v < n && visited@[v] && (#[trigger] predecessor@[v]) is Some
                    ==> order[predecessor@[v]->Some_0 as int] < order[v],
            decreases edges@.len() - k,
        {
            let e = edges[k];
            assert(e == graph@[u as int]@[k as int]);
            let new_distance: u128 = du + e.distance as u128;
            let improves = match distance[e.index] {
                None => true,
                Some(dv) => new_distance < dv,
            };
            if improves {
                let ghost old_dist = distance@;
                let ghost old_pred = predecessor@;
                distance.set(e.index, Some(new_distance));
                predecessor.set(e.index, Some(u));
                proof {
                    assert(!visited@[e.index as int]);
                    assert forall|v: int| 0 <= v < n implies #[trigger] pred_step(graph@, distance@, predecessor@, v) by {
                        if v == e.index {
                            assert(graph@[u as int]@[k as int].index == v);
                        } else {
                            assert(pred_step(graph@, old_dist, old_pred, v));
                            if let Some(p) = old_pred[v] {
                                assert(visited@[p as int]);
                                let kk = choose|kk: int| #![trigger graph@[p as int]@[kk]]
                                    0 <= kk < graph@[p as int]@.len() && graph@[p as int]@[kk].index == v
                                    && old_dist[v]->Some_0 == old_dist[p as int]->Some_0 + graph@[p as int]@[kk].distance;
                                assert(graph@[p as int]@[kk].index == v);
                            }
                        }
                    }
                    assert forall|x: int, m: int| 0 <= x < n && x != u && visited@[x] && 0 <= m < graph@[x]@.len()
                        implies #[trigger] edge_relaxed(graph@, distance@, x, m) by {
                        assert(edge_relaxed(graph@, old_dist, x, m));
                    }
                    assert forall|m: int| 0 <= m < k + 1 implies #[trigger] edge_relaxed(graph@, distance@, u as int, m) by {
                        if m < k {
                            assert(edge_relaxed(graph@, old_dist, u as int, m));
                        }
                    }
                }
            } else {
                assert(edge_relaxed(graph@, distance@, u as int, k as int));
            }
            k = k + 1;
        }
        proof {
            assert forall|x: int, y: int| 0 <= x < n && 0 <= y < n && #[trigger] visited@[x] && !#[trigger] visited@[y]
                && distance@[y] is Some implies distance@[x]->Some_0 <= distance@[y]->Some_0 by {
            }
            assert forall|x: int, m: int| 0 <= x < n && visited@[x] && 0 <= m < graph@[x]@.len()
                implies #[trigger] edge_relaxed(graph@, distance@, x, m) by {
            }
        }
    }
    proof {
        assert forall|v: int| 0 <= v < n && (#[trigger] predecessor@[v]) is Some
            implies order[predecessor@[v]->Some_0 as int] < order[v] by {
            assert(pred_step(graph@, distance@, predecessor@, v));
        }
        assert(order.len() == predecessor@.len());
    }
    (distance, predecessor)
}


/// Following predecessors back from `v` reaches a vertex without one within `fuel` steps.
pub open spec fn root_within(pred: Seq<Option<usize>>, v: int, fuel: nat) -> bool
    decreases fuel,
{
    match pred[v] {
        None => true,
        Some(u) => fuel > 0 && root_within(pred, u as int, (fuel - 1) as nat),
    }
}

/// `p` is a predecessor chain: it begins at a vertex without predecessor, and each
/// later vertex has the one before it as predecessor.
pub open spec fn is_pred_chain(pred: Seq<Option<usize>>, p: Seq<usize>) -> bool {
    &&& p.len() >= 1
    &&& forall|i: int| 0 <= i < p.len() ==> (#[trigger] p[i]) < pred.len()
    &&& pred[p[0] as int] is None
    &&& forall|i: int| 0 <= i < p.len() - 1 ==> pred[#[trigger] p[i + 1] as int] == Some(p[i])
}

pub open spec fn preds_in_range(pred: Seq<Option<usize>>) -> bool {
    forall|v: int| 0 <= v < pred.len() && (#[trigger] pred[v]) is Some ==> pred[v]->Some_0 < pred.len()
}

/// The path of predecessors that ends at `target`, if `target` has a predecessor and
/// the chain back from it ends within as many steps as there are vertices.
pub fn reconstruct_shortest_path(predecessor: &Vec<Option<usize>>, target: usize) -> (r: Option<Vec<usize>>)
    requires
        target < predecessor@.len(),
        preds_in_range(predecessor@),
    ensures
        r is Some <==> predecessor@[target as int] is Some
            && root_within(predecessor@, target as int, predecessor@.len()),
        r matches Some(p) ==> is_pred_chain(predecessor@, p@) && p@.last() == target && p@.len() >= 2,
{
    let n = predecessor.len();
    if predecessor[target].is_none() {
        return None;
    }
    // `back` holds the chain from `target` backwards.
    let mut back: Vec<usize> = Vec::new();
    let mut current = target;
    let mut steps: usize = 0;
    while predecessor[current].is_some()
        invariant_except_break
            root_within(predecessor@, target as int, n as nat)
                <==> root_within(predecessor@, current as int, (n - steps) as nat),
        invariant
            n == predecessor@.len(),
            preds_in_range(predecessor@),
            current < n,
            steps <= n,
            back@.len() == steps,
            steps == 0 ==> current == target,
            steps > 0 ==> back@[0] == target,
            forall|i: int| 0 <= i < steps ==> (#[trigger] back@[i]) < n,
            forall|i: int| 0 <= i < steps - 1 ==> predecessor@[#[trigger] back@[i] as int] == Some(back@[i + 1]),
            steps > 0 ==> predecessor@[back@[steps - 1] as int] == Some(current),
        ensures
            steps == n || predecessor@[current as int] is None,
            root_within(predecessor@, target as int, n as nat)
                <==> (predecessor@[current as int] is None && steps <= n),
        decreases n - steps,
    {
        if steps == n {
            assert(!root_within(predecessor@, current as int, 0));
            break;
        }
        back.push(current);
        current = predecessor[current].unwrap();
        steps = steps + 1;
    }
    if predecessor[current].is_some() {
        return None;
    }
    back.push(current);
    let len = back.len();
    let mut path: Vec<usize> = Vec::new();
    let mut i: usize = 0;
    while i < len
        invariant
            len == back@.len(),
            i <= len,
            path@ == Seq::new(i as nat, |j: int| back@[len - 1 - j]),
        decreases len - i,
    {
        path.push(back[len - 1 - i]);
        i = i + 1;
    }
    proof {
        assert forall|j: int| 0 <= j < path@.len() - 1 implies
            predecessor@[#[trigger] path@[j + 1] as int] == Some(path@[j]) by {
            assert(path@[j + 1] == back@[len - 2 - j]);
            assert(path@[j] == back@[len - 1 - j]);
        }
    }
    Some(path)
}

/// One target's result: the path to it, if there is one, and its distance (zero when
/// it has none).
pub struct PathResult {
    pub path: Option<Vec<usize>>,
    pub target_node: usize,
    pub total_cost: u128,
}

/// The path to and distance of each target, from one search out of `start`.
pub fn find_shortest_paths(graph: &Vec<Vec<Node>>, start: usize, target_nodes: &Vec<usize>) -> (r: Vec<PathResult>)
    requires
        graph_wf(graph@),
        start < graph@.len(),
        forall|i: int| 0 <= i < target_nodes@.len() ==> (#[trigger] target_nodes@[i]) < graph@.len(),
    ensures
        exists|dist: Seq<Option<u128>>, pred: Seq<Option<usize>>| {
            &&& shortest_paths_from(graph@, start as int, dist, pred)
            &&& results_of(dist, pred, target_nodes@, r@)
        },
{
    let (shortest_distances, predecessors) = dijkstra(graph, start);
    proof {
        assert forall|v: int| 0 <= v < predecessors@.len() && (#[trigger] predecessors@[v]) is Some
            implies predecessors@[v]->Some_0 < predecessors@.len() by {
            assert(pred_step(graph@, shortest_distances@, predecessors@, v));
        }
    }
    let mut results: Vec<PathResult> = Vec::new();
    let mut i: usize = 0;
    while i < target_nodes.len()
        invariant
            shortest_paths_from(graph@, start as int, shortest_distances@, predecessors@),
            preds_in_range(predecessors@),
            forall|j: int| 0 <= j < target_nodes@.len() ==> (#[trigger] target_nodes@[j]) < graph@.len(),
            i <= target_nodes@.len(),
            results@.len() == i,
            forall|j: int| 0 <= j < i ==> result_of(shortest_distances@, predecessors@, target_nodes@[j], #[trigger] results@[j]),
        decreases target_nodes@.len() - i,
    {
        let t = target_nodes[i];
        let path = reconstruct_shortest_path(&predecessors, t);
        let total_cost = match shortest_distances[t] {
            None => 0,
            Some(d) => d,
        };
        results.push(PathResult { path, target_node: t, total_cost });
        i = i + 1;
    }
    results
}

/// `res` reports target `t`: its predecessor path, if any, and its distance, zero if none.
pub open spec fn result_of(dist: Seq<Option<u128>>, pred: Seq<Option<usize>>, t: usize, res: PathResult) -> bool {
    &&& res.target_node == t
    &&& res.total_cost == match dist[t as int] { Some(d) => d, None => 0 }
    &&& (res.path is Some <==> pred[t as int] is Some && root_within(pred, t as int, pred.len()))
    &&& (res.path matches Some(p) ==> is_pred_chain(pred, p@) && p@.last() == t && p@.len() >= 2)
}

pub open spec fn results_of(
    dist: Seq<Option<u128>>,
    pred: Seq<Option<usize>>,
    targets: Seq<usize>,
    rs: Seq<PathResult>,
) -> bool {
    &&& rs.len() == targets.len()
    &&& forall|j: int| 0 <= j < rs.len() ==> result_of(dist, pred, targets[j], #[trigger] rs[j])
}

/// The targets that some walk from `start` reaches, in the order given.
pub fn find_connected_targets(graph: &Vec<Vec<Node>>, start: usize, targets: &Vec<usize>) -> (r: Vec<usize>)
    requires
        graph_wf(graph@),
        start < graph@.len(),
        forall|i: int| 0 <= i < targets@.len() ==> (#[trigger] targets@[i]) < graph@.len(),
    ensures
        r@ == targets@.filter(|t: usize| reachable(graph@, start as int, t as int)),
{
    let (distance, predecessor) = dijkstra(graph, start);
    let n = graph.len();
    assert(graph@.len() == n);
    let mut connected: Vec<usize> = Vec::new();
    let mut i: usize = 0;
    while i < targets.len()
        invariant
            shortest_paths_from(graph@, start as int, distance@, predecessor@),
            graph@.len() <= usize::MAX,
            forall|j: int| 0 <= j < targets@.len() ==> (#[trigger] targets@[j]) < graph@.len(),
            i <= targets@.len(),
            connected@ == targets@.subrange(0, i as int).filter(|t: usize| reachable(graph@, start as int, t as int)),
        decreases targets@.len() - i,
    {
        let t = targets[i];
        proof {
            assert(targets@.subrange(0, i + 1).drop_last() =~= targets@.subrange(0, i as int));
            reveal(Seq::filter);
            lemma_distance_iff_reachable(graph@, start as int, distance@, predecessor@, t as int);
        }
        if distance[t].is_some() {
            connected.push(t);
        }
        i = i + 1;
    }
    assert(targets@.subrange(0, targets@.len() as int) =~= targets@);
    connected
}


/// `graph` has an edge from `u` to `v`.
pub open spec fn has_edge(graph: Seq<Vec<Node>>, u: int, v: int) -> bool {
    exists|k: int| 0 <= k < graph[u]@.len() && (#[trigger] graph[u]@[k]).index == v
}

/// `p` is a walk in `graph`: each vertex after the first is the end of an edge out of
/// the one before it.
pub open spec fn is_walk(graph: Seq<Vec<Node>>, p: Seq<usize>) -> bool {
    &&& p.len() >= 1
    &&& forall|i: int| 0 <= i < p.len() ==> (#[trigger] p[i]) < graph.len()
    &&& forall|i: int| 0 <= i < p.len() - 1 ==> has_edge(graph, #[trigger] p[i] as int, p[i + 1] as int)
}

/// Some walk in `graph` leads from `s` to `t`.
pub open spec fn reachable(graph: Seq<Vec<Node>>, s: int, t: int) -> bool {
    exists|p: Seq<usize>| #[trigger] is_walk(graph, p) && p[0] == s && p.last() == t
}

/// A search reaches the end of every walk from its start.
proof fn lemma_walk_has_distance(
    graph: Seq<Vec<Node>>,
    start: int,
    dist: Seq<Option<u128>>,
    pred: Seq<Option<usize>>,
    p: Seq<usize>,
)
    requires
        shortest_paths_from(graph, start, dist, pred),
        is_walk(graph, p),
        p[0] == start,
    ensures
        dist[p.last() as int] is Some,
    decreases p.len(),
{
    if p.len() > 1 {
        let q = p.drop_last();
        assert(is_walk(graph, q)) by {
            assert forall|i: int| 0 <= i < q.len() - 1 implies has_edge(graph, #[trigger] q[i] as int, q[i + 1] as int) by {
                assert(q[i] == p[i] && q[i + 1] == p[i + 1]);
            }
        }
        lemma_walk_has_distance(graph, start, dist, pred, q);
        let u = p[p.len() - 2] as int;
        assert(has_edge(graph, u, p.last() as int));
        let k = choose|k: int| 0 <= k < graph[u]@.len() && (#[trigger] graph[u]@[k]).index == p.last() as int;
        assert(edge_relaxed(graph, dist, u, k));
    }
}

/// Every vertex a search gives a distance is reached by a walk from its start.
proof fn lemma_distance_has_walk(
    graph: Seq<Vec<Node>>,
    start: int,
    dist: Seq<Option<u128>>,
    pred: Seq<Option<usize>>,
    rank: Seq<nat>,
    v: int,
)
    requires
        shortest_paths_from(graph, start, dist, pred),
        rank.len() == pred.len(),
        forall|x: int| 0 <= x < pred.len() && (#[trigger] pred[x]) is Some ==> rank[pred[x]->Some_0 as int] < rank[x],
        0 <= v < graph.len() <= usize::MAX,
        dist[v] is Some,
    ensures
        reachable(graph, start, v),
    decreases rank[v],
{
    if v == start {
        let p = seq![v as usize];
        assert(p[0] == v && p.last() == v);
        assert(is_walk(graph, p));
    } else {
        let u = pred[v]->Some_0 as int;
        assert(pred_step(graph, dist, pred, v));
        lemma_distance_has_walk(graph, start, dist, pred, rank, u);
        let p = choose|p: Seq<usize>| #[trigger] is_walk(graph, p) && p[0] == start && p.last() == u;
        let k = choose|k: int| #![trigger graph[u]@[k]]
            0 <= k < graph[u]@.len() && graph[u]@[k].index == v
                && dist[v]->Some_0 == dist[u]->Some_0 + graph[u]@[k].distance;
        let q = p.push(v as usize);
        assert(has_edge(graph, u, v));
        assert(is_walk(graph, q)) by {
            assert forall|i: int| 0 <= i < q.len() - 1 implies has_edge(graph, #[trigger] q[i] as int, q[i + 1] as int) by {
                if i < p.len() - 1 {
                    assert(q[i] == p[i] && q[i + 1] == p[i + 1]);
                }
            }
        }
    }
}

/// A search from `start` gives a vertex a distance exactly when some walk leads there
/// from `start`.
pub proof fn lemma_distance_iff_reachable(
    graph: Seq<Vec<Node>>,
    start: int,
    dist: Seq<Option<u128>>,
    pred: Seq<Option<usize>>,
    v: int,
)
    requires
        shortest_paths_from(graph, start, dist, pred),
        0 <= v < graph.len() <= usize::MAX,
    ensures
        dist[v] is Some <==> reachable(graph, start, v),
{
    if dist[v] is Some {
        let rank = choose|rank: Seq<nat>| #![trigger rank.len()] {
            &&& rank.len() == pred.len()
            &&& forall|x: int| 0 <= x < pred.len() ==> #[trigger] rank[x] < pred.len()
            &&& forall|x: int| 0 <= x < pred.len() && (#[trigger] pred[x]) is Some ==> rank[pred[x]->Some_0 as int] < rank[x]
        };
        lemma_distance_has_walk(graph, start, dist, pred, rank, v);
    }
    if reachable(graph, start, v) {
        let p = choose|p: Seq<usize>| #[trigger] is_walk(graph, p) && p[0] == start && p.last() == v;
        lemma_walk_has_distance(graph, start, dist, pred, p);
    }
}


/// `p` is a walk in `graph` that leaves each vertex but the last by its edge `ks[i]`.
pub open spec fn is_walk_via(graph: Seq<Vec<Node>>, p: Seq<usize>, ks: Seq<int>) -> bool {
    &&& p.len() == ks.len() + 1
    &&& forall|i: int| 0 <= i < p.len() ==> (#[trigger] p[i]) < graph.len()
    &&& forall|i: int| 0 <= i < ks.len() ==> 0 <= #[trigger] ks[i] < graph[p[i] as int]@.len()
        && graph[p[i] as int]@[ks[i]].index == p[i + 1]
}

/// The summed weight of the edges a walk takes.
pub open spec fn walk_cost(graph: Seq<Vec<Node>>, p: Seq<usize>, ks: Seq<int>) -> int
    decreases ks.len(),
{
    if ks.len() == 0 {
        0
    } else {
        walk_cost(graph, p.drop_last(), ks.drop_last()) + graph[p[ks.len() - 1] as int]@[ks.last()].distance
    }
}

/// A walk through chosen edges is a walk.
pub proof fn lemma_walk_via_reaches(graph: Seq<Vec<Node>>, p: Seq<usize>, ks: Seq<int>)
    requires
        is_walk_via(graph, p, ks),
    ensures
        reachable(graph, p[0] as int, p.last() as int),
{
    assert forall|i: int| 0 <= i < p.len() - 1 implies has_edge(graph, #[trigger] p[i] as int, p[i + 1] as int) by {
        assert(0 <= ks[i] < graph[p[i] as int]@.len() && graph[p[i] as int]@[ks[i]].index == p[i + 1]);
    }
    assert(is_walk(graph, p));
}

/// No walk from the start of a search costs less than the distance the search gives
/// the walk's end.
pub proof fn lemma_distance_is_least(
    graph: Seq<Vec<Node>>,
    start: int,
    dist: Seq<Option<u128>>,
    pred: Seq<Option<usize>>,
    p: Seq<usize>,
    ks: Seq<int>,
)
    requires
        shortest_paths_from(graph, start, dist, pred),
        is_walk_via(graph, p, ks),
        p[0] == start,
    ensures
        dist[p.last() as int] is Some,
        dist[p.last() as int]->Some_0 <= walk_cost(graph, p, ks),
    decreases ks.len(),
{
    if ks.len() > 0 {
        let q = p.drop_last();
        let js = ks.drop_last();
        assert(is_walk_via(graph, q, js)) by {
            assert forall|i: int| 0 <= i < js.len() implies 0 <= #[trigger] js[i] < graph[q[i] as int]@.len()
                && graph[q[i] as int]@[js[i]].index == q[i + 1] by {
                assert(js[i] == ks[i] && q[i] == p[i] && q[i + 1] == p[i + 1]);
            }
        }
        lemma_distance_is_least(graph, start, dist, pred, q, js);
        let u = p[ks.len() - 1] as int;
        assert(ks[ks.len() - 1] == ks.last());
        assert(edge_relaxed(graph, dist, u, ks.last()));
    }
}

/// A predecessor chain that a search leaves, ending at `t`, is a walk from its start
/// whose cost is the distance the search gives `t`.
pub proof fn lemma_pred_chain_is_shortest(
    graph: Seq<Vec<Node>>,
    start: int,
    dist: Seq<Option<u128>>,
    pred: Seq<Option<usize>>,
    p: Seq<usize>,
)
    requires
        shortest_paths_from(graph, start, dist, pred),
        is_pred_chain(pred, p),
        p.len() >= 2,
    ensures
        p[0] == start,
        dist[p.last() as int] is Some,
        exists|ks: Seq<int>| #[trigger] is_walk_via(graph, p, ks)
            && dist[p.last() as int]->Some_0 == walk_cost(graph, p, ks),
    decreases p.len(),
{
    let v = p[p.len() - 1] as int;
    let u = p[p.len() - 2] as int;
    assert(pred[p[(p.len() - 2) + 1] as int] == Some(p[p.len() - 2]));
    assert(pred[v] == Some(p[p.len() - 2]));
    assert(pred_step(graph, dist, pred, v));
    let k = choose|k: int| #![trigger graph[u]@[k]]
        0 <= k < graph[u]@.len() && graph[u]@[k].index == v
            && dist[v]->Some_0 == dist[u]->Some_0 + graph[u]@[k].distance;
    let q = p.drop_last();
    let js: Seq<int>;
    if q.len() == 1 {
        assert(pred[q[0] as int] is None);
        assert(q[0] == start) by {
            if q[0] != start {
                assert(dist[q[0] as int] is Some);
            }
        }
        js = Seq::empty();
        assert(is_walk_via(graph, q, js));
        assert(dist[q[0] as int] == Some(0u128));
    } else {
        assert(is_pred_chain(pred, q)) by {
            assert forall|i: int| 0 <= i < q.len() - 1 implies pred[#[trigger] q[i + 1] as int] == Some(q[i]) by {
                assert(q[i + 1] == p[i + 1] && q[i] == p[i]);
            }
        }
        lemma_pred_chain_is_shortest(graph, start, dist, pred, q);
        js = choose|js: Seq<int>| #[trigger] is_walk_via(graph, q, js)
            && dist[q.last() as int]->Some_0 == walk_cost(graph, q, js);
    }
    assert(p[0] == q[0]);
    assert(q.last() == u);
    let ks = js.push(k);
    assert(ks.drop_last() =~= js);
    assert(is_walk_via(graph, p, ks)) by {
        assert forall|i: int| 0 <= i < ks.len() implies 0 <= #[trigger] ks[i] < graph[p[i] as int]@.len()
            && graph[p[i] as int]@[ks[i]].index == p[i + 1] by {
            if i < js.len() {
                assert(ks[i] == js[i] && q[i] == p[i] && q[i + 1] == p[i + 1]);
            }
        }
    }
    assert(walk_cost(graph, p, ks) == walk_cost(graph, q, js) + graph[u]@[k].distance);
}


/// Every edge of `graph` has an edge back.
pub open spec fn symmetric(graph: Seq<Vec<Node>>) -> bool {
    forall|u: int, v: int| 0 <= u < graph.len() && #[trigger] has_edge(graph, u, v) ==> has_edge(graph, v, u)
}

/// In a graph whose edges all have edges back, whatever `a` reaches reaches `a`.
pub proof fn lemma_reachable_back(graph: Seq<Vec<Node>>, a: int, b: int)
    requires
        symmetric(graph),
        reachable(graph, a, b),
    ensures
        reachable(graph, b, a),
{
    let p = choose|p: Seq<usize>| #[trigger] is_walk(graph, p) && p[0] == a && p.last() == b;
    let n = p.len();
    let q = Seq::new(n, |i: int| p[n - 1 - i]);
    assert(is_walk(graph, q)) by {
        assert forall|i: int| 0 <= i < q.len() - 1 implies has_edge(graph, #[trigger] q[i] as int, q[i + 1] as int) by {
            let j = n - 2 - i;
            assert(has_edge(graph, p[j] as int, p[j + 1] as int));
            assert(q[i] == p[j + 1] && q[i + 1] == p[j]);
        }
        assert forall|i: int| 0 <= i < q.len() implies (#[trigger] q[i]) < graph.len() by {
            assert(q[i] == p[n - 1 - i]);
        }
    }
    assert(q[0] == b && q.last() == a);
}

/// Reaching is transitive.
pub proof fn lemma_reachable_trans(graph: Seq<Vec<Node>>, a: int, b: int, c: int)
    requires
        reachable(graph, a, b),
        reachable(graph, b, c),
    ensures
        reachable(graph, a, c),
{
    let p = choose|p: Seq<usize>| #[trigger] is_walk(graph, p) && p[0] == a && p.last() == b;
    let q = choose|q: Seq<usize>| #[trigger] is_walk(graph, q) && q[0] == b && q.last() == c;
    let w = p + q.drop_first();
    assert(is_walk(graph, w)) by {
        assert forall|i: int| 0 <= i < w.len() implies (#[trigger] w[i]) < graph.len() by {
            if i >= p.len() {
                assert(w[i] == q[i - p.len() + 1]);
            }
        }
        assert forall|i: int| 0 <= i < w.len() - 1 implies has_edge(graph, #[trigger] w[i] as int, w[i + 1] as int) by {
            if i < p.len() - 1 {
                assert(w[i] == p[i] && w[i + 1] == p[i + 1]);
            } else if i == p.len() - 1 {
                assert(w[i] == q[0] && w[i + 1] == q[1]);
            } else {
                let j = i - p.len() + 1;
                assert(w[i] == q[j] && w[i + 1] == q[j + 1]);
            }
        }
    }
    if q.len() == 1 {
        assert(w.last() == p.last());
    } else {
        assert(w.last() == q.last());
    }
}

/// A ranked predecessor chain ends within as many steps as there are vertices.
pub proof fn lemma_ranked_root_within(pred: Seq<Option<usize>>, rank: Seq<nat>, v: int, fuel: nat)
    requires
        rank.len() == pred.len(),
        forall|x: int| 0 <= x < pred.len() && (#[trigger] pred[x]) is Some ==> rank[pred[x]->Some_0 as int] < rank[x],
        preds_in_range(pred),
        0 <= v < pred.len(),
        rank[v] < fuel,
    ensures
        root_within(pred, v, fuel),
    decreases fuel,
{
    if let Some(u) = pred[v] {
        lemma_ranked_root_within(pred, rank, u as int, (fuel - 1) as nat);
    }
}

/// A search from `start` finds a path to every vertex but `start` that it reaches.
pub proof fn lemma_reached_has_path(
    graph: Seq<Vec<Node>>,
    start: int,
    dist: Seq<Option<u128>>,
    pred: Seq<Option<usize>>,
    v: int,
)
    requires
        shortest_paths_from(graph, start, dist, pred),
        0 <= v < graph.len() <= usize::MAX,
        v != start,
        reachable(graph, start, v),
    ensures
        pred[v] is Some,
        root_within(pred, v, pred.len()),
{
    lemma_distance_iff_reachable(graph, start, dist, pred, v);
    let rank = choose|rank: Seq<nat>| #![trigger rank.len()] {
        &&& rank.len() == pred.len()
        &&& forall|x: int| 0 <= x < pred.len() ==> #[trigger] rank[x] < pred.len()
        &&& forall|x: int| 0 <= x < pred.len() && (#[trigger] pred[x]) is Some ==> rank[pred[x]->Some_0 as int] < rank[x]
    };
    assert(preds_in_range(pred)) by {
        assert forall|x: int| 0 <= x < pred.len() && (#[trigger] pred[x]) is Some implies pred[x]->Some_0 < pred.len() by {
            assert(pred_step(graph, dist, pred, x));
        }
    }
    lemma_ranked_root_within(pred, rank, v, pred.len());
}


/// Every vertex a search gives a distance is the end of a walk from the start whose cost
/// is that distance, and which passes through that vertex only at its end.
pub proof fn lemma_shortest_walk_exists(
    graph: Seq<Vec<Node>>,
    start: int,
    dist: Seq<Option<u128>>,
    pred: Seq<Option<usize>>,
    rank: Seq<nat>,
    v: int,
) -> (w: (Seq<usize>, Seq<int>))
    requires
        shortest_paths_from(graph, start, dist, pred),
        rank.len() == pred.len(),
        forall|x: int| 0 <= x < pred.len() && (#[trigger] pred[x]) is Some ==> rank[pred[x]->Some_0 as int] < rank[x],
        0 <= v < graph.len() <= usize::MAX,
        dist[v] is Some,
    ensures
        is_walk_via(graph, w.0, w.1),
        w.0[0] == start,
        w.0.last() == v,
        walk_cost(graph, w.0, w.1) == dist[v]->Some_0,
        forall|i: int| 0 <= i < w.0.len() - 1 ==> rank[#[trigger] w.0[i] as int] < rank[v],
    decreases rank[v],
{
    if v == start {
        let p = seq![v as usize];
        assert(p[0] == v && p.last() == v);
        let ks: Seq<int> = Seq::empty();
        assert(is_walk_via(graph, p, ks));
        (p, ks)
    } else {
        let u = pred[v]->Some_0 as int;
        assert(pred_step(graph, dist, pred, v));
        let (p, js) = lemma_shortest_walk_exists(graph, start, dist, pred, rank, u);
        let k = choose|k: int| #![trigger graph[u]@[k]]
            0 <= k < graph[u]@.len() && graph[u]@[k].index == v
                && dist[v]->Some_0 == dist[u]->Some_0 + graph[u]@[k].distance;
        let q = p.push(v as usize);
        let ks = js.push(k);
        assert(q.drop_last() =~= p);
        assert(ks.drop_last() =~= js);
        assert(is_walk_via(graph, q, ks)) by {
            assert forall|i: int| 0 <= i < ks.len() implies 0 <= #[trigger] ks[i] < graph[q[i] as int]@.len()
                && graph[q[i] as int]@[ks[i]].index == q[i + 1] by {
                if i < js.len() {
                    assert(ks[i] == js[i] && q[i] == p[i] && q[i + 1] == p[i + 1]);
                } else {
                    assert(q[i] == p.last());
                }
            }
        }
        assert(walk_cost(graph, q, ks) == walk_cost(graph, p, js) + graph[u]@[k].distance);
        assert forall|i: int| 0 <= i < q.len() - 1 implies rank[#[trigger] q[i] as int] < rank[v] by {
            assert(q[i] == p[i]);
        }
        (q, ks)
    }
}

} // verus!

use vstd::prelude::*;
use crate::tile::{Tile, edge_weight, edge_weight_spec, is_walkable, lemma_edge_weight_bound, MAX_EDGE_WEIGHT};
use crate::grid::{Grid, cell_index, index_of, lemma_index_linear, lemma_index_bounds, lemma_index_inverse, lemma_index_order};

verus! {

/// An outgoing edge: the vertex it leads to and the cost of taking it.
#[derive(Clone, Copy, Debug, PartialEq, Eq, Structural)]
pub struct Node {
    pub index: usize,
    pub distance: u64,
}

impl Node {
    pub fn new(index: usize, weight: u64) -> (r: Node)
        ensures
            r.index == index,
            r.distance == weight,
    {
        Node { index, distance: weight }
    }
}

/// The edge from cell `(r, c)` to cell `(nr, nc)`, if the latter exists and is walkable.
pub open spec fn edge_to(g: Grid, r: int, c: int, nr: int, nc: int) -> Seq<Node> {
    if g.in_bounds(nr, nc) && g.tile(nr, nc).walkable {
        seq![Node {
            index: index_of(g.cols as int, nr, nc) as usize,
            distance: edge_weight_spec(g.tile(nr, nc), g.tile(r, c)) as u64,
        }]
    } else {
        seq![]
    }
}

/// The edges leaving a walkable cell `(r, c)`: towards the row above, the
/// column to the right, the row below and the column to the left, in that order.
#[verifier::opaque]
pub open spec fn neighbour_edges(g: Grid, r: int, c: int) -> Seq<Node> {
    edge_to(g, r, c, r - 1, c) + edge_to(g, r, c, r, c + 1) + edge_to(g, r, c, r + 1, c)
        + edge_to(g, r, c, r, c - 1)
}

/// The edges leaving cell `(r, c)`: none from a cell that cannot be walked on.
pub open spec fn cell_edges(g: Grid, r: int, c: int) -> Seq<Node> {
    if g.tile(r, c).walkable { neighbour_edges(g, r, c) } else { seq![] }
}

/// The graph of a grid: one adjacency list per cell, in row-major order.
pub open spec fn graph_of(g: Grid, graph: Seq<Vec<Node>>) -> bool {
    &&& graph.len() == g.len()
    &&& forall|r: int, c: int| #![trigger index_of(g.cols as int, r, c)]
        g.in_bounds(r, c) ==> graph[index_of(g.cols as int, r, c)]@ == cell_edges(g, r, c)
}

/// A graph whose edges lead to existing vertices.
pub open spec fn graph_wf(graph: Seq<Vec<Node>>) -> bool {
    forall|u: int, k: int| 0 <= u < graph.len() && 0 <= k < graph[u]@.len() ==> {
        &&& (#[trigger] graph[u]@[k]).index < graph.len()
    }
}

/// Every edge leaving a cell leads to a cell of the grid and carries a bounded weight.
pub proof fn lemma_cell_edges_wf(g: Grid, r: int, c: int)
    requires
        g.wf(),
        g.in_bounds(r, c),
    ensures
        forall|k: int| 0 <= k < cell_edges(g, r, c).len() ==> {
            &&& (#[trigger] cell_edges(g, r, c)[k]).index < g.len()
            &&& cell_edges(g, r, c)[k].distance <= MAX_EDGE_WEIGHT
        },
{
    reveal(neighbour_edges);
    lemma_edge_weight_bound(g.tile(r - 1, c), g.tile(r, c));
    lemma_edge_weight_bound(g.tile(r + 1, c), g.tile(r, c));
    lemma_edge_weight_bound(g.tile(r, c - 1), g.tile(r, c));
    lemma_edge_weight_bound(g.tile(r, c + 1), g.tile(r, c));
    if r >= 1 {
        lemma_index_bounds(g.rows as int, g.cols as int, r - 1, c);
    }
    if r + 1 < g.rows {
        lemma_index_bounds(g.rows as int, g.cols as int, r + 1, c);
    }
    if c >= 1 {
        lemma_index_bounds(g.rows as int, g.cols as int, r, c - 1);
    }
    if c + 1 < g.cols {
        lemma_index_bounds(g.rows as int, g.cols as int, r, c + 1);
    }
}

fn push_edge(g: &Grid, tile: &Tile, r: usize, c: usize, nr: usize, nc: usize, out: &mut Vec<Node>)
    requires
        g.wf(),
        g.in_bounds(r as int, c as int),
        g.in_bounds(nr as int, nc as int),
        *tile == g.tile(r as int, c as int),
    ensures
        final(out)@ == old(out)@ + edge_to(*g, r as int, c as int, nr as int, nc as int),
{
    let v = cell_index(g.rows, g.cols, nr, nc);
    let dest = &g.tiles[v];
    if is_walkable(dest) {
        out.push(Node::new(v, edge_weight(dest, tile)));
    }
}

/// The edges leaving the walkable cell `(x, y)`, which holds `tile`.
pub fn get_neighbours(g: &Grid, x: usize, y: usize, tile: &Tile) -> (r: Vec<Node>)
    requires
        g.wf(),
        g.in_bounds(x as int, y as int),
        *tile == g.tile(x as int, y as int),
    ensures
        r@ == neighbour_edges(*g, x as int, y as int),
{
    let mut out: Vec<Node> = Vec::new();
    if x >= 1 {
        push_edge(g, tile, x, y, x - 1, y, &mut out);
    }
    if y + 1 < g.cols {
        push_edge(g, tile, x, y, x, y + 1, &mut out);
    }
    if x + 1 < g.rows {
        push_edge(g, tile, x, y, x + 1, y, &mut out);
    }
    if y >= 1 {
        push_edge(g, tile, x, y, x, y - 1, &mut out);
    }
    reveal(neighbour_edges);
    assert(out@ =~= neighbour_edges(*g, x as int, y as int));
    out
}


/// The vertex of each cell in `cells`, in the same order.
pub open spec fn vertices_of(cols: int, cells: Seq<(usize, usize)>) -> Seq<usize> {
    cells.map_values(|p: (usize, usize)| index_of(cols, p.0 as int, p.1 as int) as usize)
}

/// Builds the graph of `g`, and finds the vertices of the targets and of the start.
pub fn change_matrix(g: &Grid, targets: &Vec<(usize, usize)>, start: (usize, usize)) -> (r: (
    Vec<Vec<Node>>,
    Vec<usize>,
    usize,
))
    requires
        g.wf(),
        g.in_bounds(start.0 as int, start.1 as int),
        forall|i: int| 0 <= i < targets@.len() ==> g.in_bounds(
            (#[trigger] targets@[i]).0 as int,
            targets@[i].1 as int,
        ),
    ensures
        graph_of(*g, r.0@),
        graph_wf(r.0@),
        r.1@ == vertices_of(g.cols as int, targets@),
        r.2 == index_of(g.cols as int, start.0 as int, start.1 as int),
{
    let mut graph: Vec<Vec<Node>> = Vec::new();
    let mut x: usize = 0;
    proof { lemma_index_linear(g.cols as int, 0, 0); }
    while x < g.rows
        invariant
            g.wf(),
            x <= g.rows,
            graph@.len() == index_of(g.cols as int, x as int, 0),
            forall|r: int, c: int| #![trigger index_of(g.cols as int, r, c)]
                0 <= r < x && 0 <= c < g.cols ==> graph@[index_of(g.cols as int, r, c)]@
                    == cell_edges(*g, r, c),
        decreases g.rows - x,
    {
        let mut y: usize = 0;
        while y < g.cols
            invariant
                g.wf(),
                x < g.rows,
                y <= g.cols,
                graph@.len() == index_of(g.cols as int, x as int, y as int),
                forall|r: int, c: int| #![trigger index_of(g.cols as int, r, c)]
                    (0 <= r < x && 0 <= c < g.cols) || (r == x && 0 <= c < y)
                    ==> graph@[index_of(g.cols as int, r, c)]@ == cell_edges(*g, r, c),
            decreases g.cols - y,
        {
            let v = cell_index(g.rows, g.cols, x, y);
            let tile = &g.tiles[v];
            let edges = if is_walkable(tile) {
                get_neighbours(g, x, y, tile)
            } else {
                Vec::new()
            };
            assert(edges@ == cell_edges(*g, x as int, y as int));
            let ghost prev = graph@;
            graph.push(edges);
            proof {
                lemma_index_bounds(g.rows as int, g.cols as int, x as int, y as int);
                assert forall|r: int, c: int| #![trigger index_of(g.cols as int, r, c)]
                    (0 <= r < x && 0 <= c < g.cols) || (r == x && 0 <= c < y + 1)
                    implies graph@[index_of(g.cols as int, r, c)]@ == cell_edges(*g, r, c) by {
                    if r != x || c != y {
                        lemma_index_order(g.cols as int, r, c, x as int, y as int);
                        lemma_index_bounds(g.rows as int, g.cols as int, r, c);
                    } else {
                        assert(graph@[index_of(g.cols as int, r, c)] == edges);
                    }
                }
            }
            y = y + 1;
        }
        proof {
            lemma_index_linear(g.cols as int, x as int, g.cols as int);
            lemma_index_linear(g.cols as int, x as int + 1, 0);
            assert((x + 1) * g.cols == x * g.cols + g.cols) by (nonlinear_arith);
        }
        x = x + 1;
    }
    proof {
        lemma_index_bounds(g.rows as int + 1, g.cols as int, g.rows as int, 0);
        assert forall|u: int, k: int| 0 <= u < graph@.len() && 0 <= k < graph@[u]@.len()
            implies (#[trigger] graph@[u]@[k]).index < graph@.len() by {
            lemma_index_inverse(g.rows as int, g.cols as int, u);
            let r = u / g.cols as int;
            let c = u % g.cols as int;
            assert(graph@[index_of(g.cols as int, r, c)]@ == cell_edges(*g, r, c));
            lemma_cell_edges_wf(*g, r, c);
            assert(graph@[u]@[k] == cell_edges(*g, r, c)[k]);
        }
    }
    let mut target_nodes: Vec<usize> = Vec::new();
    let mut i: usize = 0;
    while i < targets.len()
        invariant
            g.wf(),
            i <= targets@.len(),
            forall|j: int| 0 <= j < targets@.len() ==> g.in_bounds(
                (#[trigger] targets@[j]).0 as int,
                targets@[j].1 as int,
            ),
            target_nodes@ == vertices_of(g.cols as int, targets@.subrange(0, i as int)),
        decreases targets@.len() - i,
    {
        let (tx, ty) = targets[i];
        target_nodes.push(cell_index(g.rows, g.cols, tx, ty));
        proof {
            assert(targets@.subrange(0, i + 1) =~= targets@.subrange(0, i as int).push(targets@[i as int]));
            assert(target_nodes@ =~= vertices_of(g.cols as int, targets@.subrange(0, i + 1)));
        }
        i = i + 1;
    }
    assert(targets@.subrange(0, targets@.len() as int) =~= targets@);
    let start_index = cell_index(g.rows, g.cols, start.0, start.1);
    (graph, target_nodes, start_index)
}


/// The cells side by side with `(r, c)` that exist and can be walked on, as
/// `neighbour_edges` lists them: the edges out of a walkable cell lead to exactly these.
pub open spec fn open_side(g: Grid, r: int, c: int, nr: int, nc: int) -> bool {
    &&& g.in_bounds(nr, nc)
    &&& g.tile(nr, nc).walkable
    &&& ((nr == r - 1 && nc == c) || (nr == r && nc == c + 1) || (nr == r + 1 && nc == c) || (nr == r && nc == c - 1))
}

/// An edge out of a walkable cell leads to a walkable cell beside it, and every walkable
/// cell beside it is the end of such an edge.
pub proof fn lemma_cell_edges_sides(g: Grid, r: int, c: int)
    requires
        g.wf(),
        g.in_bounds(r, c),
        g.tile(r, c).walkable,
    ensures
        forall|k: int| 0 <= k < cell_edges(g, r, c).len() ==> exists|nr: int, nc: int|
            open_side(g, r, c, nr, nc) && (#[trigger] cell_edges(g, r, c)[k]).index == index_of(g.cols as int, nr, nc),
        forall|nr: int, nc: int| #[trigger] open_side(g, r, c, nr, nc) ==> exists|k: int|
            0 <= k < cell_edges(g, r, c).len() && (#[trigger] cell_edges(g, r, c)[k]).index == index_of(g.cols as int, nr, nc),
{
    reveal(neighbour_edges);
    let a = edge_to(g, r, c, r - 1, c);
    let b = edge_to(g, r, c, r, c + 1);
    let d = edge_to(g, r, c, r + 1, c);
    let e = edge_to(g, r, c, r, c - 1);
    let s = cell_edges(g, r, c);
    assert(s == a + b + d + e);
    if r >= 1 {
        lemma_index_bounds(g.rows as int, g.cols as int, r - 1, c);
    }
    if r + 1 < g.rows {
        lemma_index_bounds(g.rows as int, g.cols as int, r + 1, c);
    }
    if c >= 1 {
        lemma_index_bounds(g.rows as int, g.cols as int, r, c - 1);
    }
    if c + 1 < g.cols {
        lemma_index_bounds(g.rows as int, g.cols as int, r, c + 1);
    }
    assert forall|k: int| 0 <= k < s.len() implies exists|nr: int, nc: int|
        open_side(g, r, c, nr, nc) && (#[trigger] s[k]).index == index_of(g.cols as int, nr, nc) by {
        if k < a.len() {
            assert(s[k] == a[k]);
            assert(open_side(g, r, c, r - 1, c));
        } else if k < a.len() + b.len() {
            assert(s[k] == b[k - a.len()]);
            assert(open_side(g, r, c, r, c + 1));
        } else if k < a.len() + b.len() + d.len() {
            assert(s[k] == d[k - a.len() - b.len()]);
            assert(open_side(g, r, c, r + 1, c));
        } else {
            assert(s[k] == e[k - a.len() - b.len() - d.len()]);
            assert(open_side(g, r, c, r, c - 1));
        }
    }
    assert forall|nr: int, nc: int| #[trigger] open_side(g, r, c, nr, nc) implies exists|k: int|
        0 <= k < s.len() && (#[trigger] s[k]).index == index_of(g.cols as int, nr, nc) by {
        if nr == r - 1 && nc == c {
            assert(s[0] == a[0]);
        } else if nr == r && nc == c + 1 {
            assert(s[a.len() as int] == b[0]);
        } else if nr == r + 1 && nc == c {
            assert(s[(a.len() + b.len()) as int] == d[0]);
        } else {
            assert(s[(a.len() + b.len() + d.len()) as int] == e[0]);
        }
    }
}

} // verus!

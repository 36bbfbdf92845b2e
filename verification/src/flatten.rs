//! Flattening a grid graph, and a path on it, into plain lists.
//!
//! The graph is walked breadth first from its first node. Each visited node
//! gives its coordinate to the node list, and each of its edges is written to
//! the edge list unless the same edge was written before from its other end.
//! On a grid that comes to this: the nodes appear diagonal by diagonal, and
//! each node writes the edge to the cell below it and the edge to the cell on
//! its right.
use crate::coordinate::Coordinate2D;
use crate::grid::{
    cell, column_of, grid_edges, grid_neighbors, in_grid, lemma_join, node_at, row_of, GridGraph,
};
use crate::store::{
    as_nodes, bfs_limit, bfs_new, bfs_next, bfs_queue, bfs_reached, graph_edges, graph_nodes,
};
use crate::sweep::{
    all_before, before, layer, lemma_done, lemma_neighbor_keys, lemma_node, lemma_place,
    lemma_step, on_course,
};
use crate::tally::{lemma_sweep_links, same_edge};
use crate::topology::lemma_neighbors;
use vstd::prelude::*;

verus! {

/// An edge of the flattened graph: the cells at its two ends, the end from
/// which it was written first, and whether both ends lie on the path.
#[derive(Clone, Copy, Debug, PartialEq, Eq, Structural)]
pub struct FlatEdge {
    pub from: Coordinate2D,
    pub to: Coordinate2D,
    pub on_path: bool,
}

/// A graph and a path as plain lists: the nodes in visiting order, each edge
/// once, and the cells of the path from its start to its goal, if there is a
/// path.
#[derive(Clone, Debug, PartialEq, Eq)]
pub struct FlattenedView {
    pub nodes: Vec<Coordinate2D>,
    pub edges: Vec<FlatEdge>,
    pub path: Option<Vec<Coordinate2D>>,
}

/// Cell `a` is visited before cell `b`: it lies on an earlier diagonal, or on
/// the same one in an earlier column.
pub open spec fn sweeps_before(a: Coordinate2D, b: Coordinate2D) -> bool {
    a.x + a.y < b.x + b.y || (a.x + a.y == b.x + b.y && a.x < b.x)
}

/// `cells` holds every cell of the grid, in visiting order.
pub open spec fn is_sweep(w: int, h: int, cells: Seq<Coordinate2D>) -> bool {
    &&& forall|i: int, j: int|
        0 <= i < j < cells.len() ==> sweeps_before(#[trigger] cells[i], #[trigger] cells[j])
    &&& forall|i: int| 0 <= i < cells.len() ==> in_grid(w, h, #[trigger] cells[i])
    &&& forall|c: Coordinate2D| #[trigger] in_grid(w, h, c) ==> cells.contains(c)
}

/// The cell below `c`.
pub open spec fn below(c: Coordinate2D) -> Coordinate2D {
    Coordinate2D { x: c.x, y: (c.y + 1) as i16 }
}

/// The cell on the right of `c`.
pub open spec fn right_of(c: Coordinate2D) -> Coordinate2D {
    Coordinate2D { x: (c.x + 1) as i16, y: c.y }
}

/// The edges that cell `c` writes: to the cell below, then to the cell on
/// the right, as far as the grid goes.
pub open spec fn cell_links(w: int, h: int, c: Coordinate2D) -> Seq<(Coordinate2D, Coordinate2D)> {
    (if c.y + 1 < h {
        seq![(c, below(c))]
    } else {
        Seq::empty()
    }) + (if c.x + 1 < w {
        seq![(c, right_of(c))]
    } else {
        Seq::empty()
    })
}

/// The edges that `cells` write, one cell after the other.
pub open spec fn links_of(w: int, h: int, cells: Seq<Coordinate2D>) -> Seq<
    (Coordinate2D, Coordinate2D),
>
    decreases cells.len(),
{
    if cells.len() == 0 {
        Seq::empty()
    } else {
        links_of(w, h, cells.drop_last()) + cell_links(w, h, cells.last())
    }
}

/// The two ends of each edge.
pub open spec fn pairs(edges: Seq<FlatEdge>) -> Seq<(Coordinate2D, Coordinate2D)> {
    edges.map_values(|e: FlatEdge| (e.from, e.to))
}

/// No two edges of the list join the same two cells, in whichever direction.
pub open spec fn no_edge_twice(edges: Seq<FlatEdge>) -> bool {
    forall|i: int, j: int|
        0 <= i < edges.len() && 0 <= j < edges.len() && i != j ==> !same_edge(
            #[trigger] pairs(edges)[i],
            #[trigger] pairs(edges)[j],
        )
}

/// The nodes of a search result, if there is one.
pub open spec fn path_nodes(path: Option<(i32, Vec<usize>)>) -> Option<Seq<int>> {
    match path {
        Some(found) => Some(as_nodes(found.1@)),
        None => None,
    }
}

/// Every member of `p` is one of the first `n` nodes.
pub open spec fn nodes_below(p: Seq<int>, n: int) -> bool {
    forall|i: int| 0 <= i < p.len() ==> 0 <= #[trigger] p[i] < n
}

/// Every node of the path, if there is one, is one of the first `n` nodes.
pub open spec fn path_fits(path: Option<Seq<int>>, n: int) -> bool {
    match path {
        Some(p) => nodes_below(p, n),
        None => true,
    }
}

/// An edge is marked exactly if there is a path and both its ends are nodes
/// of the path, whether or not the path follows the edge.
pub open spec fn marked(w: int, path: Option<Seq<int>>, a: Coordinate2D, b: Coordinate2D) -> bool {
    path matches Some(p) && p.contains(node_at(w, a.x as int, a.y as int)) && p.contains(
        node_at(w, b.x as int, b.y as int),
    )
}

/// Each edge carries the mark that [`marked`] gives it.
pub open spec fn flags_ok(w: int, path: Option<Seq<int>>, edges: Seq<FlatEdge>) -> bool {
    forall|k: int|
        0 <= k < edges.len() ==> (#[trigger] edges[k]).on_path == marked(
            w,
            path,
            edges[k].from,
            edges[k].to,
        )
}

/// The links of `cells` written so far, when the first `j` neighbours of the
/// node being visited have been looked at and the first `back` of them lie
/// behind it.
pub open spec fn written(
    w: int,
    h: int,
    seen: Seq<Coordinate2D>,
    c: Coordinate2D,
    j: int,
    back: int,
) -> Seq<(Coordinate2D, Coordinate2D)> {
    links_of(w, h, seen) + cell_links(w, h, c).take(
        if j > back {
            j - back
        } else {
            0
        },
    )
}

/// The number of neighbours that the graph lists before the cell below: the
/// cell on the left and the cell above, as far as the grid goes.
pub open spec fn behind(w: int, i: int) -> int {
    (if column_of(w, i) > 0 {
        1int
    } else {
        0int
    }) + (if row_of(w, i) > 0 {
        1int
    } else {
        0int
    })
}

/// Every link leads to the next diagonal.
pub proof fn lemma_links_forward(w: int, h: int, cells: Seq<Coordinate2D>)
    requires
        w <= i16::MAX,
        h <= i16::MAX,
    ensures
        forall|k: int|
            0 <= k < links_of(w, h, cells).len() ==> {
                let e = #[trigger] links_of(w, h, cells)[k];
                e.1.x + e.1.y == e.0.x + e.0.y + 1
            },
    decreases cells.len(),
{
    if cells.len() > 0 {
        lemma_links_forward(w, h, cells.drop_last());
        let all = links_of(w, h, cells);
        let head = links_of(w, h, cells.drop_last());
        let tail = cell_links(w, h, cells.last());
        assert(all == head + tail);
        assert forall|k: int| 0 <= k < all.len() implies {
            let e = #[trigger] all[k];
            e.1.x + e.1.y == e.0.x + e.0.y + 1
        } by {
            if k < head.len() {
                assert(all[k] == head[k]);
            } else {
                assert(all[k] == tail[k - head.len()]);
            }
        }
    }
}

/// The links of a cell are among the links of every list that holds it.
pub proof fn lemma_links_has(
    w: int,
    h: int,
    cells: Seq<Coordinate2D>,
    m: int,
    e: (Coordinate2D, Coordinate2D),
)
    requires
        0 <= m < cells.len(),
        cell_links(w, h, cells[m]).contains(e),
    ensures
        links_of(w, h, cells).contains(e),
    decreases cells.len(),
{
    let all = links_of(w, h, cells);
    let head = links_of(w, h, cells.drop_last());
    let tail = cell_links(w, h, cells.last());
    assert(all == head + tail);
    if m == cells.len() - 1 {
        let t = choose|t: int| 0 <= t < tail.len() && tail[t] == e;
        assert(all[head.len() + t] == e);
    } else {
        assert(cells.drop_last()[m] == cells[m]);
        lemma_links_has(w, h, cells.drop_last(), m, e);
        let t = choose|t: int| 0 <= t < head.len() && head[t] == e;
        assert(all[t] == e);
    }
}

/// How the neighbours of a node stand to its links: the neighbours listed
/// first lie behind the node and hold a link to it; the others are, in the
/// same order, the far ends of the node's own links.
pub proof fn lemma_around(w: int, h: int, i: int)
    requires
        0 < w <= i16::MAX,
        0 < h <= i16::MAX,
        0 <= i < w * h,
    ensures
        0 <= behind(w, i) <= 2,
        grid_neighbors(w, h, i).len() == behind(w, i) + cell_links(w, h, cell(w, i)).len(),
        forall|j: int|
            0 <= j < behind(w, i) ==> {
                let m = #[trigger] grid_neighbors(w, h, i)[j];
                &&& 0 <= m < w * h
                &&& before(w, m, i)
                &&& layer(w, m) == layer(w, i) - 1
                &&& cell_links(w, h, cell(w, m)).contains((cell(w, m), cell(w, i)))
            },
        forall|j: int|
            behind(w, i) <= j < grid_neighbors(w, h, i).len() ==> {
                let m = #[trigger] grid_neighbors(w, h, i)[j];
                &&& 0 <= m < w * h
                &&& layer(w, m) == layer(w, i) + 1
                &&& cell_links(w, h, cell(w, i))[j - behind(w, i)] == (cell(w, i), cell(w, m))
            },
{
    let x = column_of(w, i);
    let y = row_of(w, i);
    let around = grid_neighbors(w, h, i);
    lemma_place(w, h, i);
    lemma_neighbor_keys(w, h, i);
    let left = if x > 0 {
        seq![i - 1]
    } else {
        Seq::<int>::empty()
    };
    let up = if y > 0 {
        seq![i - w]
    } else {
        Seq::<int>::empty()
    };
    let down = if y + 1 < h {
        seq![i + w]
    } else {
        Seq::<int>::empty()
    };
    let right = if x + 1 < w {
        seq![i + 1]
    } else {
        Seq::<int>::empty()
    };
    assert(around == left + up + down + right);
    let c = cell(w, i);
    let links = cell_links(w, h, c);
    if x > 0 {
        lemma_node(w, h, x - 1, y);
        let m = i - 1;
        let from = cell(w, m);
        assert(right_of(from) == c);
        let its = cell_links(w, h, from);
        assert(its[its.len() - 1] == (from, c));
    }
    if y > 0 {
        lemma_node(w, h, x, y - 1);
        lemma_join(w, x, y - 1);
        let m = i - w;
        let from = cell(w, m);
        assert(below(from) == c);
        let its = cell_links(w, h, from);
        assert(its[0] == (from, c));
    }
    if y + 1 < h {
        lemma_node(w, h, x, y + 1);
        lemma_join(w, x, y);
        assert(cell(w, i + w) == below(c));
        assert(links[0] == (c, cell(w, i + w)));
    }
    if x + 1 < w {
        lemma_node(w, h, x + 1, y);
        assert(cell(w, i + 1) == right_of(c));
        assert(links[links.len() - 1] == (c, cell(w, i + 1)));
    }
}

/// Whether `list` holds `node`.
fn holds(list: &Vec<usize>, node: usize) -> (found: bool)
    ensures
        found == as_nodes(list@).contains(node as int),
{
    let mut i: usize = 0;
    while i < list.len()
        invariant
            i <= list@.len(),
            forall|k: int| 0 <= k < i ==> as_nodes(list@)[k] != node as int,
        decreases list@.len() - i,
    {
        if list[i] == node {
            assert(as_nodes(list@)[i as int] == node as int);
            return true;
        }
        i += 1;
    }
    false
}

/// Whether an edge from `from` to `to` has been written.
fn has_link(edges: &Vec<FlatEdge>, from: Coordinate2D, to: Coordinate2D) -> (found: bool)
    ensures
        found == exists|k: int|
            0 <= k < edges@.len() && (#[trigger] edges@[k]).from == from && edges@[k].to == to,
{
    let mut i: usize = 0;
    while i < edges.len()
        invariant
            i <= edges@.len(),
            forall|k: int|
                0 <= k < i ==> !((#[trigger] edges@[k]).from == from && edges@[k].to == to),
        decreases edges@.len() - i,
    {
        if edges[i].from.is_at(from) && edges[i].to.is_at(to) {
            return true;
        }
        i += 1;
    }
    false
}

/// Writes the edges of `node` that have not been written from their other
/// end, each with its mark.
fn append_links(
    g: &GridGraph,
    node: usize,
    path: &Option<(i32, Vec<usize>)>,
    edges: &mut Vec<FlatEdge>,
    Ghost(seen): Ghost<Seq<Coordinate2D>>,
)
    requires
        node < g@.width * g@.height,
        path_fits(path_nodes(*path), g@.width * g@.height),
        pairs(old(edges)@) == links_of(g@.width, g@.height, seen),
        flags_ok(g@.width, path_nodes(*path), old(edges)@),
        forall|z: int|
            0 <= z < g@.width * g@.height && #[trigger] before(g@.width, z, node as int)
                ==> seen.contains(cell(g@.width, z)),
    ensures
        pairs(final(edges)@) == links_of(
            g@.width,
            g@.height,
            seen.push(cell(g@.width, node as int)),
        ),
        flags_ok(g@.width, path_nodes(*path), final(edges)@),
{
    let ghost w = g@.width;
    let ghost h = g@.height;
    let ghost back = behind(w, node as int);
    let breadth = g.width();
    let depth = g.height();
    let here = g.coordinate(node);
    let around = g.neighbors(node);
    proof {
        assert(w > 0 && h > 0) by (nonlinear_arith)
            requires
                0 <= node < w * h,
                w >= 0,
                h >= 0,
        ;
        lemma_around(w, h, node as int);
        lemma_place(w, h, node as int);
        assert(cell_links(w, h, here).take(0) =~= Seq::<(Coordinate2D, Coordinate2D)>::empty());
        assert(written(w, h, seen, here, 0, back) =~= links_of(w, h, seen));
    }
    let mut j: usize = 0;
    while j < around.len()
        invariant
            j <= around@.len(),
            0 < w <= i16::MAX,
            0 < h <= i16::MAX,
            w == g@.width,
            h == g@.height,
            node < w * h,
            here == cell(w, node as int),
            node == node_at(w, here.x as int, here.y as int),
            back == behind(w, node as int),
            0 <= back <= 2,
            around@.len() == grid_neighbors(w, h, node as int).len(),
            around@.len() == back + cell_links(w, h, here).len(),
            forall|k: int|
                0 <= k < around@.len() ==> #[trigger] around@[k] as int == grid_neighbors(
                    w,
                    h,
                    node as int,
                )[k],
            path_fits(path_nodes(*path), w * h),
            pairs(edges@) == written(w, h, seen, here, j as int, back),
            flags_ok(w, path_nodes(*path), edges@),
            forall|z: int|
                0 <= z < w * h && #[trigger] before(w, z, node as int) ==> seen.contains(
                    cell(w, z),
                ),
        decreases around@.len() - j,
    {
        let next = around[j];
        proof {
            lemma_around(w, h, node as int);
            assert(next as int == grid_neighbors(w, h, node as int)[j as int]);
            lemma_place(w, h, next as int);
            lemma_place(w, h, node as int);
        }
        let there = g.coordinate(next);
        let known = has_link(edges, there, here);
        let ghost links = cell_links(w, h, here);
        let ghost old_pairs = pairs(edges@);
        proof {
            lemma_links_forward(w, h, seen);
            if j < back {
                assert(before(w, next as int, node as int));
                assert(seen.contains(there));
                let m = choose|m: int| 0 <= m < seen.len() && seen[m] == there;
                lemma_links_has(w, h, seen, m, (there, here));
                let t = choose|t: int|
                    0 <= t < links_of(w, h, seen).len() && links_of(w, h, seen)[t] == (there, here);
                assert(old_pairs[t] == (there, here));
                assert(edges@[t].from == there && edges@[t].to == here);
                assert(known);
                assert(written(w, h, seen, here, j + 1, back) =~= written(
                    w,
                    h,
                    seen,
                    here,
                    j as int,
                    back,
                ));
            } else {
                if known {
                    let k = choose|k: int|
                        0 <= k < edges@.len() && (#[trigger] edges@[k]).from == there
                            && edges@[k].to == here;
                    assert(old_pairs[k] == (there, here));
                    if k < links_of(w, h, seen).len() {
                        assert(links_of(w, h, seen)[k] == (there, here));
                    } else {
                        let t = k - links_of(w, h, seen).len();
                        assert(links.take(j - back)[t] == (there, here));
                    }
                    assert(false);
                }
            }
        }
        if !known {
            let on_path = match path {
                Some(found) => holds(&found.1, next) && holds(&found.1, node),
                None => false,
            };
            let ghost before_push = edges@;
            edges.push(FlatEdge { from: here, to: there, on_path });
            proof {
                let e = FlatEdge { from: here, to: there, on_path };
                assert(edges@ == before_push.push(e));
                assert(pairs(edges@) =~= old_pairs.push((here, there)));
                assert(links[j - back] == (here, there));
                assert(links.take(j + 1 - back) =~= links.take(j - back).push(links[j - back]));
                assert(written(w, h, seen, here, j + 1, back) =~= written(
                    w,
                    h,
                    seen,
                    here,
                    j as int,
                    back,
                ).push((here, there)));
                assert(next == node_at(w, there.x as int, there.y as int));
                assert forall|k: int| 0 <= k < edges@.len() implies (#[trigger] edges@[k]).on_path
                    == marked(w, path_nodes(*path), edges@[k].from, edges@[k].to) by {
                    if k < before_push.len() {
                        assert(edges@[k] == before_push[k]);
                    }
                }
            }
        }
        j += 1;
    }
    proof {
        let links = cell_links(w, h, here);
        assert(links.take(links.len() as int) =~= links);
        let more = seen.push(here);
        assert(more.drop_last() =~= seen);
        assert(more.last() == here);
        assert(links_of(w, h, more) == links_of(w, h, seen) + links);
    }
}

/// The cells of the nodes of `list`, in the same order.
fn path_cells(g: &GridGraph, list: &Vec<usize>) -> (cells: Vec<Coordinate2D>)
    requires
        forall|i: int| 0 <= i < list@.len() ==> #[trigger] list@[i] < g@.width * g@.height,
    ensures
        cells@.len() == list@.len(),
        forall|i: int|
            0 <= i < list@.len() ==> #[trigger] cells@[i] == cell(g@.width, list@[i] as int),
{
    let mut cells: Vec<Coordinate2D> = Vec::new();
    let mut i: usize = 0;
    while i < list.len()
        invariant
            i <= list@.len(),
            cells@.len() == i,
            forall|k: int| 0 <= k < list@.len() ==> #[trigger] list@[k] < g@.width * g@.height,
            forall|k: int| 0 <= k < i ==> #[trigger] cells@[k] == cell(g@.width, list@[k] as int),
        decreases list@.len() - i,
    {
        cells.push(g.coordinate(list[i]));
        i += 1;
    }
    cells
}

/// Flattens the graph, and the search result if there is one.
///
/// The node list holds the coordinate of every cell, in the order in which a
/// breadth-first traversal from the first node visits them. The edge list
/// holds each edge of the graph once, written from the end that is visited
/// first: for each cell in visiting order the edge to the cell below, then
/// the edge to the cell on its right. With a search result an edge is marked
/// as on the path exactly if both its ends are nodes of the path, and the
/// path's cells are listed from start to goal. An empty graph gives empty
/// lists.
pub fn flatten(g: &GridGraph, path: &Option<(i32, Vec<usize>)>) -> (view: FlattenedView)
    requires
        path_fits(path_nodes(*path), g@.width * g@.height),
    ensures
        is_sweep(g@.width, g@.height, view.nodes@),
        view.nodes@.len() == g@.width * g@.height,
        pairs(view.edges@) == links_of(g@.width, g@.height, view.nodes@),
        flags_ok(g@.width, path_nodes(*path), view.edges@),
        no_edge_twice(view.edges@),
        view.edges@.len() == g.edges().len(),
        g@.width >= 1 && g@.height >= 1 ==> view.edges@.len() == 2 * g@.width * g@.height
            - g@.width - g@.height,
        path is Some <==> view.path is Some,
        path matches Some(found) ==> view.path matches Some(cells) && cells@.len()
            == found.1@.len() && forall|i: int|
            0 <= i < cells@.len() ==> #[trigger] cells@[i] == cell(g@.width, found.1@[i] as int),
{
    let ghost w = g@.width;
    let ghost h = g@.height;
    let count = g.node_count();
    let breadth = g.width();
    let depth = g.height();
    let mut nodes: Vec<Coordinate2D> = Vec::new();
    let mut edges: Vec<FlatEdge> = Vec::new();
    proof {
        assert(pairs(edges@) =~= links_of(w, h, nodes@));
    }
    let graph = g.graph();
    if count > 0 {
        let mut traversal = bfs_new(graph, 0);
        let ghost mut visited: Seq<int> = Seq::empty();
        let ghost mut last_layer: int = -1;
        let ghost mut last_column: int = -1;
        proof {
            assert(w > 0 && h > 0) by (nonlinear_arith)
                requires
                    0 < w * h,
                    w >= 0,
                    h >= 0,
            ;
            let all = visited + bfs_queue(traversal);
            assert(all =~= seq![0int]);
            assert(all[0] == 0);
        }
        loop
            invariant
                0 < w <= i16::MAX,
                0 < h <= i16::MAX,
                w == g@.width,
                h == g@.height,
                w * h == count,
                graph_nodes(*graph).len() == w * h,
                graph_edges(*graph) == grid_edges(w, h),
                bfs_limit(traversal) == w * h,
                on_course(w, h, visited, bfs_queue(traversal), bfs_reached(traversal)),
                nodes@.len() == visited.len(),
                forall|k: int|
                    0 <= k < nodes@.len() ==> #[trigger] nodes@[k] == cell(w, visited[k]),
                pairs(edges@) == links_of(w, h, nodes@),
                flags_ok(w, path_nodes(*path), edges@),
                path_fits(path_nodes(*path), w * h),
                visited.len() == 0 ==> last_layer == -1 && last_column == -1,
                visited.len() > 0 ==> last_layer == layer(w, visited.last()) && last_column
                    == column_of(w, visited.last()) && 0 <= visited.last() < w * h,
            ensures
                bfs_queue(traversal).len() == 0,
            decreases w + h - last_layer, w - last_column,
        {
            let ghost queue = bfs_queue(traversal);
            let ghost reached = bfs_reached(traversal);
            proof {
                if queue.len() > 0 {
                    lemma_step(w, h, visited, queue, reached);
                    lemma_neighbors(w, h, queue[0]);
                }
                if visited.len() > 0 {
                    lemma_place(w, h, visited.last());
                }
            }
            let next = bfs_next(&mut traversal, graph);
            let node = match next {
                Some(node) => node,
                None => {
                    break ;
                },
            };
            proof {
                assert(queue.len() > 0);
                assert(node as int == queue[0]);
                assert(0int % w == 0 && 0int / w == 0);
                assert(all_before(w, w * h, visited, node as int));
                lemma_place(w, h, node as int);
                assert forall|z: int| 0 <= z < w * h && #[trigger] before(w, z, node as int)
                    implies nodes@.contains(cell(w, z)) by {
                    assert(visited.contains(z));
                    let m = choose|m: int| 0 <= m < visited.len() && visited[m] == z;
                    assert(nodes@[m] == cell(w, z));
                }
            }
            let here = g.coordinate(node);
            append_links(g, node, path, &mut edges, Ghost(nodes@));
            nodes.push(here);
            proof {
                visited = visited.push(node as int);
                last_layer = layer(w, node as int);
                last_column = column_of(w, node as int);
            }
        }
        proof {
            let queue = bfs_queue(traversal);
            assert(queue =~= Seq::<int>::empty());
            lemma_done(w, h, visited, bfs_reached(traversal));
            let all = visited + queue;
            assert(all =~= visited);
            assert forall|i: int, j: int| 0 <= i < j < nodes@.len() implies sweeps_before(
                #[trigger] nodes@[i],
                #[trigger] nodes@[j],
            ) by {
                assert(before(w, all[i], all[j]));
                assert(0 <= all[i] < w * h && 0 <= all[j] < w * h);
                lemma_place(w, h, visited[i]);
                lemma_place(w, h, visited[j]);
            }
            assert forall|i: int| 0 <= i < nodes@.len() implies in_grid(
                w,
                h,
                #[trigger] nodes@[i],
            ) by {
                assert(0 <= all[i] < w * h);
                lemma_place(w, h, visited[i]);
            }
            assert forall|c: Coordinate2D| #[trigger] in_grid(w, h, c) implies nodes@.contains(
                c,
            ) by {
                let i = node_at(w, c.x as int, c.y as int);
                lemma_node(w, h, c.x as int, c.y as int);
                assert(visited.contains(i));
                let m = choose|m: int| 0 <= m < visited.len() && visited[m] == i;
                assert(nodes@[m] == c);
            }
            lemma_sweep_links(w, h, nodes@);
        }
    } else {
        proof {
            assert(w == 0 || h == 0) by (nonlinear_arith)
                requires
                    w * h == 0,
            ;
        }
    }
    let cells = match path {
        Some(found) => {
            proof {
                let p = as_nodes(found.1@);
                assert(path_nodes(*path) == Some(p));
                assert(nodes_below(p, w * h));
                assert forall|i: int| 0 <= i < found.1@.len() implies #[trigger] found.1@[i] < w
                    * h by {
                    assert(p.len() == found.1@.len());
                    assert(p[i] == found.1@[i] as int);
                }
            }
            Some(path_cells(g, &found.1))
        },
        None => None,
    };
    FlattenedView { nodes, edges, path: cells }
}

} // verus!

//! The shortest-path search on a grid graph.
//!
//! The search itself is petgraph's A*. What is proved here is that its
//! estimate, the straight-line distance rounded down, never exceeds the hops
//! still to go on a grid, and that a shortest path on a grid has as many hops
//! as the two cells are apart along the axes.
use crate::coordinate::{euclid, gap, lemma_euclid_bounds, manhattan, Coordinate2D};
use crate::grid::{
    cell, grid_edges, grid_nodes, in_grid, lemma_join, lemma_rows, lemma_split, node_at, GridGraph,
};
use crate::store::{astar_search, as_nodes, is_walk, joined, walk_to};
use crate::topology::{beside, lemma_joined};
use vstd::prelude::*;

verus! {

/// `from` moved one step towards `to`.
pub open spec fn toward(from: int, to: int) -> int {
    if from < to {
        from + 1
    } else if from > to {
        from - 1
    } else {
        from
    }
}

/// The nodes along the way that first follows row `y` from column `x` to
/// column `tx` and then follows that column to row `ty`.
pub open spec fn route(w: int, x: int, y: int, tx: int, ty: int) -> Seq<int>
    decreases gap(x, tx) + gap(y, ty),
{
    if x != tx {
        seq![node_at(w, x, y)] + route(w, toward(x, tx), y, tx, ty)
    } else if y != ty {
        seq![node_at(w, x, y)] + route(w, x, toward(y, ty), tx, ty)
    } else {
        seq![node_at(w, x, y)]
    }
}

/// What a search from `start` to `end` returns when both lie in the grid: a
/// path of nodes of the grid from the one to the other, in which each hop
/// leads to a cell next to the last and one step closer to `end`, so that no
/// node comes twice and the hops are as few as can be.
pub open spec fn is_shortest_path(
    w: int,
    h: int,
    start: Coordinate2D,
    end: Coordinate2D,
    cost: int,
    p: Seq<int>,
) -> bool {
    &&& cost == manhattan(start, end)
    &&& p.len() == cost + 1
    &&& p[0] == node_at(w, start.x as int, start.y as int)
    &&& p.last() == node_at(w, end.x as int, end.y as int)
    &&& forall|i: int|
        0 <= i < p.len() ==> 0 <= #[trigger] p[i] < w * h && manhattan(cell(w, p[i]), end) == cost
            - i
    &&& forall|i: int| 0 <= i < p.len() - 1 ==> beside(w, h, #[trigger] p[i], p[i + 1])
    &&& p.no_duplicates()
}

/// A stretch of a walk is a walk.
pub proof fn lemma_subwalk(edges: Seq<(int, int, int)>, p: Seq<int>, lo: int, hi: int)
    requires
        is_walk(edges, p),
        0 <= lo < hi <= p.len(),
    ensures
        is_walk(edges, p.subrange(lo, hi)),
{
    let q = p.subrange(lo, hi);
    assert forall|i: int| 0 <= i < q.len() - 1 implies joined(edges, #[trigger] q[i], q[i + 1]) by {
        assert(joined(edges, p[lo + i], p[lo + i + 1]));
    }
}

/// A walk on the grid has at least as many hops as its two ends are apart
/// along the axes.
pub proof fn lemma_walk_bound(w: int, h: int, p: Seq<int>)
    requires
        0 < w <= i16::MAX,
        0 <= h <= i16::MAX,
        is_walk(grid_edges(w, h), p),
        forall|i: int| 0 <= i < p.len() ==> 0 <= #[trigger] p[i] < w * h,
    ensures
        manhattan(cell(w, p[0]), cell(w, p.last())) <= p.len() - 1,
    decreases p.len(),
{
    if p.len() > 1 {
        let q = p.drop_last();
        lemma_subwalk(grid_edges(w, h), p, 0, p.len() - 1);
        assert(q =~= p.subrange(0, p.len() - 1));
        assert forall|i: int| 0 <= i < q.len() implies 0 <= #[trigger] q[i] < w * h by {
            assert(q[i] == p[i]);
        }
        lemma_walk_bound(w, h, q);
        let a = p[p.len() - 2];
        let b = p.last();
        assert(joined(grid_edges(w, h), a, p[p.len() - 2 + 1]));
        lemma_joined(w, h, a, b);
        assert(q.last() == a);
        assert(q[0] == p[0]);
    }
}

/// The route between two cells of the grid is a walk on the grid from the one
/// to the other with as many hops as the cells are apart along the axes.
pub proof fn lemma_route(w: int, h: int, x: int, y: int, tx: int, ty: int)
    requires
        0 < w <= i16::MAX,
        0 < h <= i16::MAX,
        0 <= x < w,
        0 <= tx < w,
        0 <= y < h,
        0 <= ty < h,
    ensures
        route(w, x, y, tx, ty).len() == gap(x, tx) + gap(y, ty) + 1,
        route(w, x, y, tx, ty)[0] == node_at(w, x, y),
        route(w, x, y, tx, ty).last() == node_at(w, tx, ty),
        is_walk(grid_edges(w, h), route(w, x, y, tx, ty)),
        forall|i: int|
            0 <= i < route(w, x, y, tx, ty).len() ==> 0 <= #[trigger] route(w, x, y, tx, ty)[i] < w
                * h,
    decreases gap(x, tx) + gap(y, ty),
{
    let q = route(w, x, y, tx, ty);
    let here = node_at(w, x, y);
    lemma_join(w, x, y);
    lemma_rows(w, h, here);
    if x != tx || y != ty {
        let nx = if x != tx {
            toward(x, tx)
        } else {
            x
        };
        let ny = if x != tx {
            y
        } else {
            toward(y, ty)
        };
        let rest = route(w, nx, ny, tx, ty);
        lemma_route(w, h, nx, ny, tx, ty);
        assert(q =~= seq![here] + rest);
        let next = node_at(w, nx, ny);
        lemma_join(w, nx, ny);
        lemma_rows(w, h, next);
        assert(beside(w, h, here, next));
        lemma_joined(w, h, here, next);
        assert forall|i: int| 0 <= i < q.len() - 1 implies joined(
            grid_edges(w, h),
            #[trigger] q[i],
            q[i + 1],
        ) by {
            if i == 0 {
                assert(q[1] == rest[0]);
            } else {
                assert(q[i] == rest[i - 1]);
                assert(q[i + 1] == rest[i - 1 + 1]);
                assert(joined(grid_edges(w, h), rest[i - 1], rest[i - 1 + 1]));
            }
        }
        assert forall|i: int| 0 <= i < q.len() implies 0 <= #[trigger] q[i] < w * h by {
            if i > 0 {
                assert(q[i] == rest[i - 1]);
            }
        }
        assert(q.last() == rest.last());
    }
}

/// A walk on the grid that has no more hops than its two ends are apart
/// along the axes comes one step closer to its end with each hop.
pub proof fn lemma_straight(w: int, h: int, p: Seq<int>, i: int)
    requires
        0 < w <= i16::MAX,
        0 <= h <= i16::MAX,
        is_walk(grid_edges(w, h), p),
        forall|k: int| 0 <= k < p.len() ==> 0 <= #[trigger] p[k] < w * h,
        p.len() - 1 <= manhattan(cell(w, p[0]), cell(w, p.last())),
        0 <= i < p.len(),
    ensures
        manhattan(cell(w, p[i]), cell(w, p.last())) == p.len() - 1 - i,
{
    let head = p.subrange(0, i + 1);
    let tail = p.subrange(i, p.len() as int);
    lemma_subwalk(grid_edges(w, h), p, 0, i + 1);
    lemma_subwalk(grid_edges(w, h), p, i, p.len() as int);
    assert forall|k: int| 0 <= k < head.len() implies 0 <= #[trigger] head[k] < w * h by {
        assert(head[k] == p[k]);
    }
    assert forall|k: int| 0 <= k < tail.len() implies 0 <= #[trigger] tail[k] < w * h by {
        assert(tail[k] == p[i + k]);
    }
    lemma_walk_bound(w, h, head);
    lemma_walk_bound(w, h, tail);
    lemma_walk_bound(w, h, p);
    assert(head[0] == p[0]);
    assert(head.last() == p[i]);
    assert(tail[0] == p[i]);
    assert(tail.last() == p.last());
}

/// Searches a shortest path from the cell at `start` to the cell at `end`.
///
/// There is a path exactly if both lie in the grid. It is then returned with
/// its cost, the number of its hops, which is the distance between the two
/// cells along the axes; the path holds the nodes from the one at `start` to
/// the one at `end`, both included. From a cell to itself the path is that
/// one node and costs nothing. Which of several shortest paths is returned is
/// left to the search.
pub fn find_path(g: &GridGraph, start: Coordinate2D, end: Coordinate2D) -> (found: Option<
    (i32, Vec<usize>),
>)
    ensures
        found is Some <==> in_grid(g@.width, g@.height, start) && in_grid(
            g@.width,
            g@.height,
            end,
        ),
        found matches Some((cost, path)) ==> is_shortest_path(
            g@.width,
            g@.height,
            start,
            end,
            cost as int,
            as_nodes(path@),
        ),
        found matches Some((cost, path)) ==> (start == end ==> cost == 0 && as_nodes(path@)
            == seq![node_at(g@.width, start.x as int, start.y as int)]),
{
    let start_index = match g.node_of(start) {
        Some(at) => at,
        None => {
            return None;
        },
    };
    let graph = g.graph();
    let ghost w = g@.width;
    let ghost h = g@.height;
    let ghost nodes = grid_nodes(w, h);
    let ghost edges = grid_edges(w, h);
    proof {
        assert(0 < w * h <= 0x3fff_0001) by (nonlinear_arith)
            requires
                0 <= w <= 0x7fff,
                0 <= h <= 0x7fff,
                start_index < w * h,
        ;
        assert(w > 0 && h > 0) by (nonlinear_arith)
            requires
                0 <= w,
                0 <= h,
                0 < w * h,
        ;
        assert forall|p: Seq<int>| #[trigger]
            walk_to(nodes, edges, p, end) implies euclid(
            end,
            nodes[p[0]],
        ) <= p.len() - 1 by {
            lemma_walk_bound(w, h, p);
            lemma_euclid_bounds(end, cell(w, p[0]));
        }
    }
    let found = astar_search(graph, start_index, end);
    let ghost outcome = found;
    proof {
        let from = node_at(w, start.x as int, start.y as int);
        if in_grid(w, h, end) {
            let q = route(w, start.x as int, start.y as int, end.x as int, end.y as int);
            lemma_route(w, h, start.x as int, start.y as int, end.x as int, end.y as int);
            lemma_join(w, end.x as int, end.y as int);
            assert(walk_to(nodes, edges, q, end));
        }
        match outcome {
            Some((cost, path)) => {
                let p = as_nodes(path@);
                assert(walk_to(nodes, edges, p, end));
                let last = p.last();
                assert(0 <= last < w * h);
                lemma_split(w, last);
                lemma_rows(w, h, last);
                assert(cell(w, last) == end);
                assert(in_grid(w, h, end));
                lemma_walk_bound(w, h, p);
                let q = route(w, start.x as int, start.y as int, end.x as int, end.y as int);
                assert(cost <= q.len() - 1);
                assert(cost == manhattan(start, end));
                assert forall|i: int| 0 <= i < p.len() implies 0 <= #[trigger] p[i] < w * h
                    && manhattan(cell(w, p[i]), end) == cost - i by {
                    lemma_straight(w, h, p, i);
                }
                assert forall|i: int| 0 <= i < p.len() - 1 implies beside(
                    w,
                    h,
                    #[trigger] p[i],
                    p[i + 1],
                ) by {
                    assert(joined(edges, p[i], p[i + 1]));
                    lemma_joined(w, h, p[i], p[i + 1]);
                }
                assert forall|i: int, j: int| 0 <= i < p.len() && 0 <= j < p.len() && i
                    != j implies p[i] != p[j] by {
                    lemma_straight(w, h, p, i);
                    lemma_straight(w, h, p, j);
                }
                if start == end {
                    assert(p =~= seq![from]);
                }
            },
            None => {},
        }
    }
    found
}

} // verus!

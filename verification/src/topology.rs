//! What follows from the way the grid's edges are laid down: the neighbours
//! of each node and their order, which nodes are joined, the degree of each
//! node and the number of edges.
use crate::coordinate::{manhattan, Coordinate2D};
use crate::grid::{
    cell, cell_edges, column_of, edges_upto, grid_edges, grid_neighbors, grid_nodes, in_grid,
    lemma_join, lemma_rows, lemma_split, node_at, row_of,
};
use crate::store::{joined, neighbor_list, sources_of, targets_of};
use vstd::prelude::*;

verus! {

/// The edges that leave a node are listed latest first, so those of a later
/// batch come before those of an earlier one.
pub proof fn lemma_targets_concat(first: Seq<(int, int, int)>, then: Seq<(int, int, int)>, a: int)
    ensures
        targets_of(first + then, a) == targets_of(then, a) + targets_of(first, a),
    decreases then.len(),
{
    if then.len() == 0 {
        assert(first + then =~= first);
        assert(targets_of(then, a) + targets_of(first, a) =~= targets_of(first, a));
    } else {
        assert((first + then).drop_last() =~= first + then.drop_last());
        lemma_targets_concat(first, then.drop_last(), a);
        if then.last().0 == a {
            assert(targets_of(first + then, a) =~= seq![then.last().1] + (targets_of(
                then.drop_last(),
                a,
            ) + targets_of(first, a)));
            assert(targets_of(then, a) + targets_of(first, a) =~= seq![then.last().1] + (
            targets_of(then.drop_last(), a) + targets_of(first, a)));
        }
    }
}

/// The edges that arrive at a node are listed latest first as well.
pub proof fn lemma_sources_concat(first: Seq<(int, int, int)>, then: Seq<(int, int, int)>, a: int)
    ensures
        sources_of(first + then, a) == sources_of(then, a) + sources_of(first, a),
    decreases then.len(),
{
    if then.len() == 0 {
        assert(first + then =~= first);
        assert(sources_of(then, a) + sources_of(first, a) =~= sources_of(first, a));
    } else {
        assert((first + then).drop_last() =~= first + then.drop_last());
        lemma_sources_concat(first, then.drop_last(), a);
        if then.last().1 == a && then.last().0 != a {
            assert(sources_of(first + then, a) =~= seq![then.last().0] + (sources_of(
                then.drop_last(),
                a,
            ) + sources_of(first, a)));
            assert(sources_of(then, a) + sources_of(first, a) =~= seq![then.last().0] + (
            sources_of(then.drop_last(), a) + sources_of(first, a)));
        }
    }
}

/// The far ends of the edges that node `a` brings with it: left, then above.
pub open spec fn departures(w: int, a: int) -> Seq<int> {
    (if a % w != 0 {
        seq![a - 1]
    } else {
        Seq::empty()
    }) + (if a >= w {
        seq![a - w]
    } else {
        Seq::empty()
    })
}

/// Among the first `n` nodes, those whose edges arrive at node `a`: the one
/// below, then the one on the right.
pub open spec fn arrivals(w: int, n: int, a: int) -> Seq<int> {
    (if a + w < n {
        seq![a + w]
    } else {
        Seq::empty()
    }) + (if a + 1 < n && (a + 1) % w != 0 {
        seq![a + 1]
    } else {
        Seq::empty()
    })
}

/// Of the edges that node `i` brings with it, those that leave `a`: all of
/// them if `i` is `a`, none otherwise.
proof fn lemma_cell_targets(w: int, i: int, a: int)
    requires
        w > 0,
    ensures
        targets_of(cell_edges(w, i), a) == (if i == a {
            departures(w, a)
        } else {
            Seq::<int>::empty()
        }),
{
    let up = (i, i - w, 1int);
    let left = (i, i - 1, 1int);
    reveal_with_fuel(targets_of, 3);
    if i >= w && i % w != 0 {
        assert(cell_edges(w, i) =~= seq![up, left]);
        assert(seq![up, left].drop_last() =~= seq![up]);
        assert(seq![up].drop_last() =~= Seq::<(int, int, int)>::empty());
        assert(targets_of(seq![up, left], a) =~= (if i == a {
            seq![i - 1, i - w]
        } else {
            Seq::<int>::empty()
        }));
        assert(i == a ==> departures(w, a) =~= seq![i - 1, i - w]);
    } else if i >= w {
        assert(cell_edges(w, i) =~= seq![up]);
        assert(seq![up].drop_last() =~= Seq::<(int, int, int)>::empty());
        assert(targets_of(seq![up], a) =~= (if i == a {
            seq![i - w]
        } else {
            Seq::<int>::empty()
        }));
        assert(i == a ==> departures(w, a) =~= seq![i - w]);
    } else if i % w != 0 {
        assert(cell_edges(w, i) =~= seq![left]);
        assert(seq![left].drop_last() =~= Seq::<(int, int, int)>::empty());
        assert(targets_of(seq![left], a) =~= (if i == a {
            seq![i - 1]
        } else {
            Seq::<int>::empty()
        }));
        assert(i == a ==> departures(w, a) =~= seq![i - 1]);
    } else {
        assert(cell_edges(w, i) =~= Seq::<(int, int, int)>::empty());
        assert(i == a ==> departures(w, a) =~= Seq::<int>::empty());
    }
}

/// Of the edges that node `i` brings with it, at most one arrives at `a`:
/// the one to the left if `i` is on the right of `a`, the one upwards if `i`
/// is below `a`.
proof fn lemma_cell_sources(w: int, i: int, a: int)
    requires
        w > 0,
    ensures
        sources_of(cell_edges(w, i), a) == (if (i == a + 1 && i % w != 0) || (i == a + w && i
            >= w) {
            seq![i]
        } else {
            Seq::<int>::empty()
        }),
{
    let up = (i, i - w, 1int);
    let left = (i, i - 1, 1int);
    reveal_with_fuel(sources_of, 3);
    if i >= w && i % w != 0 {
        assert(w != 1);
        assert(cell_edges(w, i) =~= seq![up, left]);
        assert(seq![up, left].drop_last() =~= seq![up]);
        assert(seq![up].drop_last() =~= Seq::<(int, int, int)>::empty());
        assert(sources_of(seq![up, left], a) =~= (if i == a + 1 || i == a + w {
            seq![i]
        } else {
            Seq::<int>::empty()
        }));
    } else if i >= w {
        assert(cell_edges(w, i) =~= seq![up]);
        assert(seq![up].drop_last() =~= Seq::<(int, int, int)>::empty());
        assert(sources_of(seq![up], a) =~= (if i == a + w {
            seq![i]
        } else {
            Seq::<int>::empty()
        }));
    } else if i % w != 0 {
        assert(cell_edges(w, i) =~= seq![left]);
        assert(seq![left].drop_last() =~= Seq::<(int, int, int)>::empty());
        assert(sources_of(seq![left], a) =~= (if i == a + 1 {
            seq![i]
        } else {
            Seq::<int>::empty()
        }));
    } else {
        assert(cell_edges(w, i) =~= Seq::<(int, int, int)>::empty());
    }
}

/// The edges that leave node `a` are those it brought with it.
pub proof fn lemma_upto_targets(w: int, n: int, a: int)
    requires
        w > 0,
        n >= 0,
    ensures
        targets_of(edges_upto(w, n), a) == (if 0 <= a < n {
            departures(w, a)
        } else {
            Seq::<int>::empty()
        }),
    decreases n,
{
    if n > 0 {
        lemma_upto_targets(w, n - 1, a);
        lemma_targets_concat(edges_upto(w, n - 1), cell_edges(w, n - 1), a);
        lemma_cell_targets(w, n - 1, a);
        assert(targets_of(edges_upto(w, n), a) =~= (if 0 <= a < n {
            departures(w, a)
        } else {
            Seq::<int>::empty()
        }));
    }
}

/// The edges that arrive at node `a` come from the node below it and from
/// the node on its right.
pub proof fn lemma_upto_sources(w: int, n: int, a: int)
    requires
        w > 0,
        n >= 0,
        a >= 0,
    ensures
        sources_of(edges_upto(w, n), a) == arrivals(w, n, a),
    decreases n,
{
    if n == 0 {
        assert(arrivals(w, n, a) =~= Seq::<int>::empty());
    } else {
        lemma_upto_sources(w, n - 1, a);
        lemma_sources_concat(edges_upto(w, n - 1), cell_edges(w, n - 1), a);
        lemma_cell_sources(w, n - 1, a);
        assert(sources_of(edges_upto(w, n), a) =~= arrivals(w, n, a));
    }
}

/// The graph lists the neighbours of each node of the grid as left, above,
/// below, right.
pub proof fn lemma_neighbors(w: int, h: int, i: int)
    requires
        w > 0,
        h >= 0,
        0 <= i < w * h,
    ensures
        neighbor_list(grid_edges(w, h), i) == grid_neighbors(w, h, i),
        forall|k: int|
            0 <= k < grid_neighbors(w, h, i).len() ==> 0 <= #[trigger] grid_neighbors(w, h, i)[k]
                < w * h,
{
    let x = column_of(w, i);
    let y = row_of(w, i);
    lemma_split(w, i);
    lemma_rows(w, h, i);
    lemma_join(w, x, y);
    lemma_join(w, x, y + 1);
    lemma_rows(w, h, i + w);
    if x + 1 < w {
        lemma_join(w, x + 1, y);
        lemma_rows(w, h, i + 1);
    } else {
        lemma_join(w, 0, y + 1);
    }
    lemma_upto_targets(w, w * h, i);
    lemma_upto_sources(w, w * h, i);
    assert(departures(w, i) + arrivals(w, w * h, i) =~= grid_neighbors(w, h, i));
}

/// The number of neighbours of node `i`.
pub open spec fn degree(w: int, h: int, i: int) -> int {
    neighbor_list(grid_edges(w, h), i).len() as int
}

/// One if the condition holds, zero if not.
pub open spec fn one_if(held: bool) -> int {
    if held {
        1
    } else {
        0
    }
}

/// Each cell has one neighbour for each side on which the grid goes on: four
/// inside the grid, and, where the grid has at least two columns and two
/// rows, three along its border and two at its corners.
pub proof fn lemma_degree(w: int, h: int, x: int, y: int)
    requires
        0 <= x < w,
        0 <= y < h,
    ensures
        degree(w, h, node_at(w, x, y)) == one_if(x > 0) + one_if(y > 0) + one_if(y + 1 < h)
            + one_if(x + 1 < w),
        0 < x < w - 1 && 0 < y < h - 1 ==> degree(w, h, node_at(w, x, y)) == 4,
        w >= 2 && h >= 2 && (x == 0 || x == w - 1) && (y == 0 || y == h - 1) ==> degree(
            w,
            h,
            node_at(w, x, y),
        ) == 2,
        w >= 2 && h >= 2 && ((x == 0 || x == w - 1) != (y == 0 || y == h - 1)) ==> degree(
            w,
            h,
            node_at(w, x, y),
        ) == 3,
{
    let i = node_at(w, x, y);
    lemma_join(w, x, y);
    lemma_rows(w, h, i);
    lemma_neighbors(w, h, i);
}

/// The two nodes are cells of the grid that lie side by side.
pub open spec fn beside(w: int, h: int, a: int, b: int) -> bool {
    &&& 0 <= a < w * h
    &&& 0 <= b < w * h
    &&& manhattan(cell(w, a), cell(w, b)) == 1
}

/// `e` is an edge from one of the first `n` nodes to the node above it or to
/// the node on its left.
pub open spec fn is_grid_edge(w: int, n: int, e: (int, int, int)) -> bool {
    &&& 0 <= e.0 < n
    &&& e.2 == 1
    &&& (e.1 == e.0 - w && e.0 >= w) || (e.1 == e.0 - 1 && e.0 % w != 0)
}

/// The edges of the first `n` nodes are exactly the edges to the node above
/// and to the node on the left.
pub proof fn lemma_edge_members(w: int, n: int)
    requires
        w > 0,
        n >= 0,
    ensures
        forall|k: int|
            0 <= k < edges_upto(w, n).len() ==> is_grid_edge(w, n, #[trigger] edges_upto(w, n)[k]),
        forall|e: (int, int, int)|
            is_grid_edge(w, n, e) ==> exists|k: int|
                0 <= k < edges_upto(w, n).len() && #[trigger] edges_upto(w, n)[k] == e,
    decreases n,
{
    if n > 0 {
        lemma_edge_members(w, n - 1);
        let before = edges_upto(w, n - 1);
        let added = cell_edges(w, n - 1);
        let all = edges_upto(w, n);
        assert(all == before + added);
        assert forall|k: int| 0 <= k < all.len() implies is_grid_edge(w, n, #[trigger] all[k]) by {
            if k < before.len() {
                assert(all[k] == before[k]);
                assert(is_grid_edge(w, n - 1, before[k]));
            } else {
                assert(all[k] == added[k - before.len()]);
            }
        }
        assert forall|e: (int, int, int)| is_grid_edge(w, n, e) implies exists|k: int|
            0 <= k < all.len() && #[trigger] all[k] == e by {
            if e.0 < n - 1 {
                assert(is_grid_edge(w, n - 1, e));
                let k = choose|k: int| 0 <= k < before.len() && #[trigger] before[k] == e;
                assert(all[k] == e);
            } else if e.1 == e.0 - w && e.0 >= w {
                assert(added[0] == e);
                assert(all[before.len() as int] == e);
            } else {
                let at = added.len() - 1;
                assert(added[at] == e);
                assert(all[before.len() as int + at] == e);
            }
        }
    }
}

/// Two nodes are joined by an edge exactly if they are cells that lie side by
/// side.
pub proof fn lemma_joined(w: int, h: int, a: int, b: int)
    requires
        0 < w <= i16::MAX,
        0 <= h <= i16::MAX,
    ensures
        joined(grid_edges(w, h), a, b) <==> beside(w, h, a, b),
{
    let n = w * h;
    let edges = grid_edges(w, h);
    assert(n >= 0) by (nonlinear_arith)
        requires
            n == w * h,
            w > 0,
            h >= 0,
    ;
    lemma_edge_members(w, n);
    if joined(edges, a, b) {
        let k = choose|k: int|
            0 <= k < edges.len() && ((#[trigger] edges[k]).0 == a && edges[k].1 == b || edges[k].0
                == b && edges[k].1 == a);
        assert(is_grid_edge(w, n, edges[k]));
        let hi = edges[k].0;
        let lo = edges[k].1;
        lemma_step_back(w, h, hi, lo);
    }
    if beside(w, h, a, b) {
        let hi = if a > b {
            a
        } else {
            b
        };
        let lo = if a > b {
            b
        } else {
            a
        };
        lemma_side_by_side(w, h, hi, lo);
        let e = (hi, lo, 1int);
        assert(is_grid_edge(w, n, e));
        let k = choose|k: int| 0 <= k < edges.len() && #[trigger] edges[k] == e;
        assert(edges[k].0 == hi && edges[k].1 == lo);
    }
}

/// The node above and the node on the left lie beside the node itself.
proof fn lemma_step_back(w: int, h: int, hi: int, lo: int)
    requires
        0 < w <= i16::MAX,
        0 <= h <= i16::MAX,
        0 <= hi < w * h,
        (lo == hi - w && hi >= w) || (lo == hi - 1 && hi % w != 0),
    ensures
        beside(w, h, hi, lo),
        beside(w, h, lo, hi),
{
    let x = column_of(w, hi);
    let y = row_of(w, hi);
    lemma_split(w, hi);
    lemma_rows(w, h, hi);
    lemma_join(w, x, y);
    if lo == hi - w && hi >= w {
        lemma_join(w, x, y - 1);
        lemma_rows(w, h, lo);
    } else {
        assert(node_at(w, x - 1, y) == lo);
        lemma_join(w, x - 1, y);
        lemma_rows(w, h, lo);
    }
}

/// Of two cells that lie side by side, the one with the larger index has the
/// other above it or on its left.
proof fn lemma_side_by_side(w: int, h: int, hi: int, lo: int)
    requires
        0 < w <= i16::MAX,
        0 <= h <= i16::MAX,
        beside(w, h, hi, lo),
        hi >= lo,
    ensures
        (lo == hi - w && hi >= w) || (lo == hi - 1 && hi % w != 0),
{
    let x = column_of(w, hi);
    let y = row_of(w, hi);
    let u = column_of(w, lo);
    let v = row_of(w, lo);
    lemma_split(w, hi);
    lemma_split(w, lo);
    lemma_rows(w, h, hi);
    lemma_rows(w, h, lo);
    lemma_join(w, x, y);
    lemma_join(w, u, v);
    if v < y {
        // the row above: same column
        lemma_join(w, u, v + 1);
        assert(v + 1 <= y);
        assert((v + 1) * w <= y * w) by (nonlinear_arith)
            requires
                v + 1 <= y,
                w > 0,
        ;
    } else if v > y {
        assert((y + 1) * w <= v * w) by (nonlinear_arith)
            requires
                y + 1 <= v,
                w > 0,
        ;
        assert((y + 1) * w == y * w + w) by (nonlinear_arith);
    }
}

/// Each cell of the grid has one node, and each node one cell.
pub proof fn lemma_one_node_per_cell(w: int, h: int)
    requires
        0 <= w <= i16::MAX,
        0 <= h <= i16::MAX,
    ensures
        grid_nodes(w, h).len() == w * h,
        forall|i: int| 0 <= i < w * h ==> in_grid(w, h, #[trigger] grid_nodes(w, h)[i]),
        forall|i: int, j: int|
            0 <= i < w * h && 0 <= j < w * h && i != j ==> #[trigger] grid_nodes(w, h)[i]
                != #[trigger] grid_nodes(w, h)[j],
        forall|c: Coordinate2D| #[trigger]
            in_grid(w, h, c) ==> 0 <= node_at(w, c.x as int, c.y as int) < w * h && grid_nodes(
                w,
                h,
            )[node_at(w, c.x as int, c.y as int)] == c,
{
    assert(w * h >= 0) by (nonlinear_arith)
        requires
            w >= 0,
            h >= 0,
    ;
    if w > 0 {
        let nodes = grid_nodes(w, h);
        assert forall|i: int| 0 <= i < w * h implies in_grid(w, h, #[trigger] nodes[i]) by {
            lemma_split(w, i);
            lemma_rows(w, h, i);
        }
        assert forall|i: int, j: int|
            0 <= i < w * h && 0 <= j < w * h && i != j implies #[trigger] nodes[i]
            != #[trigger] nodes[j] by {
            lemma_split(w, i);
            lemma_rows(w, h, i);
            lemma_split(w, j);
            lemma_rows(w, h, j);
        }
        assert forall|c: Coordinate2D| #[trigger] in_grid(w, h, c) implies 0 <= node_at(
            w,
            c.x as int,
            c.y as int,
        ) < w * h && nodes[node_at(w, c.x as int, c.y as int)] == c by {
            lemma_join(w, c.x as int, c.y as int);
            lemma_rows(w, h, node_at(w, c.x as int, c.y as int));
        }
    } else {
        assert(w * h == 0) by (nonlinear_arith)
            requires
                w == 0,
        ;
    }
}

/// No two edges of the grid join the same two nodes, in whichever direction.
pub proof fn lemma_edges_distinct(w: int, h: int)
    requires
        w > 0,
        h >= 0,
    ensures
        forall|i: int, j: int|
            0 <= i < grid_edges(w, h).len() && 0 <= j < grid_edges(w, h).len() && i != j ==> {
                let a = #[trigger] grid_edges(w, h)[i];
                let b = #[trigger] grid_edges(w, h)[j];
                !(a.0 == b.0 && a.1 == b.1) && !(a.0 == b.1 && a.1 == b.0)
            },
{
    assert(w * h >= 0) by (nonlinear_arith)
        requires
            w > 0,
            h >= 0,
    ;
    lemma_edges_upto_distinct(w, w * h);
}

/// No two edges among those of the first `n` nodes join the same two nodes,
/// in whichever direction.
pub proof fn lemma_edges_upto_distinct(w: int, n: int)
    requires
        w > 0,
        n >= 0,
    ensures
        forall|i: int, j: int|
            0 <= i < edges_upto(w, n).len() && 0 <= j < edges_upto(w, n).len() && i != j ==> {
                let a = #[trigger] edges_upto(w, n)[i];
                let b = #[trigger] edges_upto(w, n)[j];
                !(a.0 == b.0 && a.1 == b.1) && !(a.0 == b.1 && a.1 == b.0)
            },
    decreases n,
{
    if n > 0 {
        lemma_edges_upto_distinct(w, n - 1);
        lemma_edge_members(w, n - 1);
        lemma_edge_members(w, n);
        let before = edges_upto(w, n - 1);
        let added = cell_edges(w, n - 1);
        let all = edges_upto(w, n);
        assert(all == before + added);
        assert forall|i: int, j: int| 0 <= i < all.len() && 0 <= j < all.len() && i != j implies {
            let a = #[trigger] all[i];
            let b = #[trigger] all[j];
            !(a.0 == b.0 && a.1 == b.1) && !(a.0 == b.1 && a.1 == b.0)
        } by {
            assert(is_grid_edge(w, n, all[i]) && is_grid_edge(w, n, all[j]));
            if i < before.len() && j < before.len() {
                assert(all[i] == before[i] && all[j] == before[j]);
            } else if i >= before.len() && j >= before.len() {
                assert(all[i] == added[i - before.len()] && all[j] == added[j - before.len()]);
            } else if i < before.len() {
                assert(all[i] == before[i]);
                assert(is_grid_edge(w, n - 1, before[i]));
                assert(all[j] == added[j - before.len()]);
            } else {
                assert(all[j] == before[j]);
                assert(is_grid_edge(w, n - 1, before[j]));
                assert(all[i] == added[i - before.len()]);
            }
        }
    }
}

/// The number of edges among the first `x` cells of row `y`, beyond those of
/// the rows before it.
proof fn lemma_row_edge_count(w: int, y: int, x: int)
    requires
        w > 0,
        y >= 0,
        0 <= x <= w,
    ensures
        edges_upto(w, node_at(w, 0, y) + x).len() == edges_upto(w, node_at(w, 0, y)).len() + (if y
            > 0 {
            x
        } else {
            0
        }) + (if x > 0 {
            x - 1
        } else {
            0
        }),
    decreases x,
{
    if x > 0 {
        lemma_row_edge_count(w, y, x - 1);
        lemma_join(w, x - 1, y);
        lemma_join(w, 0, y);
        let i = node_at(w, 0, y) + x - 1;
        assert(i == node_at(w, x - 1, y));
        assert(edges_upto(w, i + 1) == edges_upto(w, i) + cell_edges(w, i));
    }
}

/// The number of edges of the first `rows` whole rows.
proof fn lemma_rows_edge_count(w: int, rows: int)
    requires
        w > 0,
        rows >= 0,
    ensures
        edges_upto(w, w * rows).len() == (if rows > 0 {
            2 * w * rows - w - rows
        } else {
            0
        }),
    decreases rows,
{
    if rows == 0 {
        assert(w * rows == 0) by (nonlinear_arith)
            requires
                rows == 0,
        ;
    } else {
        lemma_rows_edge_count(w, rows - 1);
        lemma_row_edge_count(w, rows - 1, w);
        assert(node_at(w, 0, rows - 1) == w * (rows - 1)) by (nonlinear_arith);
        assert(w * (rows - 1) + w == w * rows) by (nonlinear_arith);
        assert(2 * w * rows == 2 * w * (rows - 1) + 2 * w) by (nonlinear_arith);
        if rows == 1 {
            assert(w * (rows - 1) == 0) by (nonlinear_arith)
                requires
                    rows == 1,
            ;
            assert(2 * w * rows == 2 * w) by (nonlinear_arith)
                requires
                    rows == 1,
            ;
        }
    }
}

/// A grid of `w` by `h` cells has `2wh - w - h` edges: `w (h - 1)` between
/// rows and `(w - 1) h` within them.
pub proof fn lemma_edge_count(w: int, h: int)
    requires
        w >= 1,
        h >= 1,
    ensures
        grid_edges(w, h).len() == 2 * w * h - w - h,
{
    lemma_rows_edge_count(w, h);
}

} // verus!

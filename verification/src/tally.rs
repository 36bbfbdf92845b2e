//! Counting the edges of a flattened grid: however the cells are ordered, a
//! list that holds each cell once writes each edge of the grid once.
use crate::coordinate::Coordinate2D;
use crate::flatten::{below, cell_links, is_sweep, links_of, right_of, sweeps_before};
use crate::grid::{cell, grid_edges, in_grid, lemma_join, node_at};
use crate::sweep::{lemma_node, lemma_place};
use crate::topology::lemma_edge_count;
use vstd::prelude::*;

verus! {

/// The number of edges that the first `n` cells write, taken row by row.
pub open spec fn links_upto(w: int, h: int, n: int) -> int
    decreases n,
{
    if n <= 0 {
        0
    } else {
        links_upto(w, h, n - 1) + cell_links(w, h, cell(w, n - 1)).len()
    }
}

/// No two members of `cells` are the same cell.
pub open spec fn all_differ(cells: Seq<Coordinate2D>) -> bool {
    forall|i: int, j: int|
        0 <= i < cells.len() && 0 <= j < cells.len() && i != j ==> #[trigger] cells[i]
            != #[trigger] cells[j]
}

/// The two edges join the same two cells, in the same or in the opposite
/// direction.
pub open spec fn same_edge(
    a: (Coordinate2D, Coordinate2D),
    b: (Coordinate2D, Coordinate2D),
) -> bool {
    (a.0 == b.0 && a.1 == b.1) || (a.0 == b.1 && a.1 == b.0)
}

/// Every link starts at a member of the list and is one of that cell's own
/// links.
pub proof fn lemma_links_from(w: int, h: int, cells: Seq<Coordinate2D>)
    ensures
        forall|k: int|
            0 <= k < links_of(w, h, cells).len() ==> {
                let e = #[trigger] links_of(w, h, cells)[k];
                &&& cells.contains(e.0)
                &&& (e.1 == below(e.0) && e.0.y + 1 < h) || (e.1 == right_of(e.0) && e.0.x + 1 < w)
            },
    decreases cells.len(),
{
    if cells.len() > 0 {
        lemma_links_from(w, h, cells.drop_last());
        let all = links_of(w, h, cells);
        let head = links_of(w, h, cells.drop_last());
        let tail = cell_links(w, h, cells.last());
        assert(all == head + tail);
        assert forall|k: int| 0 <= k < all.len() implies {
            let e = #[trigger] all[k];
            &&& cells.contains(e.0)
            &&& (e.1 == below(e.0) && e.0.y + 1 < h) || (e.1 == right_of(e.0) && e.0.x + 1 < w)
        } by {
            if k < head.len() {
                assert(all[k] == head[k]);
                let m = choose|m: int|
                    0 <= m < cells.drop_last().len() && cells.drop_last()[m] == head[k].0;
                assert(cells[m] == head[k].0);
            } else {
                assert(all[k] == tail[k - head.len()]);
                assert(cells[cells.len() - 1] == all[k].0);
            }
        }
    }
}

/// A list that holds no cell twice writes no edge twice, neither in the same
/// direction nor in the opposite one.
pub proof fn lemma_links_distinct(w: int, h: int, cells: Seq<Coordinate2D>)
    requires
        w <= i16::MAX,
        h <= i16::MAX,
        all_differ(cells),
    ensures
        forall|i: int, j: int|
            0 <= i < links_of(w, h, cells).len() && 0 <= j < links_of(w, h, cells).len() && i != j
                ==> !same_edge(
                #[trigger] links_of(w, h, cells)[i],
                #[trigger] links_of(w, h, cells)[j],
            ),
    decreases cells.len(),
{
    if cells.len() > 0 {
        let rest = cells.drop_last();
        assert(all_differ(rest)) by {
            assert forall|i: int, j: int|
                0 <= i < rest.len() && 0 <= j < rest.len() && i != j implies #[trigger] rest[i]
                != #[trigger] rest[j] by {
                assert(rest[i] == cells[i] && rest[j] == cells[j]);
            }
        }
        lemma_links_distinct(w, h, rest);
        lemma_links_from(w, h, rest);
        let all = links_of(w, h, cells);
        let head = links_of(w, h, rest);
        let tail = cell_links(w, h, cells.last());
        assert(all == head + tail);
        lemma_links_from(w, h, cells);
        assert forall|i: int, j: int|
            0 <= i < all.len() && 0 <= j < all.len() && i != j implies !same_edge(
            #[trigger] all[i],
            #[trigger] all[j],
        ) by {
            if i < head.len() && j < head.len() {
                assert(all[i] == head[i] && all[j] == head[j]);
            } else if i >= head.len() && j >= head.len() {
                assert(all[i] == tail[i - head.len()] && all[j] == tail[j - head.len()]);
            } else {
                let old = if i < head.len() {
                    i
                } else {
                    j
                };
                let new = if i < head.len() {
                    j
                } else {
                    i
                };
                assert(all[old] == head[old]);
                assert(all[new] == tail[new - head.len()]);
                let m = choose|m: int| 0 <= m < rest.len() && rest[m] == head[old].0;
                assert(cells[m] == head[old].0);
                assert(cells[cells.len() - 1] == all[new].0);
            }
        }
    }
}

/// Taking a cell out of the list takes out the edges that it writes.
pub proof fn lemma_links_remove(w: int, h: int, cells: Seq<Coordinate2D>, m: int)
    requires
        0 <= m < cells.len(),
    ensures
        links_of(w, h, cells).len() == links_of(w, h, cells.remove(m)).len() + cell_links(
            w,
            h,
            cells[m],
        ).len(),
    decreases cells.len(),
{
    if m == cells.len() - 1 {
        assert(cells.remove(m) =~= cells.drop_last());
    } else {
        let rest = cells.drop_last();
        lemma_links_remove(w, h, rest, m);
        assert(cells.remove(m).drop_last() =~= rest.remove(m));
        assert(cells.remove(m).last() == cells.last());
        assert(rest[m] == cells[m]);
    }
}

/// A list that holds each of the first `n` cells once, and nothing else, has
/// `n` members and writes as many edges as those cells do row by row.
pub proof fn lemma_links_shuffled(w: int, h: int, cells: Seq<Coordinate2D>, n: int)
    requires
        0 < w <= i16::MAX,
        0 < h <= i16::MAX,
        0 <= n <= w * h,
        all_differ(cells),
        forall|k: int|
            0 <= k < cells.len() ==> in_grid(w, h, #[trigger] cells[k]) && node_at(
                w,
                cells[k].x as int,
                cells[k].y as int,
            ) < n,
        forall|i: int| 0 <= i < n ==> cells.contains(#[trigger] cell(w, i)),
    ensures
        cells.len() == n,
        links_of(w, h, cells).len() == links_upto(w, h, n),
    decreases n,
{
    if n == 0 {
        if cells.len() > 0 {
            assert(in_grid(w, h, cells[0]));
            lemma_node(w, h, cells[0].x as int, cells[0].y as int);
        }
    } else {
        let top = cell(w, n - 1);
        lemma_place(w, h, n - 1);
        assert(cells.contains(top));
        let m = choose|m: int| 0 <= m < cells.len() && cells[m] == top;
        let rest = cells.remove(m);
        assert(all_differ(rest)) by {
            assert forall|i: int, j: int|
                0 <= i < rest.len() && 0 <= j < rest.len() && i != j implies #[trigger] rest[i]
                != #[trigger] rest[j] by {
                let a = if i < m {
                    i
                } else {
                    i + 1
                };
                let b = if j < m {
                    j
                } else {
                    j + 1
                };
                assert(rest[i] == cells[a] && rest[j] == cells[b]);
            }
        }
        assert forall|k: int| 0 <= k < rest.len() implies in_grid(w, h, #[trigger] rest[k])
            && node_at(w, rest[k].x as int, rest[k].y as int) < n - 1 by {
            let a = if k < m {
                k
            } else {
                k + 1
            };
            assert(rest[k] == cells[a]);
            assert(cells[a] != cells[m]);
            lemma_node(w, h, cells[a].x as int, cells[a].y as int);
        }
        assert forall|i: int| 0 <= i < n - 1 implies rest.contains(#[trigger] cell(w, i)) by {
            assert(cells.contains(cell(w, i)));
            let a = choose|a: int| 0 <= a < cells.len() && cells[a] == cell(w, i);
            assert(i < w * h);
            lemma_place(w, h, i);
            assert(a != m);
            if a < m {
                assert(rest[a] == cells[a]);
            } else {
                assert(rest[a - 1] == cells[a]);
            }
        }
        lemma_links_shuffled(w, h, rest, n - 1);
        lemma_links_remove(w, h, cells, m);
    }
}

/// The members of `cells` come in visiting order.
pub open spec fn in_visiting_order(cells: Seq<Coordinate2D>) -> bool {
    forall|i: int, j: int|
        0 <= i < j < cells.len() ==> sweeps_before(#[trigger] cells[i], #[trigger] cells[j])
}

/// Two lists in visiting order that hold the same cells are the same list.
pub proof fn lemma_order_decides(one: Seq<Coordinate2D>, two: Seq<Coordinate2D>)
    requires
        in_visiting_order(one),
        in_visiting_order(two),
        forall|c: Coordinate2D| one.contains(c) <==> two.contains(c),
    ensures
        one == two,
    decreases one.len(),
{
    if one.len() == 0 {
        if two.len() > 0 {
            assert(two.contains(two[0]));
            assert(one.contains(two[0]));
        }
        assert(one =~= two);
    } else {
        let a = one.last();
        assert(one[one.len() - 1] == a);
        assert(one.contains(a));
        assert(two.contains(a));
        let b = two.last();
        assert(two[two.len() - 1] == b);
        assert(two.contains(b));
        assert(one.contains(b));
        let at_a = choose|k: int| 0 <= k < two.len() && two[k] == a;
        let at_b = choose|k: int| 0 <= k < one.len() && one[k] == b;
        if at_a < two.len() - 1 {
            assert(sweeps_before(two[at_a], two[two.len() - 1]));
        }
        if at_b < one.len() - 1 {
            assert(sweeps_before(one[at_b], one[one.len() - 1]));
        }
        assert(a == b);
        let head = one.drop_last();
        let other = two.drop_last();
        assert forall|c: Coordinate2D| head.contains(c) <==> other.contains(c) by {
            if head.contains(c) {
                let k = choose|k: int| 0 <= k < head.len() && head[k] == c;
                assert(one[k] == c);
                assert(sweeps_before(one[k], one[one.len() - 1]));
                assert(one.contains(c));
                assert(two.contains(c));
                let m = choose|m: int| 0 <= m < two.len() && two[m] == c;
                assert(other[m] == c);
            }
            if other.contains(c) {
                let k = choose|k: int| 0 <= k < other.len() && other[k] == c;
                assert(two[k] == c);
                assert(sweeps_before(two[k], two[two.len() - 1]));
                assert(two.contains(c));
                assert(one.contains(c));
                let m = choose|m: int| 0 <= m < one.len() && one[m] == c;
                assert(head[m] == c);
            }
        }
        assert(in_visiting_order(head)) by {
            assert forall|i: int, j: int| 0 <= i < j < head.len() implies sweeps_before(
                #[trigger] head[i],
                #[trigger] head[j],
            ) by {
                assert(head[i] == one[i] && head[j] == one[j]);
            }
        }
        assert(in_visiting_order(other)) by {
            assert forall|i: int, j: int| 0 <= i < j < other.len() implies sweeps_before(
                #[trigger] other[i],
                #[trigger] other[j],
            ) by {
                assert(other[i] == two[i] && other[j] == two[j]);
            }
        }
        lemma_order_decides(head, other);
        assert(one =~= head.push(a));
        assert(two =~= other.push(b));
    }
}

/// The grid has one list of its cells in visiting order.
pub proof fn lemma_one_sweep(w: int, h: int, one: Seq<Coordinate2D>, two: Seq<Coordinate2D>)
    requires
        is_sweep(w, h, one),
        is_sweep(w, h, two),
    ensures
        one == two,
{
    assert forall|c: Coordinate2D| one.contains(c) <==> two.contains(c) by {
        if one.contains(c) {
            let k = choose|k: int| 0 <= k < one.len() && one[k] == c;
            assert(in_grid(w, h, one[k]));
        }
        if two.contains(c) {
            let k = choose|k: int| 0 <= k < two.len() && two[k] == c;
            assert(in_grid(w, h, two[k]));
        }
    }
    lemma_order_decides(one, two);
}

/// The number of edges that the first `x` cells of row `y` write.
proof fn lemma_links_row(w: int, h: int, y: int, x: int)
    requires
        0 < w <= i16::MAX,
        0 < h <= i16::MAX,
        0 <= y < h,
        0 <= x <= w,
    ensures
        links_upto(w, h, node_at(w, 0, y) + x) == links_upto(w, h, node_at(w, 0, y)) + (if y + 1
            < h {
            x
        } else {
            0
        }) + (if x == w {
            w - 1
        } else {
            x
        }),
    decreases x,
{
    if x > 0 {
        lemma_links_row(w, h, y, x - 1);
        lemma_join(w, x - 1, y);
        lemma_join(w, 0, y);
        let i = node_at(w, 0, y) + x - 1;
        assert(i == node_at(w, x - 1, y));
        let c = cell(w, i);
        assert(c.x == x - 1 && c.y == y);
        assert(links_upto(w, h, i + 1) == links_upto(w, h, i) + cell_links(w, h, c).len());
    }
}

/// The number of edges that the first `rows` rows write.
proof fn lemma_links_rows(w: int, h: int, rows: int)
    requires
        0 < w <= i16::MAX,
        0 < h <= i16::MAX,
        0 <= rows <= h,
    ensures
        links_upto(w, h, w * rows) == (if rows == h {
            2 * w * h - w - h
        } else {
            2 * w * rows - rows
        }),
    decreases rows,
{
    if rows == 0 {
        assert(w * rows == 0) by (nonlinear_arith)
            requires
                rows == 0,
        ;
        assert(2 * w * rows - rows == 0) by (nonlinear_arith)
            requires
                rows == 0,
        ;
    } else {
        lemma_links_rows(w, h, rows - 1);
        lemma_links_row(w, h, rows - 1, w);
        assert(node_at(w, 0, rows - 1) == w * (rows - 1)) by (nonlinear_arith);
        assert(w * (rows - 1) + w == w * rows) by (nonlinear_arith);
        assert(2 * w * rows == 2 * w * (rows - 1) + 2 * w) by (nonlinear_arith);
        assert(rows == h ==> 2 * w * rows == 2 * w * h) by (nonlinear_arith);
    }
}

/// A list that holds every cell of the grid in visiting order has as many
/// members as the grid has cells. It writes no edge twice, in whichever
/// direction, and as many edges as the grid has: `2wh - w - h`.
pub proof fn lemma_sweep_links(w: int, h: int, cells: Seq<Coordinate2D>)
    requires
        0 < w <= i16::MAX,
        0 < h <= i16::MAX,
        is_sweep(w, h, cells),
    ensures
        cells.len() == w * h,
        links_of(w, h, cells).len() == 2 * w * h - w - h,
        links_of(w, h, cells).len() == grid_edges(w, h).len(),
        forall|i: int, j: int|
            0 <= i < links_of(w, h, cells).len() && 0 <= j < links_of(w, h, cells).len() && i != j
                ==> !same_edge(
                #[trigger] links_of(w, h, cells)[i],
                #[trigger] links_of(w, h, cells)[j],
            ),
{
    let n = w * h;
    assert(n > 0) by (nonlinear_arith)
        requires
            n == w * h,
            w > 0,
            h > 0,
    ;
    assert(all_differ(cells)) by {
        assert forall|i: int, j: int|
            0 <= i < cells.len() && 0 <= j < cells.len() && i != j implies #[trigger] cells[i]
            != #[trigger] cells[j] by {
            if i < j {
                assert(sweeps_before(cells[i], cells[j]));
            } else {
                assert(sweeps_before(cells[j], cells[i]));
            }
        }
    }
    assert forall|k: int| 0 <= k < cells.len() implies in_grid(w, h, #[trigger] cells[k])
        && node_at(w, cells[k].x as int, cells[k].y as int) < n by {
        lemma_node(w, h, cells[k].x as int, cells[k].y as int);
    }
    assert forall|i: int| 0 <= i < n implies cells.contains(#[trigger] cell(w, i)) by {
        lemma_place(w, h, i);
        assert(in_grid(w, h, cell(w, i)));
    }
    lemma_links_shuffled(w, h, cells, n);
    lemma_links_rows(w, h, h);
    lemma_edge_count(w, h);
    lemma_links_distinct(w, h, cells);
}

} // verus!

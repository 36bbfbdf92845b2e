//! The order in which a breadth-first traversal from the first node visits
//! the cells of a grid.
//!
//! The traversal goes diagonal by diagonal: all cells whose column and row
//! add up to `d` come before those that add up to `d + 1`, and within one
//! diagonal the cells come by growing column. This file proves that each step
//! of the traversal keeps to that order.
use crate::grid::{
    column_of, grid_neighbors, lemma_join, lemma_rows, lemma_split, node_at, row_of,
};
use crate::store::fresh;
use vstd::prelude::*;
use vstd::set_lib::{lemma_int_range, set_int_range};

verus! {

/// The diagonal on which node `i` lies: its column plus its row.
pub open spec fn layer(w: int, i: int) -> int {
    column_of(w, i) + row_of(w, i)
}

/// Node `a` is visited before node `b`: it lies on an earlier diagonal, or on
/// the same one in an earlier column.
pub open spec fn before(w: int, a: int, b: int) -> bool {
    layer(w, a) < layer(w, b) || (layer(w, a) == layer(w, b) && column_of(w, a) < column_of(
        w,
        b,
    ))
}

/// Node `i` has been reached once `last` has been visited: it comes no later
/// than the right-hand neighbour of `last` would.
pub open spec fn covered(w: int, last: int, i: int) -> bool {
    layer(w, i) <= layer(w, last) || (layer(w, i) == layer(w, last) + 1 && column_of(w, i)
        <= column_of(w, last) + 1)
}

/// The nodes of `s` come in visiting order.
pub open spec fn increasing(w: int, s: Seq<int>) -> bool {
    forall|i: int, j: int| 0 <= i < j < s.len() ==> before(w, #[trigger] s[i], #[trigger] s[j])
}

/// Every node that comes before `c` is in `visited`.
pub open spec fn all_before(w: int, n: int, visited: Seq<int>, c: int) -> bool {
    forall|z: int| 0 <= z < n && #[trigger] before(w, z, c) ==> visited.contains(z)
}

/// No node comes after `p` and before `c`.
pub open spec fn gapless(w: int, n: int, p: int, c: int) -> bool {
    forall|z: int| 0 <= z < n ==> !(before(w, p, z) && #[trigger] before(w, z, c))
}

/// The state of a traversal of the grid that has handed out `visited`, has
/// `queue` waiting, and has marked `reached`.
pub open spec fn on_course(
    w: int,
    h: int,
    visited: Seq<int>,
    queue: Seq<int>,
    reached: Set<int>,
) -> bool {
    let all = visited + queue;
    &&& increasing(w, all)
    &&& forall|k: int| 0 <= k < all.len() ==> 0 <= #[trigger] all[k] < w * h
    &&& forall|k: int| 0 <= k < all.len() ==> reached.contains(#[trigger] all[k])
    &&& forall|i: int| #[trigger] reached.contains(i) ==> 0 <= i < w * h && all.contains(i)
    &&& forall|i: int|
        0 <= i < w * h ==> (#[trigger] reached.contains(i) <==> (if visited.len() == 0 {
            i == 0
        } else {
            covered(w, visited.last(), i)
        }))
    &&& visited.len() == 0 ==> queue == seq![0int]
}

/// Column and row of a node of the grid.
pub proof fn lemma_place(w: int, h: int, i: int)
    requires
        w > 0,
        h >= 0,
        0 <= i < w * h,
    ensures
        0 <= column_of(w, i) < w,
        0 <= row_of(w, i) < h,
        i == node_at(w, column_of(w, i), row_of(w, i)),
{
    lemma_split(w, i);
    lemma_rows(w, h, i);
}

/// The node of a cell of the grid.
pub proof fn lemma_node(w: int, h: int, x: int, y: int)
    requires
        w > 0,
        0 <= x < w,
        0 <= y < h,
    ensures
        0 <= node_at(w, x, y) < w * h,
        column_of(w, node_at(w, x, y)) == x,
        row_of(w, node_at(w, x, y)) == y,
{
    lemma_join(w, x, y);
    lemma_rows(w, h, node_at(w, x, y));
}

/// Where the neighbours of a node lie, and that the graph lists them in
/// visiting order: first those on the diagonal before, then those on the
/// diagonal after.
pub proof fn lemma_neighbor_keys(w: int, h: int, i: int)
    requires
        w > 0,
        h > 0,
        0 <= i < w * h,
    ensures
        increasing(w, grid_neighbors(w, h, i)),
        forall|k: int|
            0 <= k < grid_neighbors(w, h, i).len() ==> {
                let m = #[trigger] grid_neighbors(w, h, i)[k];
                &&& 0 <= m < w * h
                &&& (m == i - 1 && column_of(w, m) == column_of(w, i) - 1 && row_of(w, m) == row_of(
                    w,
                    i,
                )) || (m == i - w && column_of(w, m) == column_of(w, i) && row_of(w, m) == row_of(
                    w,
                    i,
                ) - 1) || (m == i + w && column_of(w, m) == column_of(w, i) && row_of(w, m)
                    == row_of(w, i) + 1) || (m == i + 1 && column_of(w, m) == column_of(w, i) + 1
                    && row_of(w, m) == row_of(w, i))
            },
        row_of(w, i) + 1 < h ==> grid_neighbors(w, h, i).contains(i + w),
        column_of(w, i) + 1 < w ==> grid_neighbors(w, h, i).contains(i + 1),
{
    let x = column_of(w, i);
    let y = row_of(w, i);
    let around = grid_neighbors(w, h, i);
    lemma_place(w, h, i);
    let left = if x > 0 {
        seq![i - 1]
    } else {
        Seq::<int>::empty()
    };
    let up = if y > 0 {
        seq![i - w]
    } else {
        Seq::<int>::empty()
    };
    let down = if y + 1 < h {
        seq![i + w]
    } else {
        Seq::<int>::empty()
    };
    let right = if x + 1 < w {
        seq![i + 1]
    } else {
        Seq::<int>::empty()
    };
    assert(around == left + up + down + right);
    if x > 0 {
        lemma_node(w, h, x - 1, y);
    }
    if y > 0 {
        lemma_node(w, h, x, y - 1);
        lemma_join(w, x, y - 1);
    }
    if y + 1 < h {
        lemma_node(w, h, x, y + 1);
        lemma_join(w, x, y);
    }
    if x + 1 < w {
        lemma_node(w, h, x + 1, y);
    }
    if y + 1 < h {
        assert(around[(left.len() + up.len()) as int] == i + w);
    }
    if x + 1 < w {
        assert(around[(left.len() + up.len() + down.len()) as int] == i + 1);
    }
}

/// Of a list in visiting order, the traversal takes up the nodes that it has
/// not reached yet, and keeps their order.
pub proof fn lemma_fresh(w: int, list: Seq<int>, reached: Set<int>)
    requires
        increasing(w, list),
    ensures
        increasing(w, fresh(list, reached)),
        forall|k: int|
            0 <= k < fresh(list, reached).len() ==> list.contains(
                #[trigger] fresh(list, reached)[k],
            ) && !reached.contains(fresh(list, reached)[k]),
        forall|k: int|
            0 <= k < list.len() && !reached.contains(#[trigger] list[k]) ==> fresh(
                list,
                reached,
            ).contains(list[k]),
    decreases list.len(),
{
    if list.len() > 0 {
        let rest = list.skip(1);
        assert forall|i: int, j: int| 0 <= i < j < rest.len() implies before(
            w,
            #[trigger] rest[i],
            #[trigger] rest[j],
        ) by {
            assert(rest[i] == list[i + 1] && rest[j] == list[j + 1]);
        }
        let taken = fresh(list, reached);
        if reached.contains(list[0]) {
            lemma_fresh(w, rest, reached);
            assert forall|k: int| 0 <= k < taken.len() implies list.contains(#[trigger] taken[k])
                && !reached.contains(taken[k]) by {
                let m = choose|m: int| 0 <= m < rest.len() && rest[m] == taken[k];
                assert(list[m + 1] == taken[k]);
            }
            assert forall|k: int|
                0 <= k < list.len() && !reached.contains(#[trigger] list[k]) implies taken.contains(
                list[k],
            ) by {
                assert(rest[k - 1] == list[k]);
            }
        } else {
            let more = reached.insert(list[0]);
            let tail = fresh(rest, more);
            lemma_fresh(w, rest, more);
            assert(taken =~= seq![list[0]] + tail);
            assert forall|k: int| 0 <= k < taken.len() implies list.contains(#[trigger] taken[k])
                && !reached.contains(taken[k]) by {
                if k > 0 {
                    assert(taken[k] == tail[k - 1]);
                    let m = choose|m: int| 0 <= m < rest.len() && rest[m] == tail[k - 1];
                    assert(list[m + 1] == taken[k]);
                }
            }
            assert forall|i: int, j: int| 0 <= i < j < taken.len() implies before(
                w,
                #[trigger] taken[i],
                #[trigger] taken[j],
            ) by {
                assert(taken[j] == tail[j - 1]);
                if i == 0 {
                    let m = choose|m: int| 0 <= m < rest.len() && rest[m] == tail[j - 1];
                    assert(list[m + 1] == taken[j]);
                } else {
                    assert(taken[i] == tail[i - 1]);
                }
            }
            assert forall|k: int|
                0 <= k < list.len() && !reached.contains(#[trigger] list[k]) implies taken.contains(
                list[k],
            ) by {
                if k == 0 || list[k] == list[0] {
                    assert(taken[0] == list[k]);
                } else {
                    assert(rest[k - 1] == list[k]);
                    let m = choose|m: int| 0 <= m < tail.len() && tail[m] == list[k];
                    assert(taken[m + 1] == list[k]);
                }
            }
        }
    }
}

/// After the first node, the traversal has reached the node below it and the
/// node on its right, and nothing else.
proof fn lemma_first_frontier(w: int, h: int, i: int)
    requires
        w > 0,
        h > 0,
        0 < i < w * h,
        covered(w, 0, i),
    ensures
        grid_neighbors(w, h, 0).contains(i),
{
    lemma_place(w, h, i);
    lemma_place(w, h, 0);
    lemma_neighbor_keys(w, h, 0);
    let x = column_of(w, i);
    let y = row_of(w, i);
    assert(0int % w == 0 && 0int / w == 0);
    if x == 0 {
        assert(y == 1);
        assert(1 * w == w) by (nonlinear_arith);
    } else {
        assert(x == 1 && y == 0);
        assert(0 * w == 0) by (nonlinear_arith);
    }
}

/// What a visit newly reaches is a neighbour of the visited node.
proof fn lemma_frontier(w: int, h: int, p: int, c: int, i: int)
    requires
        w > 0,
        h > 0,
        0 <= p < w * h,
        0 <= c < w * h,
        0 <= i < w * h,
        before(w, p, c),
        covered(w, p, c),
        gapless(w, w * h, p, c),
        covered(w, c, i),
        !covered(w, p, i),
    ensures
        grid_neighbors(w, h, c).contains(i),
{
    lemma_place(w, h, p);
    lemma_place(w, h, c);
    lemma_place(w, h, i);
    lemma_neighbor_keys(w, h, c);
    let px = column_of(w, p);
    let py = row_of(w, p);
    let cx = column_of(w, c);
    let cy = row_of(w, c);
    let ix = column_of(w, i);
    let iy = row_of(w, i);
    // the cell up and to the right of `p`, where the grid has one
    if px + 1 < w && py >= 1 {
        let z = node_at(w, px + 1, py - 1);
        lemma_node(w, h, px + 1, py - 1);
        assert(!(before(w, p, z) && before(w, z, c)));
    }
    if px + py < cx + cy && ix + iy == cx + cy + 1 && ix < cx {
        // a cell on the diagonal of `c` in the column of `i`
        let z = node_at(w, ix, iy - 1);
        lemma_node(w, h, ix, iy - 1);
        assert(!(before(w, p, z) && before(w, z, c)));
    }
    if ix == cx {
        assert(iy == cy + 1);
        lemma_join(w, cx, cy);
        assert(i == c + w);
    } else {
        assert(ix == cx + 1 && iy == cy);
        assert(i == c + 1);
    }
}

/// One step of the traversal: the first node of the queue is visited, its
/// neighbours are marked, and those not reached before join the queue. The
/// traversal stays on course, and everything that comes before the visited
/// node has been visited already.
pub proof fn lemma_step(w: int, h: int, visited: Seq<int>, queue: Seq<int>, reached: Set<int>)
    requires
        w > 0,
        h > 0,
        on_course(w, h, visited, queue, reached),
        queue.len() > 0,
    ensures
        0 <= queue[0] < w * h,
        all_before(w, w * h, visited, queue[0]),
        visited.len() > 0 ==> before(w, visited.last(), queue[0]),
        visited.len() == 0 ==> queue[0] == 0,
        on_course(
            w,
            h,
            visited.push(queue[0]),
            queue.skip(1) + fresh(grid_neighbors(w, h, queue[0]), reached),
            reached.union(grid_neighbors(w, h, queue[0]).to_set()),
        ),
{
    let n = w * h;
    let all = visited + queue;
    let k = visited.len() as int;
    let c = queue[0];
    assert(all[k] == c);
    let around = grid_neighbors(w, h, c);
    lemma_neighbor_keys(w, h, c);
    lemma_fresh(w, around, reached);
    lemma_place(w, h, c);
    let add = fresh(around, reached);
    let visited2 = visited.push(c);
    let queue2 = queue.skip(1) + add;
    let reached2 = reached.union(around.to_set());
    let all2 = visited2 + queue2;
    assert(all2 =~= all + add);
    assert(reached.contains(c));
    assert(0int % w == 0 && 0int / w == 0);
    if k > 0 {
        let p = visited.last();
        assert(all[k - 1] == p);
        assert(before(w, all[k - 1], all[k]));
        lemma_place(w, h, p);
    }
    // everything before `c` has been visited
    assert forall|z: int| 0 <= z < n && #[trigger] before(w, z, c) implies visited.contains(z) by {
        lemma_place(w, h, z);
        if k > 0 {
            let p = visited.last();
            assert(covered(w, p, z));
            assert(reached.contains(z));
            let m = choose|m: int| 0 <= m < all.len() && all[m] == z;
            if m > k {
                assert(before(w, all[k], all[m]));
            }
            assert(visited[m] == z);
        }
    }
    // the nodes taken up come after all that were reached before
    assert forall|i: int, j: int| 0 <= i < j < all2.len() implies before(
        w,
        #[trigger] all2[i],
        #[trigger] all2[j],
    ) by {
        if j < all.len() {
            assert(all2[i] == all[i] && all2[j] == all[j]);
        } else if i >= all.len() {
            assert(all2[i] == add[i - all.len()] && all2[j] == add[j - all.len()]);
        } else {
            let e = all[i];
            let f = add[j - all.len()];
            assert(all2[i] == e && all2[j] == f);
            assert(reached.contains(e));
            assert(around.contains(f) && !reached.contains(f));
            let m = choose|m: int| 0 <= m < around.len() && around[m] == f;
            assert(0 <= around[m] < n);
            lemma_place(w, h, e);
            lemma_place(w, h, f);
        }
    }
    assert forall|j: int| 0 <= j < all2.len() implies 0 <= #[trigger] all2[j] < n
        && reached2.contains(all2[j]) by {
        if j < all.len() {
            assert(all2[j] == all[j]);
        } else {
            let f = add[j - all.len()];
            assert(all2[j] == f);
            assert(around.contains(f));
            let m = choose|m: int| 0 <= m < around.len() && around[m] == f;
            assert(0 <= around[m] < n);
        }
    }
    assert forall|i: int| #[trigger] reached2.contains(i) implies 0 <= i < n && all2.contains(
        i,
    ) by {
        if reached.contains(i) {
            let m = choose|m: int| 0 <= m < all.len() && all[m] == i;
            assert(all2[m] == i);
        } else {
            assert(around.contains(i));
            let m = choose|m: int| 0 <= m < around.len() && around[m] == i;
            assert(0 <= around[m] < n);
            assert(add.contains(around[m]));
            let t = choose|t: int| 0 <= t < add.len() && add[t] == i;
            assert(all2[all.len() + t] == i);
        }
    }
    assert(visited2.last() == c);
    assert forall|i: int| 0 <= i < n implies (#[trigger] reached2.contains(i) <==> covered(
        w,
        c,
        i,
    )) by {
        lemma_place(w, h, i);
        if reached.contains(i) {
        } else if around.contains(i) {
            let m = choose|m: int| 0 <= m < around.len() && around[m] == i;
            assert(0 <= around[m] < n);
        } else if covered(w, c, i) {
            if k == 0 {
                lemma_first_frontier(w, h, i);
            } else {
                let p = visited.last();
                assert forall|z: int| 0 <= z < n implies !(before(w, p, z) && #[trigger] before(
                    w,
                    z,
                    c,
                )) by {
                    if before(w, p, z) && before(w, z, c) {
                        lemma_place(w, h, z);
                        assert(visited.contains(z));
                        let m = choose|m: int| 0 <= m < visited.len() && visited[m] == z;
                        assert(all[m] == z);
                        if m < k - 1 {
                            assert(before(w, all[m], all[k - 1]));
                        }
                    }
                }
                lemma_frontier(w, h, p, c, i);
            }
        }
    }
}

/// When the queue has run empty, every node of the grid has been visited,
/// each once.
pub proof fn lemma_done(w: int, h: int, visited: Seq<int>, reached: Set<int>)
    requires
        w > 0,
        h > 0,
        on_course(w, h, visited, Seq::<int>::empty(), reached),
    ensures
        visited.len() == w * h,
        forall|i: int| 0 <= i < w * h ==> visited.contains(i),
{
    let n = w * h;
    let all = visited + Seq::<int>::empty();
    assert(all =~= visited);
    assert(visited.len() > 0);
    let last_at = visited.len() - 1;
    let last = visited[last_at];
    lemma_place(w, h, last);
    lemma_neighbor_keys(w, h, last);
    let x = column_of(w, last);
    let y = row_of(w, last);
    if y + 1 < h {
        let z = last + w;
        lemma_node(w, h, x, y + 1);
        lemma_join(w, x, y);
        assert(covered(w, last, z));
        assert(reached.contains(z));
        let m = choose|m: int| 0 <= m < all.len() && all[m] == z;
        if m < last_at {
            assert(before(w, visited[m], visited[last_at]));
        }
        assert(false);
    }
    if x + 1 < w {
        let z = last + 1;
        lemma_node(w, h, x + 1, y);
        assert(covered(w, last, z));
        assert(reached.contains(z));
        let m = choose|m: int| 0 <= m < all.len() && all[m] == z;
        if m < last_at {
            assert(before(w, visited[m], visited[last_at]));
        }
        assert(false);
    }
    assert forall|i: int| 0 <= i < n implies visited.contains(i) by {
        lemma_place(w, h, i);
        assert(covered(w, last, i));
        assert(reached.contains(i));
    }
    assert forall|i: int, j: int| 0 <= i < visited.len() && 0 <= j < visited.len() && i
        != j implies visited[i] != visited[j] by {
        if i < j {
            assert(before(w, visited[i], visited[j]));
        } else {
            assert(before(w, visited[j], visited[i]));
        }
    }
    assert(visited.no_duplicates());
    visited.unique_seq_to_set();
    lemma_int_range(0, n);
    assert(visited.to_set() =~= set_int_range(0, n)) by {
        assert forall|i: int| visited.to_set().contains(i) <==> set_int_range(0, n).contains(
            i,
        ) by {
            if visited.contains(i) {
                let m = choose|m: int| 0 <= m < visited.len() && visited[m] == i;
                assert(0 <= all[m] < n);
            }
        }
    }
}

} // verus!

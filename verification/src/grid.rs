//! The grid graph: its mathematical model and the builder that fills a
//! petgraph `Graph` to match it.
//!
//! The cells of a grid of `w` columns and `h` rows are numbered row by row:
//! the cell in column `x` of row `y` is node `y * w + x`. Each cell is joined
//! to the cell above it and to the cell on its left, in that order, at the
//! moment it is created, so every pair of side-by-side cells gets exactly one
//! edge.
use crate::coordinate::Coordinate2D;
use crate::store::{
    graph_add_edge, graph_add_node, graph_edges, graph_neighbors, graph_node_count,
    graph_node_weight, graph_nodes, graph_with_capacity, Undirected2DCoordinateGraph,
    RESERVE_LIMIT,
};
use crate::topology::lemma_neighbors;
use vstd::arithmetic::div_mod::{
    lemma_div_pos_is_pos, lemma_fundamental_div_mod, lemma_fundamental_div_mod_converse,
    lemma_mod_pos_bound,
};
use vstd::prelude::*;

verus! {

/// What a run is asked to do: the two ends of the path, the size of the
/// grid, and the scale at which it is drawn.
#[derive(Clone, Copy, Debug)]
pub struct Config {
    pub start: Coordinate2D,
    pub goal: Coordinate2D,
    pub height: i16,
    pub width: i16,
    pub scale: i16,
}

/// The cost of one hop along an edge, which is also the weight that every
/// edge of the grid carries.
pub fn hop_cost() -> (cost: i32)
    ensures
        cost == 1,
{
    1
}

/// A requested width or height as a number of cells: nothing for a request
/// that is not positive.
pub open spec fn extent(requested: i16) -> int {
    if requested > 0 {
        requested as int
    } else {
        0
    }
}

/// The column of node `i` in a grid of `w` columns.
pub open spec fn column_of(w: int, i: int) -> int {
    i % w
}

/// The row of node `i` in a grid of `w` columns.
pub open spec fn row_of(w: int, i: int) -> int {
    i / w
}

/// The node in column `x` of row `y`.
pub open spec fn node_at(w: int, x: int, y: int) -> int {
    y * w + x
}

/// The coordinate that node `i` carries.
pub open spec fn cell(w: int, i: int) -> Coordinate2D {
    Coordinate2D { x: column_of(w, i) as i16, y: row_of(w, i) as i16 }
}

/// Whether `c` lies in the rectangle of `w` by `h` cells.
pub open spec fn in_grid(w: int, h: int, c: Coordinate2D) -> bool {
    0 <= c.x < w && 0 <= c.y < h
}

/// The payloads of the first `n` nodes.
pub open spec fn cells_upto(w: int, n: int) -> Seq<Coordinate2D> {
    Seq::new(
        if n >= 0 {
            n as nat
        } else {
            0
        },
        |i: int| cell(w, i),
    )
}

/// The payloads of all nodes of the grid, by node index.
pub open spec fn grid_nodes(w: int, h: int) -> Seq<Coordinate2D> {
    cells_upto(w, w * h)
}

/// The edges added when node `i` is created: to the cell above, if there is
/// one, then to the cell on the left, if there is one; each of weight one.
pub open spec fn cell_edges(w: int, i: int) -> Seq<(int, int, int)> {
    (if i >= w {
        seq![(i, i - w, 1int)]
    } else {
        Seq::empty()
    }) + (if i % w != 0 {
        seq![(i, i - 1, 1int)]
    } else {
        Seq::empty()
    })
}

/// The edges added while the first `n` nodes are created.
pub open spec fn edges_upto(w: int, n: int) -> Seq<(int, int, int)>
    decreases n,
{
    if n <= 0 {
        Seq::empty()
    } else {
        edges_upto(w, n - 1) + cell_edges(w, n - 1)
    }
}

/// The edges of the grid in the order in which they are added.
pub open spec fn grid_edges(w: int, h: int) -> Seq<(int, int, int)> {
    edges_upto(w, w * h)
}

/// The neighbours of node `i` in the order in which the graph lists them:
/// left, above, below, right, leaving out those beyond the border.
pub open spec fn grid_neighbors(w: int, h: int, i: int) -> Seq<int> {
    let x = column_of(w, i);
    let y = row_of(w, i);
    (if x > 0 {
        seq![i - 1]
    } else {
        Seq::empty()
    }) + (if y > 0 {
        seq![i - w]
    } else {
        Seq::empty()
    }) + (if y + 1 < h {
        seq![i + w]
    } else {
        Seq::empty()
    }) + (if x + 1 < w {
        seq![i + 1]
    } else {
        Seq::empty()
    })
}

/// Column and row of a node, from its index.
pub proof fn lemma_split(w: int, i: int)
    requires
        w > 0,
        i >= 0,
    ensures
        0 <= column_of(w, i) < w,
        0 <= row_of(w, i),
        i == node_at(w, column_of(w, i), row_of(w, i)),
{
    lemma_fundamental_div_mod(i, w);
    lemma_mod_pos_bound(i, w);
    lemma_div_pos_is_pos(i, w);
    assert(w * (i / w) == (i / w) * w) by (nonlinear_arith);
}

/// Index of a node, from its column and row.
pub proof fn lemma_join(w: int, x: int, y: int)
    requires
        w > 0,
        0 <= x < w,
        0 <= y,
    ensures
        column_of(w, node_at(w, x, y)) == x,
        row_of(w, node_at(w, x, y)) == y,
        node_at(w, x, y) >= 0,
        y >= 1 <==> node_at(w, x, y) >= w,
        node_at(w, x, y + 1) == node_at(w, x, y) + w,
{
    lemma_fundamental_div_mod_converse(y * w + x, w, y, x);
    assert(y * w >= 0) by (nonlinear_arith)
        requires
            y >= 0,
            w > 0,
    ;
    assert(y >= 1 ==> y * w >= w) by (nonlinear_arith)
        requires
            w > 0,
    ;
    assert(y == 0 ==> y * w == 0) by (nonlinear_arith);
    assert((y + 1) * w == y * w + w) by (nonlinear_arith);
}

/// A node index is below `w * h` exactly if its row is below `h`.
pub proof fn lemma_rows(w: int, h: int, i: int)
    requires
        w > 0,
        h >= 0,
        i >= 0,
    ensures
        i < w * h <==> row_of(w, i) < h,
{
    lemma_split(w, i);
    let x = column_of(w, i);
    let y = row_of(w, i);
    assert(y < h ==> y * w + x < w * h) by (nonlinear_arith)
        requires
            0 <= x < w,
            0 <= y,
    ;
    assert(y >= h ==> y * w + x >= w * h) by (nonlinear_arith)
        requires
            0 <= x < w,
            0 <= h,
    ;
}

/// No node brings more than two edges with it.
pub proof fn lemma_edges_upto_len(w: int, n: int)
    requires
        n >= 0,
    ensures
        edges_upto(w, n).len() <= 2 * n,
    decreases n,
{
    if n > 0 {
        lemma_edges_upto_len(w, n - 1);
    }
}

/// The grid and the graph that holds it.
///
/// The graph is filled by [`make_graph`] and never changed afterwards: it
/// holds exactly the nodes [`grid_nodes`] and the edges [`grid_edges`] of the
/// grid's width and height.
pub struct GridGraph {
    graph: Undirected2DCoordinateGraph,
    width: usize,
    height: usize,
}

/// The size of a grid, in cells.
pub struct GridShape {
    pub width: int,
    pub height: int,
}

impl View for GridGraph {
    type V = GridShape;

    closed spec fn view(&self) -> GridShape {
        GridShape { width: self.width as int, height: self.height as int }
    }
}

impl GridGraph {
    #[verifier::type_invariant]
    spec fn well_formed(self) -> bool {
        &&& self.width <= i16::MAX
        &&& self.height <= i16::MAX
        &&& graph_nodes(self.graph) == grid_nodes(self.width as int, self.height as int)
        &&& graph_edges(self.graph) == grid_edges(self.width as int, self.height as int)
    }

    /// The payloads of the nodes that the graph holds, by node index.
    pub closed spec fn nodes(self) -> Seq<Coordinate2D> {
        graph_nodes(self.graph)
    }

    /// The edges that the graph holds, as `(source, target, weight)` in the
    /// order in which they were added.
    pub closed spec fn edges(self) -> Seq<(int, int, int)> {
        graph_edges(self.graph)
    }

    /// The number of columns.
    pub fn width(&self) -> (w: usize)
        ensures
            w == self@.width,
            0 <= w <= i16::MAX,
    {
        proof {
            use_type_invariant(self);
        }
        self.width
    }

    /// The number of rows.
    pub fn height(&self) -> (h: usize)
        ensures
            h == self@.height,
            0 <= h <= i16::MAX,
    {
        proof {
            use_type_invariant(self);
        }
        self.height
    }

    /// The number of nodes: one for each cell.
    pub fn node_count(&self) -> (n: usize)
        ensures
            n == self@.width * self@.height,
            n == self.nodes().len(),
    {
        proof {
            use_type_invariant(self);
            assert(self@.width * self@.height >= 0) by (nonlinear_arith)
                requires
                    self@.width >= 0,
                    self@.height >= 0,
            ;
        }
        graph_node_count(&self.graph)
    }

    /// The coordinate that node `node` carries.
    pub fn coordinate(&self, node: usize) -> (at: Coordinate2D)
        requires
            node < self@.width * self@.height,
        ensures
            at == cell(self@.width, node as int),
            at == self.nodes()[node as int],
            in_grid(self@.width, self@.height, at),
            node == node_at(self@.width, at.x as int, at.y as int),
    {
        proof {
            use_type_invariant(self);
            let w = self@.width;
            let h = self@.height;
            assert(w > 0) by (nonlinear_arith)
                requires
                    0 <= node < w * h,
                    w >= 0,
            ;
            lemma_split(w, node as int);
            lemma_rows(w, h, node as int);
        }
        graph_node_weight(&self.graph, node)
    }

    /// The node that lies at `at`, found by going through the nodes in the
    /// order of their indices: `None` if `at` is outside the grid.
    pub fn node_of(&self, at: Coordinate2D) -> (node: Option<usize>)
        ensures
            node is Some <==> in_grid(self@.width, self@.height, at),
            node matches Some(i) ==> i == node_at(self@.width, at.x as int, at.y as int) && i
                < self@.width * self@.height && cell(self@.width, i as int) == at,
    {
        let count = self.node_count();
        let mut i: usize = 0;
        while i < count
            invariant
                i <= count,
                count == self@.width * self@.height,
                forall|j: int| 0 <= j < i ==> cell(self@.width, j) != at,
            decreases count - i,
        {
            if self.coordinate(i).is_at(at) {
                return Some(i);
            }
            i += 1;
        }
        proof {
            let w = self@.width;
            let h = self@.height;
            if in_grid(w, h, at) {
                lemma_join(w, at.x as int, at.y as int);
                lemma_rows(w, h, node_at(w, at.x as int, at.y as int));
                assert(cell(w, node_at(w, at.x as int, at.y as int)) == at);
            }
        }
        None
    }

    /// The neighbours of `node` in the order in which the graph lists them:
    /// left, above, below, right, leaving out those beyond the border.
    pub fn neighbors(&self, node: usize) -> (list: Vec<usize>)
        requires
            node < self@.width * self@.height,
        ensures
            list@.len() == grid_neighbors(self@.width, self@.height, node as int).len(),
            forall|k: int|
                0 <= k < list@.len() ==> #[trigger] list@[k] as int == grid_neighbors(
                    self@.width,
                    self@.height,
                    node as int,
                )[k] && list@[k] < self@.width * self@.height,
    {
        proof {
            use_type_invariant(self);
            let w = self@.width;
            let h = self@.height;
            assert(w > 0) by (nonlinear_arith)
                requires
                    0 <= node < w * h,
                    w >= 0,
            ;
            lemma_neighbors(w, h, node as int);
        }
        graph_neighbors(&self.graph, node)
    }

    /// The graph itself, for the traversals that walk it.
    pub(crate) fn graph(&self) -> (g: &Undirected2DCoordinateGraph)
        ensures
            0 <= self@.width <= i16::MAX,
            0 <= self@.height <= i16::MAX,
            graph_nodes(*g) == grid_nodes(self@.width, self@.height),
            graph_edges(*g) == grid_edges(self@.width, self@.height),
            graph_nodes(*g) == self.nodes(),
            graph_edges(*g) == self.edges(),
    {
        proof {
            use_type_invariant(self);
        }
        &self.graph
    }
}

/// Builds the grid graph of `config.width` by `config.height` cells.
///
/// A width or height that is not positive counts as zero, and the graph is
/// then empty. Rows are created top to bottom, each left to right; a new cell
/// is joined to the cell above it and then to the cell on its left.
pub fn make_graph(config: &Config) -> (g: GridGraph)
    ensures
        g@.width == extent(config.width),
        g@.height == extent(config.height),
        g.nodes() == grid_nodes(g@.width, g@.height),
        g.edges() == grid_edges(g@.width, g@.height),
        g.nodes().len() == g@.width * g@.height,
{
    let w: usize = if config.width > 0 {
        config.width as usize
    } else {
        0
    };
    let h: usize = if config.height > 0 {
        config.height as usize
    } else {
        0
    };
    assert(0 <= w * h <= 0x3fff_0001) by (nonlinear_arith)
        requires
            0 <= w <= 0x7fff,
            0 <= h <= 0x7fff,
    ;
    let count: usize = w * h;
    let node_room: usize = if count > RESERVE_LIMIT {
        RESERVE_LIMIT
    } else {
        count
    };
    let edge_room: usize = if 2 * count > RESERVE_LIMIT {
        RESERVE_LIMIT
    } else {
        2 * count
    };
    let mut graph = graph_with_capacity(node_room, edge_room);
    let mut last_node_line: Vec<Option<usize>> = Vec::new();
    let mut filled: usize = 0;
    while filled < w
        invariant
            filled <= w,
            last_node_line@.len() == filled,
            forall|j: int| 0 <= j < filled ==> last_node_line@[j] is None,
        decreases w - filled,
    {
        last_node_line.push(None);
        filled += 1;
    }
    let unit = hop_cost();
    let mut y: usize = 0;
    let mut base: usize = 0;
    assert(0 * (w as int) == 0) by (nonlinear_arith);
    while y < h
        invariant
            y <= h,
            w <= 0x7fff,
            h <= 0x7fff,
            unit == 1,
            base == y * w,
            base <= w * h,
            w * h <= 0x3fff_0001,
            graph_nodes(graph) == cells_upto(w as int, base as int),
            graph_edges(graph) == edges_upto(w as int, base as int),
            last_node_line@.len() == w,
            forall|j: int|
                0 <= j < w ==> #[trigger] last_node_line@[j] == (if y > 0 {
                    Some((base - w + j) as usize)
                } else {
                    None::<usize>
                }),
        decreases h - y,
    {
        let mut x: usize = 0;
        let mut last_node: Option<usize> = None;
        proof {
            assert((y + 1) * w == y * w + w) by (nonlinear_arith);
            assert((y + 1) * w <= h * w) by (nonlinear_arith)
                requires
                    y + 1 <= h,
                    w >= 0,
            ;
            assert(h * w == w * h) by (nonlinear_arith);
            assert(y > 0 ==> base >= w) by (nonlinear_arith)
                requires
                    base == y * w,
                    w >= 0,
            ;
        }
        while x < w
            invariant
                x <= w,
                y < h,
                w <= 0x7fff,
                h <= 0x7fff,
                unit == 1,
                base == y * w,
                base + w <= w * h,
                y > 0 ==> base >= w,
                w * h <= 0x3fff_0001,
                graph_nodes(graph) == cells_upto(w as int, base + x),
                graph_edges(graph) == edges_upto(w as int, base + x),
                last_node == (if x > 0 {
                    Some((base + x - 1) as usize)
                } else {
                    None::<usize>
                }),
                last_node_line@.len() == w,
                forall|j: int|
                    0 <= j < x ==> #[trigger] last_node_line@[j] == Some((base + j) as usize),
                forall|j: int|
                    x <= j < w ==> #[trigger] last_node_line@[j] == (if y > 0 {
                        Some((base - w + j) as usize)
                    } else {
                        None::<usize>
                    }),
            decreases w - x,
        {
            let ghost n = base + x;
            proof {
                lemma_join(w as int, x as int, y as int);
                lemma_edges_upto_len(w as int, n);
            }
            let current_node = graph_add_node(
                &mut graph,
                Coordinate2D { x: x as i16, y: y as i16 },
            );
            assert(graph_nodes(graph) =~= cells_upto(w as int, n + 1));
            let ghost before = graph_edges(graph);
            match last_node_line[x] {
                Some(above) => {
                    graph_add_edge(&mut graph, current_node, above, unit);
                },
                None => {},
            }
            let ghost between = graph_edges(graph);
            match last_node {
                Some(left) => {
                    graph_add_edge(&mut graph, current_node, left, unit);
                },
                None => {},
            }
            proof {
                let up = if n >= w {
                    seq![(n, n - w, 1int)]
                } else {
                    Seq::<(int, int, int)>::empty()
                };
                let left = if n % (w as int) != 0 {
                    seq![(n, n - 1, 1int)]
                } else {
                    Seq::<(int, int, int)>::empty()
                };
                assert(between =~= before + up);
                assert(graph_edges(graph) =~= between + left);
                assert(graph_edges(graph) =~= before + (up + left));
                assert(cell_edges(w as int, n) == up + left);
                assert(edges_upto(w as int, n + 1) == edges_upto(w as int, n) + cell_edges(
                    w as int,
                    n,
                ));
            }
            last_node = Some(current_node);
            last_node_line.set(x, Some(current_node));
            x += 1;
        }
        base += w;
        y += 1;
        proof {
            assert(y * w == (y - 1) * w + w) by (nonlinear_arith);
        }
    }
    proof {
        assert(h * w == w * h) by (nonlinear_arith);
        assert(w * h >= 0) by (nonlinear_arith)
            requires
                w >= 0,
                h >= 0,
        ;
    }
    GridGraph { graph, width: w, height: h }
}

} // verus!

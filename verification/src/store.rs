//! The graph store: petgraph's `Graph`, its breadth-first traversal and its
//! A* search, as the rest of the crate sees them.
//!
//! The contracts of the functions in this file are not proved. Each states
//! what petgraph's source and documentation say of the call that the function
//! makes, over two sequences that stand for what a graph holds: the payloads
//! of its nodes by index, and its edges in the order in which they were
//! added.
use crate::coordinate::{euclid, Coordinate2D};
use crate::grid::hop_cost;
use fixedbitset::FixedBitSet;
use petgraph::graph::{Graph, NodeIndex};
use petgraph::visit::Bfs;
use petgraph::Undirected;
use vstd::prelude::*;

verus! {

/// petgraph's adjacency-list graph.
#[verifier::external_type_specification]
#[verifier::external_body]
#[verifier::reject_recursive_types(N)]
#[verifier::reject_recursive_types(E)]
#[verifier::reject_recursive_types(Ty)]
#[verifier::reject_recursive_types(Ix)]
pub struct ExGraph<N, E, Ty, Ix>(petgraph::graph::Graph<N, E, Ty, Ix>);

/// petgraph's marker for graphs whose edges have no direction.
#[verifier::external_type_specification]
#[verifier::external_body]
pub struct ExUndirected(petgraph::Undirected);

/// petgraph's node handle.
#[verifier::external_type_specification]
#[verifier::external_body]
#[verifier::reject_recursive_types(Ix)]
pub struct ExNodeIndex<Ix>(petgraph::graph::NodeIndex<Ix>);

/// petgraph's breadth-first traversal state.
#[verifier::external_type_specification]
#[verifier::external_body]
#[verifier::reject_recursive_types(N)]
#[verifier::reject_recursive_types(VM)]
pub struct ExBfs<N, VM>(petgraph::visit::Bfs<N, VM>);

/// The bit set in which a traversal marks the nodes it has reached.
#[verifier::external_type_specification]
#[verifier::external_body]
pub struct ExFixedBitSet(fixedbitset::FixedBitSet);

/// An undirected graph whose nodes carry a coordinate and whose edges carry
/// an integer weight.
pub type Undirected2DCoordinateGraph = Graph<Coordinate2D, i32, Undirected, u32>;

/// A breadth-first traversal of an [`Undirected2DCoordinateGraph`].
pub type Traversal = Bfs<NodeIndex<u32>, FixedBitSet>;

/// The largest number of nodes, and of edges, for which room is reserved
/// ahead; a graph grows beyond it on demand.
pub const RESERVE_LIMIT: usize = 0x100_0000;

/// The largest number of nodes that a search accepts, so that a path's cost
/// and an estimate together fit in an `i32`.
pub const SEARCH_LIMIT: usize = 0x4000_0000;

/// The payloads of the graph's nodes, by node index.
pub uninterp spec fn graph_nodes(g: Undirected2DCoordinateGraph) -> Seq<Coordinate2D>;

/// The graph's edges in the order in which they were added, each as
/// `(source, target, weight)`.
pub uninterp spec fn graph_edges(g: Undirected2DCoordinateGraph) -> Seq<(int, int, int)>;

/// The nodes that the traversal has reached and not yet handed out, next one
/// first.
pub uninterp spec fn bfs_queue(t: Traversal) -> Seq<int>;

/// The nodes that the traversal has reached so far.
pub uninterp spec fn bfs_reached(t: Traversal) -> Set<int>;

/// The number of nodes that the traversal was made for: only smaller node
/// indices can be marked as reached.
pub uninterp spec fn bfs_limit(t: Traversal) -> nat;

/// The targets of the edges that leave `a`, latest edge first.
pub open spec fn targets_of(edges: Seq<(int, int, int)>, a: int) -> Seq<int>
    decreases edges.len(),
{
    if edges.len() == 0 {
        Seq::empty()
    } else if edges.last().0 == a {
        seq![edges.last().1] + targets_of(edges.drop_last(), a)
    } else {
        targets_of(edges.drop_last(), a)
    }
}

/// The sources of the edges that arrive at `a` from another node, latest
/// edge first.
pub open spec fn sources_of(edges: Seq<(int, int, int)>, a: int) -> Seq<int>
    decreases edges.len(),
{
    if edges.len() == 0 {
        Seq::empty()
    } else if edges.last().1 == a && edges.last().0 != a {
        seq![edges.last().0] + sources_of(edges.drop_last(), a)
    } else {
        sources_of(edges.drop_last(), a)
    }
}

/// The neighbours of `a` in the order in which an undirected graph lists
/// them: first the far ends of the edges added as `(a, _)`, then those of the
/// edges added as `(_, a)`, within each group the latest edge first.
pub open spec fn neighbor_list(edges: Seq<(int, int, int)>, a: int) -> Seq<int> {
    targets_of(edges, a) + sources_of(edges, a)
}

/// Some edge joins `a` and `b`, in either direction.
pub open spec fn joined(edges: Seq<(int, int, int)>, a: int, b: int) -> bool {
    exists|k: int|
        0 <= k < edges.len() && ((#[trigger] edges[k]).0 == a && edges[k].1 == b || edges[k].0 == b
            && edges[k].1 == a)
}

/// `p` is a walk: a non-empty sequence of nodes in which each one is joined
/// to the next by an edge.
pub open spec fn is_walk(edges: Seq<(int, int, int)>, p: Seq<int>) -> bool {
    &&& p.len() >= 1
    &&& forall|i: int| 0 <= i < p.len() - 1 ==> joined(edges, #[trigger] p[i], p[i + 1])
}

/// `p` is a walk between nodes of the graph that ends at a node lying at
/// `goal`.
pub open spec fn walk_to(
    nodes: Seq<Coordinate2D>,
    edges: Seq<(int, int, int)>,
    p: Seq<int>,
    goal: Coordinate2D,
) -> bool {
    &&& is_walk(edges, p)
    &&& forall|i: int| 0 <= i < p.len() ==> 0 <= #[trigger] p[i] < nodes.len()
    &&& nodes[p.last()] == goal
}

/// A list of node indices as the sequence of numbers it holds.
pub open spec fn as_nodes(list: Seq<usize>) -> Seq<int> {
    list.map_values(|n: usize| n as int)
}

/// The members of `list` that are not in `reached`, each once, in the order
/// of their first occurrence.
pub open spec fn fresh(list: Seq<int>, reached: Set<int>) -> Seq<int>
    decreases list.len(),
{
    if list.len() == 0 {
        Seq::empty()
    } else if reached.contains(list[0]) {
        fresh(list.skip(1), reached)
    } else {
        seq![list[0]] + fresh(list.skip(1), reached.insert(list[0]))
    }
}

/// `Graph::with_capacity`: an empty graph with room reserved for `nodes`
/// nodes and `edges` edges. The bound keeps the reservation below the size
/// at which an allocation is refused outright.
#[verifier::external_body]
pub(crate) fn graph_with_capacity(nodes: usize, edges: usize) -> (g: Undirected2DCoordinateGraph)
    requires
        nodes <= RESERVE_LIMIT,
        edges <= RESERVE_LIMIT,
    ensures
        graph_nodes(g) == Seq::<Coordinate2D>::empty(),
        graph_edges(g) == Seq::<(int, int, int)>::empty(),
{
    Graph::with_capacity(nodes, edges)
}

/// `Graph::node_count`: the number of nodes.
#[verifier::external_body]
pub(crate) fn graph_node_count(g: &Undirected2DCoordinateGraph) -> (n: usize)
    ensures
        n == graph_nodes(*g).len(),
{
    g.node_count()
}

/// `Graph::add_node`: appends a node with the given payload and returns its
/// index, the number of nodes before the call. The graph must be below the
/// largest node count that a 32-bit index allows. The edges stay as they
/// are.
#[verifier::external_body]
pub(crate) fn graph_add_node(g: &mut Undirected2DCoordinateGraph, at: Coordinate2D) -> (index:
    usize)
    requires
        graph_nodes(*old(g)).len() < u32::MAX,
    ensures
        index == graph_nodes(*old(g)).len(),
        graph_nodes(*final(g)) == graph_nodes(*old(g)).push(at),
        graph_edges(*final(g)) == graph_edges(*old(g)),
{
    g.add_node(at).index()
}

/// `Graph::add_edge`: appends an edge from `a` to `b`, both of them nodes of
/// the graph, which must be below the largest edge count that a 32-bit index
/// allows. The nodes stay as they are.
#[verifier::external_body]
pub(crate) fn graph_add_edge(g: &mut Undirected2DCoordinateGraph, a: usize, b: usize, weight: i32)
    requires
        a < graph_nodes(*old(g)).len(),
        b < graph_nodes(*old(g)).len(),
        graph_edges(*old(g)).len() < u32::MAX,
    ensures
        graph_nodes(*final(g)) == graph_nodes(*old(g)),
        graph_edges(*final(g)) == graph_edges(*old(g)).push((a as int, b as int, weight as int)),
{
    g.add_edge(NodeIndex::new(a), NodeIndex::new(b), weight);
}

/// Indexing a `Graph` by a node: the payload of node `a`, which must exist.
#[verifier::external_body]
pub(crate) fn graph_node_weight(g: &Undirected2DCoordinateGraph, a: usize) -> (at: Coordinate2D)
    requires
        a < graph_nodes(*g).len(),
    ensures
        at == graph_nodes(*g)[a as int],
{
    g[NodeIndex::new(a)]
}

/// `Graph::neighbors`: the neighbours of node `a`, which must exist, in the
/// order that [`neighbor_list`] describes.
#[verifier::external_body]
pub(crate) fn graph_neighbors(g: &Undirected2DCoordinateGraph, a: usize) -> (list: Vec<usize>)
    requires
        a < graph_nodes(*g).len(),
    ensures
        list@.len() == neighbor_list(graph_edges(*g), a as int).len(),
        forall|i: int|
            0 <= i < list@.len() ==> #[trigger] list@[i] as int == neighbor_list(
                graph_edges(*g),
                a as int,
            )[i],
{
    g.neighbors(NodeIndex::new(a)).map(|n| n.index()).collect()
}

/// `Bfs::new`: a traversal of `g` that has reached `root`, a node of `g`, and
/// nothing else.
#[verifier::external_body]
pub(crate) fn bfs_new(g: &Undirected2DCoordinateGraph, root: usize) -> (t: Traversal)
    requires
        root < graph_nodes(*g).len(),
    ensures
        bfs_queue(t) == seq![root as int],
        bfs_reached(t) == set![root as int],
        bfs_limit(t) == graph_nodes(*g).len(),
{
    Bfs::new(g, NodeIndex::new(root))
}

/// `Bfs::next`: with nothing left in the queue it returns `None` and changes
/// nothing. Otherwise it takes the first node off the queue, marks each of
/// its neighbours as reached, appends those that were not reached before,
/// and returns the node. Every neighbour must be below the traversal's
/// limit.
#[verifier::external_body]
pub(crate) fn bfs_next(t: &mut Traversal, g: &Undirected2DCoordinateGraph) -> (node: Option<usize>)
    requires
        bfs_queue(*old(t)).len() > 0 ==> {
            let around = neighbor_list(graph_edges(*g), bfs_queue(*old(t))[0]);
            &&& 0 <= bfs_queue(*old(t))[0] < graph_nodes(*g).len()
            &&& forall|i: int|
                0 <= i < around.len() ==> 0 <= #[trigger] around[i] < bfs_limit(*old(t))
        },
    ensures
        bfs_limit(*final(t)) == bfs_limit(*old(t)),
        bfs_queue(*old(t)).len() == 0 ==> {
            &&& node is None
            &&& bfs_queue(*final(t)) == bfs_queue(*old(t))
            &&& bfs_reached(*final(t)) == bfs_reached(*old(t))
        },
        bfs_queue(*old(t)).len() > 0 ==> {
            let first = bfs_queue(*old(t))[0];
            let around = neighbor_list(graph_edges(*g), first);
            &&& node == Some(first as usize)
            &&& bfs_queue(*final(t)) == bfs_queue(*old(t)).skip(1) + fresh(
                around,
                bfs_reached(*old(t)),
            )
            &&& bfs_reached(*final(t)) == bfs_reached(*old(t)).union(around.to_set())
        },
{
    t.next(g).map(|n| n.index())
}

/// `petgraph::algo::astar` from node `start` to the nodes that lie at `goal`,
/// each hop costing [`hop_cost`], with [`Coordinate2D::distance`] to `goal`
/// as the estimate.
///
/// petgraph documents that it returns the shortest path with its cost if one
/// exists, provided the estimate never exceeds the true remaining cost, and
/// `None` otherwise. That condition on the estimate is required here, over
/// every walk that ends at `goal`.
#[verifier::external_body]
pub(crate) fn astar_search(
    g: &Undirected2DCoordinateGraph,
    start: usize,
    goal: Coordinate2D,
) -> (found: Option<(i32, Vec<usize>)>)
    requires
        start < graph_nodes(*g).len(),
        graph_nodes(*g).len() <= SEARCH_LIMIT,
        forall|p: Seq<int>| #[trigger]
            walk_to(graph_nodes(*g), graph_edges(*g), p, goal) ==> euclid(
                goal,
                graph_nodes(*g)[p[0]],
            ) <= p.len() - 1,
    ensures
        match found {
            Some((cost, path)) => {
                let p = as_nodes(path@);
                &&& walk_to(graph_nodes(*g), graph_edges(*g), p, goal)
                &&& p[0] == start
                &&& cost == p.len() - 1
                &&& forall|q: Seq<int>|
                    #[trigger] walk_to(graph_nodes(*g), graph_edges(*g), q, goal) && q[0] == start
                        ==> cost <= q.len() - 1
            },
            None => forall|q: Seq<int>| #[trigger]
                walk_to(graph_nodes(*g), graph_edges(*g), q, goal) ==> q[0] != start,
        },
{
    petgraph::algo::astar(
        g,
        NodeIndex::new(start),
        |n| goal.is_at(g[n]),
        |_| hop_cost(),
        |n| goal.distance(g[n]),
    ).map(|(cost, path)| (cost, path.into_iter().map(|n| n.index()).collect()))
}

} // verus!

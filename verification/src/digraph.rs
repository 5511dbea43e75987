//! Directed graphs of `petgraph` whose nodes carry strings.
//!
//! This module states what the operations of `petgraph` that the crate uses
//! do to the nodes and edges of a graph. Nothing here is proved: each
//! contract says what the source of `petgraph` shows.

use petgraph::graph::{Graph, NodeIndex};
use petgraph::visit::EdgeRef;
use petgraph::Directed;
use vstd::prelude::*;

verus! {

/// `petgraph::Directed`, the marker of graphs with directed edges.
#[verifier::external_type_specification]
#[verifier::external_body]
pub struct ExDirected(Directed);

/// `petgraph::graph::Graph`, taken as it is: nothing of its inside is
/// known here.
#[verifier::external_type_specification]
#[verifier::external_body]
#[verifier::reject_recursive_types(N)]
#[verifier::reject_recursive_types(E)]
#[verifier::reject_recursive_types(Ty)]
#[verifier::reject_recursive_types(Ix)]
pub struct ExGraph<N, E, Ty, Ix>(Graph<N, E, Ty, Ix>);

/// The node weights of a graph, by node index.
pub uninterp spec fn graph_nodes(g: Graph<String, (), Directed, u32>) -> Seq<Seq<char>>;

/// The edges of a graph as pairs of node indices, source first, in the
/// order in which they were added.
pub uninterp spec fn graph_edges(g: Graph<String, (), Directed, u32>) -> Seq<(int, int)>;

/// The most nodes, and the most edges, that a graph takes.
pub const GRAPH_LIMIT: usize = 4294967295;

/// The targets of the edges that leave `node`, the edge added last first.
pub open spec fn successors(edges: Seq<(int, int)>, node: int) -> Seq<int>
    decreases edges.len(),
{
    if edges.len() == 0 {
        Seq::empty()
    } else if edges.last().0 == node {
        seq![edges.last().1] + successors(edges.drop_last(), node)
    } else {
        successors(edges.drop_last(), node)
    }
}

/// The step of the walk from position `i` to the next follows an edge.
pub open spec fn follows_edge(edges: Seq<(int, int)>, walk: Seq<int>, i: int) -> bool {
    edges.contains((walk[i], walk[i + 1]))
}

/// Every step of the walk follows an edge.
pub open spec fn is_walk(edges: Seq<(int, int)>, walk: Seq<int>) -> bool {
    forall|i: int| 0 <= i < walk.len() - 1 ==> #[trigger] follows_edge(edges, walk, i)
}

/// The walk follows at least one edge and ends where it starts.
pub open spec fn is_cycle(edges: Seq<(int, int)>, walk: Seq<int>) -> bool {
    walk.len() >= 2 && walk[0] == walk.last() && is_walk(edges, walk)
}

/// No node but the first, which is also the last, occurs twice.
pub open spec fn is_simple(walk: Seq<int>) -> bool {
    walk.drop_last().no_duplicates()
}

/// Some cycle starts and ends at `node`.
pub open spec fn on_cycle(edges: Seq<(int, int)>, node: int) -> bool {
    exists|walk: Seq<int>| is_cycle(edges, walk) && #[trigger] walk[0] == node
}

/// `order` lists each of the nodes `0..n` once, every node before the
/// targets of its edges.
pub open spec fn is_topological(order: Seq<int>, n: nat, edges: Seq<(int, int)>) -> bool {
    &&& order.len() == n
    &&& order.no_duplicates()
    &&& forall|i: int| 0 <= i < n ==> 0 <= #[trigger] order[i] < n
    &&& forall|i: int, j: int|
        0 <= i < n && 0 <= j < n && edges.contains((#[trigger] order[i], #[trigger] order[j])) ==> i
            < j
}

/// Every edge joins two of the `n` nodes.
pub open spec fn edges_in_range(edges: Seq<(int, int)>, n: nat) -> bool {
    forall|k: int|
        0 <= k < edges.len() ==> 0 <= (#[trigger] edges[k]).0 < n && 0 <= edges[k].1 < n
}

/// The indices of a list, as integers.
pub open spec fn indices(v: Seq<usize>) -> Seq<int> {
    v.map_values(|x: usize| x as int)
}

/// `Graph::new`: a graph without nodes and edges.
#[verifier::external_body]
pub(crate) fn graph_new() -> (g: Graph<String, (), Directed, u32>)
    ensures
        graph_nodes(g) == Seq::<Seq<char>>::empty(),
        graph_edges(g) == Seq::<(int, int)>::empty(),
{
    Graph::new()
}

/// `Graph::node_count`: the number of nodes.
#[verifier::external_body]
pub(crate) fn graph_node_count(g: &Graph<String, (), Directed, u32>) -> (n: usize)
    ensures
        n == graph_nodes(*g).len(),
{
    g.node_count()
}

/// `Graph::edge_count`: the number of edges.
#[verifier::external_body]
pub(crate) fn graph_edge_count(g: &Graph<String, (), Directed, u32>) -> (n: usize)
    ensures
        n == graph_edges(*g).len(),
{
    g.edge_count()
}

/// `Graph::add_node`: the new node gets the next index and leaves the rest
/// as it was. It panics on a graph that is full, which `requires` excludes.
#[verifier::external_body]
pub(crate) fn graph_add_node(g: &mut Graph<String, (), Directed, u32>, name: String) -> (index: usize)
    requires
        graph_nodes(*old(g)).len() < GRAPH_LIMIT,
    ensures
        index == graph_nodes(*old(g)).len(),
        graph_nodes(*final(g)) == graph_nodes(*old(g)).push(name@),
        graph_edges(*final(g)) == graph_edges(*old(g)),
{
    g.add_node(name).index()
}

/// `Graph::add_edge`: one more edge from `a` to `b`, after those that were
/// there. It panics on a full graph and on a node that does not exist,
/// which `requires` excludes.
#[verifier::external_body]
pub(crate) fn graph_add_edge(g: &mut Graph<String, (), Directed, u32>, a: usize, b: usize)
    requires
        a < graph_nodes(*old(g)).len(),
        b < graph_nodes(*old(g)).len(),
        graph_edges(*old(g)).len() < GRAPH_LIMIT,
    ensures
        graph_nodes(*final(g)) == graph_nodes(*old(g)),
        graph_edges(*final(g)) == graph_edges(*old(g)).push((a as int, b as int)),
{
    g.add_edge(NodeIndex::new(a), NodeIndex::new(b), ());
}

/// Indexing a graph by a node index: the weight of that node. It panics on
/// a node that does not exist, which `requires` excludes.
#[verifier::external_body]
pub(crate) fn graph_node_name(g: &Graph<String, (), Directed, u32>, index: usize) -> (name: &String)
    requires
        index < graph_nodes(*g).len(),
    ensures
        name@ == graph_nodes(*g)[index as int],
{
    &g[NodeIndex::new(index)]
}

/// `Graph::edges`: the edges that leave a node, handed out from the one
/// added last to the one added first; each gives its target.
#[verifier::external_body]
pub(crate) fn graph_successors(g: &Graph<String, (), Directed, u32>, index: usize) -> (targets: Vec<usize>)
    requires
        index < graph_nodes(*g).len(),
    ensures
        indices(targets@) == successors(graph_edges(*g), index as int),
{
    g.edges(NodeIndex::new(index)).map(|edge| edge.target().index()).collect()
}

/// `petgraph::algo::toposort`: for a graph without cycles, all nodes in an
/// order in which each comes before the targets of its edges; otherwise a
/// node that lies on a cycle.
#[verifier::external_body]
pub(crate) fn graph_toposort(g: &Graph<String, (), Directed, u32>) -> (r: Result<Vec<usize>, usize>)
    ensures
        match r {
            Ok(order) => is_topological(indices(order@), graph_nodes(*g).len(), graph_edges(*g)),
            Err(node) => node < graph_nodes(*g).len() && on_cycle(graph_edges(*g), node as int),
        },
{
    match petgraph::algo::toposort(g, None) {
        Ok(order) => Ok(order.into_iter().map(|node| node.index()).collect()),
        Err(cycle) => Err(cycle.node_id().index()),
    }
}

} // verus!

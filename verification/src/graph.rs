//! The subclass graph is kept in a `petgraph` directed graph. This module
//! declares that type to the verifier, names what a graph holds, and states
//! what each graph operation the library relies on does to it. None of these
//! statements is proved: each one restates what `petgraph` documents.

use vstd::prelude::*;

verus! {

/// `petgraph::graph::Graph`, declared so that it can stand in fields and
/// signatures. Nothing inside a graph is visible to the verifier.
#[verifier::external_type_specification]
#[verifier::external_body]
#[verifier::reject_recursive_types(N)]
#[verifier::reject_recursive_types(E)]
#[verifier::reject_recursive_types(Ty)]
#[verifier::reject_recursive_types(Ix)]
pub struct ExGraph<N, E, Ty, Ix>(petgraph::graph::Graph<N, E, Ty, Ix>);

/// `petgraph::Directed`, the marker of graphs whose edges have a direction.
#[verifier::external_type_specification]
#[verifier::external_body]
pub struct ExDirected(petgraph::Directed);

/// The graph of MIME types: a node carries a type's name, an edge leads from a
/// type to one of its subclasses.
pub type TypeStruct = petgraph::graph::Graph<String, u32, petgraph::Directed, u32>;

/// The names the nodes of a graph carry, by node index.
pub uninterp spec fn graph_names(g: petgraph::graph::Graph<String, u32, petgraph::Directed, u32>) -> Seq<Seq<char>>;

/// The edges of a graph as (source, target) pairs of node indices, in the
/// order in which they were added.
pub uninterp spec fn graph_edges(g: petgraph::graph::Graph<String, u32, petgraph::Directed, u32>) -> Seq<(u32, u32)>;

/// Some edge leads to `node`.
pub open spec fn has_parent(edges: Seq<(u32, u32)>, node: u32) -> bool {
    exists|k: int| 0 <= k < edges.len() && (#[trigger] edges[k]).1 == node
}

/// `roots` lists, in ascending order, exactly the nodes among the first `n`
/// that no edge leads to.
pub open spec fn is_source_list(roots: Seq<u32>, n: nat, edges: Seq<(u32, u32)>) -> bool {
    &&& forall|i: int, j: int| 0 <= i < j < roots.len() ==> roots[i] < roots[j]
    &&& forall|i: int| 0 <= i < roots.len() ==> (#[trigger] roots[i]) < n && !has_parent(edges, roots[i])
    &&& forall|v: u32| v < n && !has_parent(edges, v) ==> #[trigger] roots.contains(v)
}

/// The targets of the edges that leave `node`, the most recently added edge
/// first.
pub open spec fn successors(edges: Seq<(u32, u32)>, node: u32) -> Seq<u32>
    decreases edges.len(),
{
    if edges.len() == 0 {
        Seq::empty()
    } else if edges.last().0 == node {
        seq![edges.last().1] + successors(edges.drop_last(), node)
    } else {
        successors(edges.drop_last(), node)
    }
}

/// An edge leads from node `i` of `path` to the next node, which for the
/// last node is the first.
pub open spec fn closes(edges: Seq<(u32, u32)>, path: Seq<u32>, i: int) -> bool {
    edges.contains((path[i], path[(i + 1) % (path.len() as int)]))
}

/// `path` is a closed walk: each node has an edge to the next, and the last
/// one an edge to the first.
pub open spec fn is_cycle(edges: Seq<(u32, u32)>, path: Seq<u32>) -> bool {
    &&& path.len() > 0
    &&& forall|i: int| 0 <= i < path.len() ==> #[trigger] closes(edges, path, i)
}

/// The edges admit a closed walk.
pub open spec fn has_cycle(edges: Seq<(u32, u32)>) -> bool {
    exists|path: Seq<u32>| #[trigger] is_cycle(edges, path)
}

/// Every edge joins two of the first `n` nodes.
pub open spec fn edges_within(edges: Seq<(u32, u32)>, n: nat) -> bool {
    forall|k: int| 0 <= k < edges.len() ==> (#[trigger] edges[k]).0 < n && edges[k].1 < n
}

/// `Graph::new`: a graph without nodes and without edges.
#[verifier::external_body]
pub(crate) fn graph_new() -> (g: TypeStruct)
    ensures
        graph_names(g) == Seq::<Seq<char>>::empty(),
        graph_edges(g) == Seq::<(u32, u32)>::empty(),
{
    petgraph::graph::Graph::new()
}

/// `Graph::node_count`: the number of nodes.
#[verifier::external_body]
pub(crate) fn graph_node_count(g: &TypeStruct) -> (n: usize)
    ensures
        n == graph_names(*g).len(),
{
    g.node_count()
}

/// `Graph::add_node`: appends one node carrying `name` and returns its index,
/// the former node count; the edges stay as they are. The call panics when
/// the graph is full, which the precondition excludes.
#[verifier::external_body]
pub(crate) fn graph_add_node(g: &mut TypeStruct, name: String) -> (idx: u32)
    requires
        graph_names(*old(g)).len() < u32::MAX,
    ensures
        graph_names(*final(g)) == graph_names(*old(g)).push(name@),
        graph_edges(*final(g)) == graph_edges(*old(g)),
        idx == graph_names(*old(g)).len(),
{
    g.add_node(name).index() as u32
}

/// `Graph::extend_with_edges`: adds the given edges in order. The call adds
/// nodes for indices beyond the node count and panics when the graph is full
/// of edges; the preconditions exclude both, so the nodes stay as they are.
#[verifier::external_body]
pub(crate) fn graph_extend_with_edges(g: &mut TypeStruct, edges: &Vec<(u32, u32)>)
    requires
        edges_within(edges@, graph_names(*old(g)).len()),
        graph_edges(*old(g)).len() + edges@.len() <= u32::MAX,
    ensures
        graph_names(*final(g)) == graph_names(*old(g)),
        graph_edges(*final(g)) == graph_edges(*old(g)) + edges@,
{
    g.extend_with_edges(edges)
}

/// `Graph::externals(Incoming)`: the nodes that no edge leads to, in
/// ascending order of index.
#[verifier::external_body]
pub(crate) fn graph_externals_incoming(g: &TypeStruct) -> (roots: Vec<u32>)
    ensures
        is_source_list(roots@, graph_names(*g).len(), graph_edges(*g)),
{
    g.externals(petgraph::Direction::Incoming).map(|n| n.index() as u32).collect()
}

/// `Graph::neighbors_directed(node, Outgoing)`: the targets of the edges that
/// leave `node`, the most recently added edge first.
#[verifier::external_body]
pub(crate) fn graph_children(g: &TypeStruct, node: u32) -> (kids: Vec<u32>)
    requires
        node < graph_names(*g).len(),
    ensures
        kids@ == successors(graph_edges(*g), node),
{
    g.neighbors_directed(petgraph::graph::NodeIndex::new(node as usize), petgraph::Direction::Outgoing)
        .map(|n| n.index() as u32)
        .collect()
}

/// Indexing a graph by a node: the name that the node carries. Indexing
/// panics for a node that does not exist, which the precondition excludes.
#[verifier::external_body]
pub(crate) fn graph_name(g: &TypeStruct, node: u32) -> (name: &String)
    requires
        node < graph_names(*g).len(),
    ensures
        name@ == graph_names(*g)[node as int],
{
    &g[petgraph::graph::NodeIndex::new(node as usize)]
}

/// `petgraph::algo::toposort`: fails exactly when the graph has a cycle, a
/// self loop included.
#[verifier::external_body]
pub(crate) fn graph_is_cyclic(g: &TypeStruct) -> (cyclic: bool)
    ensures
        cyclic == has_cycle(graph_edges(*g)),
{
    petgraph::algo::toposort(g, None).is_err()
}

} // verus!

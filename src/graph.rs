//! The incidence graph: a `petgraph::Graph` of string-labelled nodes and
//! unweighted edges, seen through its node labels and its edge endpoints.

use petgraph::graph::NodeIndex;
use petgraph::Direction;
use petgraph::Graph;
use vstd::prelude::*;

verus! {

#[verifier::external_type_specification]
#[verifier::external_body]
#[verifier::reject_recursive_types(N)]
#[verifier::reject_recursive_types(E)]
#[verifier::reject_recursive_types(Ty)]
#[verifier::reject_recursive_types(Ix)]
pub struct ExGraph<N, E, Ty, Ix>(Graph<N, E, Ty, Ix>);

#[verifier::external_type_specification]
#[verifier::external_body]
pub struct ExDirected(petgraph::Directed);

/// The labels of the graph's nodes, by node index.
pub uninterp spec fn graph_nodes(g: Graph<String, ()>) -> Seq<Seq<char>>;

/// The graph's edges in the order they were added, each as (source, target)
/// node indices.
pub uninterp spec fn graph_edges(g: Graph<String, ()>) -> Seq<(nat, nat)>;

/// The largest number of nodes, and of edges, that a graph indexed by `u32`
/// can hold.
pub const INDEX_LIMIT: usize = 0xffff_ffff;

/// Relies on `Graph::new`: a directed graph with no nodes and no edges.
#[verifier::external_body]
pub(crate) fn graph_new() -> (g: Graph<String, ()>)
    ensures
        graph_nodes(g) == Seq::<Seq<char>>::empty(),
        graph_edges(g) == Seq::<(nat, nat)>::empty(),
{
    Graph::new()
}

/// Relies on `Graph::add_node`: pushes a node with the given label and returns
/// its index, the previous node count; it panics once `u32` indices run out.
#[verifier::external_body]
pub(crate) fn graph_add_node(g: &mut Graph<String, ()>, label: String) -> (r: usize)
    requires
        graph_nodes(*old(g)).len() < INDEX_LIMIT,
    ensures
        r == graph_nodes(*old(g)).len(),
        graph_nodes(*final(g)) == graph_nodes(*old(g)).push(label@),
        graph_edges(*final(g)) == graph_edges(*old(g)),
{
    g.add_node(label).index()
}

/// Relies on `Graph::add_edge`: appends the edge `(a, b)`; it panics on an
/// unknown node index or once `u32` edge indices run out.
#[verifier::external_body]
pub(crate) fn graph_add_edge(g: &mut Graph<String, ()>, a: usize, b: usize)
    requires
        a < graph_nodes(*old(g)).len(),
        b < graph_nodes(*old(g)).len(),
        graph_edges(*old(g)).len() < INDEX_LIMIT,
    ensures
        graph_nodes(*final(g)) == graph_nodes(*old(g)),
        graph_edges(*final(g)) == graph_edges(*old(g)).push((a as nat, b as nat)),
{
    g.add_edge(NodeIndex::new(a), NodeIndex::new(b), ());
}

/// Relies on `Graph::contains_edge`: on a directed graph, whether an edge
/// from `a` to `b` exists.
#[verifier::external_body]
pub(crate) fn graph_contains_edge(g: &Graph<String, ()>, a: usize, b: usize) -> (r: bool)
    requires
        a < graph_nodes(*g).len(),
        b < graph_nodes(*g).len(),
    ensures
        r == graph_edges(*g).contains((a as nat, b as nat)),
{
    g.contains_edge(NodeIndex::new(a), NodeIndex::new(b))
}

/// The source of each edge in `edges` that ends at node `a`, the most
/// recently added edge first.
pub open spec fn sources_into(edges: Seq<(nat, nat)>, a: nat) -> Seq<nat>
    decreases edges.len(),
{
    if edges.len() == 0 {
        Seq::empty()
    } else {
        let rest = sources_into(edges.drop_last(), a);
        if edges.last().1 == a { seq![edges.last().0] + rest } else { rest }
    }
}

/// The target of each edge in `edges` that starts at node `a`, the most
/// recently added edge first.
pub open spec fn targets_from(edges: Seq<(nat, nat)>, a: nat) -> Seq<nat>
    decreases edges.len(),
{
    if edges.len() == 0 {
        Seq::empty()
    } else {
        let rest = targets_from(edges.drop_last(), a);
        if edges.last().0 == a { seq![edges.last().1] + rest } else { rest }
    }
}

/// Relies on `Graph::neighbors_directed`: on a directed graph it yields, with
/// `Incoming`, the source of each edge that ends at `a` and, with `Outgoing`,
/// the target of each edge that starts at `a`, the most recently added edge
/// first.
#[verifier::external_body]
pub(crate) fn graph_neighbors(g: &Graph<String, ()>, a: usize, incoming: bool) -> (r: Vec<usize>)
    requires
        a < graph_nodes(*g).len(),
    ensures
        r@.map_values(|i: usize| i as nat) == if incoming {
            sources_into(graph_edges(*g), a as nat)
        } else {
            targets_from(graph_edges(*g), a as nat)
        },
{
    let dir = if incoming { Direction::Incoming } else { Direction::Outgoing };
    g.neighbors_directed(NodeIndex::new(a), dir).map(|n| n.index()).collect()
}

/// Relies on indexing a `Graph` by `NodeIndex`: the label of node `a`, which
/// must exist.
#[verifier::external_body]
pub(crate) fn graph_node_label(g: &Graph<String, ()>, a: usize) -> (r: String)
    requires
        a < graph_nodes(*g).len(),
    ensures
        r@ == graph_nodes(*g)[a as int],
{
    g[NodeIndex::new(a)].clone()
}

/// Relies on `Graph::node_count`: the number of nodes.
#[verifier::external_body]
pub(crate) fn graph_node_count(g: &Graph<String, ()>) -> (r: usize)
    ensures
        r == graph_nodes(*g).len(),
{
    g.node_count()
}

/// Relies on `Graph::edge_count`: the number of edges.
#[verifier::external_body]
pub(crate) fn graph_edge_count(g: &Graph<String, ()>) -> (r: usize)
    ensures
        r == graph_edges(*g).len(),
{
    g.edge_count()
}

} // verus!

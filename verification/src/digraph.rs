//! Directed graphs of the `petgraph` crate whose nodes and edges carry numbers.

use vstd::prelude::*;

verus! {

/// A graph of the `petgraph` crate.
#[verifier::external_type_specification]
#[verifier::external_body]
#[verifier::reject_recursive_types(N)]
#[verifier::reject_recursive_types(E)]
#[verifier::reject_recursive_types(Ty)]
#[verifier::reject_recursive_types(Ix)]
pub struct ExGraph<N, E, Ty, Ix>(petgraph::Graph<N, E, Ty, Ix>);

/// The mark of a directed graph of the `petgraph` crate.
#[verifier::external_type_specification]
#[verifier::external_body]
pub struct ExDirected(petgraph::Directed);

/// A directed graph; the numbers on its nodes and edges say which record of the
/// caller each stands for.
pub type NumberedGraph = petgraph::Graph<usize, usize, petgraph::Directed, u32>;

/// For each node, the edges that leave it in the order in which the graph hands
/// them out: the number on each, and the node it leads to.
pub uninterp spec fn leaving(g: NumberedGraph) -> Seq<Seq<(usize, usize)>>;

/// For each node, the edges that enter it in the order in which the graph hands
/// them out: the number on each, and the node it comes from.
pub uninterp spec fn entering(g: NumberedGraph) -> Seq<Seq<(usize, usize)>>;

/// How many edges the graph has.
pub uninterp spec fn edge_total(g: NumberedGraph) -> nat;

/// How many nodes or edges a graph with 32-bit indices can have.
pub const GRAPH_LIMIT: usize = 0xffff_ffff;

/// Calls `Graph::new`: a graph without nodes and edges.
#[verifier::external_body]
pub(crate) fn new_graph() -> (r: NumberedGraph)
    ensures
        leaving(r) == Seq::<Seq<(usize, usize)>>::empty(),
        entering(r) == Seq::<Seq<(usize, usize)>>::empty(),
        edge_total(r) == 0,
{
    petgraph::Graph::new()
}

/// Calls `Graph::add_node`. The node comes last and has no edges. The call
/// panics where the graph is full.
#[verifier::external_body]
pub(crate) fn add_node(g: &mut NumberedGraph, number: usize) -> (r: usize)
    requires
        leaving(*old(g)).len() < GRAPH_LIMIT,
    ensures
        r == leaving(*old(g)).len(),
        leaving(*final(g)) == leaving(*old(g)).push(Seq::<(usize, usize)>::empty()),
        entering(*final(g)) == entering(*old(g)).push(Seq::<(usize, usize)>::empty()),
        edge_total(*final(g)) == edge_total(*old(g)),
{
    g.add_node(number).index()
}

/// Calls `Graph::add_edge`. The edge comes first among those that leave `a` and
/// among those that enter `b`. The call panics where `a` or `b` is no node and
/// where the graph is full.
#[verifier::external_body]
pub(crate) fn add_edge(g: &mut NumberedGraph, a: usize, b: usize, number: usize)
    requires
        a < leaving(*old(g)).len(),
        b < leaving(*old(g)).len(),
        edge_total(*old(g)) < GRAPH_LIMIT,
    ensures
        leaving(*final(g)) == leaving(*old(g)).update(
            a as int,
            seq![(number, b)] + leaving(*old(g))[a as int],
        ),
        entering(*final(g)) == entering(*old(g)).update(
            b as int,
            seq![(number, a)] + entering(*old(g))[b as int],
        ),
        edge_total(*final(g)) == edge_total(*old(g)) + 1,
{
    g.add_edge((a as u32).into(), (b as u32).into(), number);
}

/// Calls `Graph::edges_directed` for the edges that leave node `n`.
#[verifier::external_body]
pub(crate) fn edges_leaving(g: &NumberedGraph, n: usize) -> (r: Vec<(usize, usize)>)
    requires
        n < leaving(*g).len(),
    ensures
        r@ == leaving(*g)[n as int],
{
    g.edges_directed((n as u32).into(), petgraph::Direction::Outgoing)
        .map(|e| (*e.weight(), petgraph::visit::EdgeRef::target(&e).index()))
        .collect()
}

/// Calls `Graph::edges_directed` for the edges that enter node `n`.
#[verifier::external_body]
pub(crate) fn edges_entering(g: &NumberedGraph, n: usize) -> (r: Vec<(usize, usize)>)
    requires
        n < entering(*g).len(),
    ensures
        r@ == entering(*g)[n as int],
{
    g.edges_directed((n as u32).into(), petgraph::Direction::Incoming)
        .map(|e| (*e.weight(), petgraph::visit::EdgeRef::source(&e).index()))
        .collect()
}

} // verus!

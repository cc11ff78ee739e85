//! The dependency graph of variables, kept in petgraph's `DiGraphMap`.
use vstd::prelude::*;

verus! {

#[verifier::external_type_specification]
#[verifier::external_body]
#[verifier::reject_recursive_types(N)]
#[verifier::reject_recursive_types(E)]
#[verifier::reject_recursive_types(Ty)]
#[verifier::reject_recursive_types(S)]
pub struct ExGraphMap<N, E, Ty, S: std::hash::BuildHasher>(petgraph::graphmap::GraphMap<N, E, Ty, S>);

#[verifier::external_type_specification]
#[verifier::external_body]
pub struct ExDirected(petgraph::Directed);

/// The nodes of a graph.
pub uninterp spec fn graph_nodes(g: petgraph::graphmap::DiGraphMap<u64, ()>) -> Set<u64>;

/// The directed edges of a graph.
pub uninterp spec fn graph_edges(g: petgraph::graphmap::DiGraphMap<u64, ()>) -> Set<(u64, u64)>;

/// The nodes of a graph, in the order they were added.
pub uninterp spec fn graph_node_order(g: petgraph::graphmap::DiGraphMap<u64, ()>) -> Seq<u64>;

/// The directed edges of a graph, in the order they were added.
pub uninterp spec fn graph_edge_order(g: petgraph::graphmap::DiGraphMap<u64, ()>) -> Seq<(u64, u64)>;

/// The order that `petgraph::algo::toposort` gives a graph whose nodes and edges were added
/// in these orders.
pub uninterp spec fn toposort_order(nodes: Seq<u64>, edges: Seq<(u64, u64)>) -> Seq<u64>;

/// `s` with `x` added at its end, unless it holds `x` already.
pub open spec fn push_new<T>(s: Seq<T>, x: T) -> Seq<T> {
    if s.contains(x) {
        s
    } else {
        s.push(x)
    }
}

/// Relies on `DiGraphMap::new`: an empty graph.
#[verifier::external_body]
pub(crate) fn new_graph() -> (g: petgraph::graphmap::DiGraphMap<u64, ()>)
    ensures
        graph_nodes(g) == Set::<u64>::empty(),
        graph_edges(g) == Set::<(u64, u64)>::empty(),
        graph_node_order(g) == Seq::<u64>::empty(),
        graph_edge_order(g) == Seq::<(u64, u64)>::empty(),
{
    petgraph::graphmap::DiGraphMap::new()
}

/// Relies on `GraphMap::add_node`: adds the node at the end if it is missing.
#[verifier::external_body]
pub(crate) fn add_node(g: &mut petgraph::graphmap::DiGraphMap<u64, ()>, n: u64)
    ensures
        graph_nodes(*final(g)) == graph_nodes(*old(g)).insert(n),
        graph_edges(*final(g)) == graph_edges(*old(g)),
        graph_node_order(*final(g)) == push_new(graph_node_order(*old(g)), n),
        graph_edge_order(*final(g)) == graph_edge_order(*old(g)),
{
    g.add_node(n);
}

/// Relies on `GraphMap::add_edge`: adds the edge from `a` to `b` at the end if it is missing,
/// and then its ends, `a` first, if they are missing.
#[verifier::external_body]
pub(crate) fn add_edge(g: &mut petgraph::graphmap::DiGraphMap<u64, ()>, a: u64, b: u64)
    ensures
        graph_nodes(*final(g)) == graph_nodes(*old(g)).insert(a).insert(b),
        graph_edges(*final(g)) == graph_edges(*old(g)).insert((a, b)),
        graph_edge_order(*final(g)) == push_new(graph_edge_order(*old(g)), (a, b)),
        graph_node_order(*final(g)) == if graph_edge_order(*old(g)).contains((a, b)) {
            graph_node_order(*old(g))
        } else {
            push_new(push_new(graph_node_order(*old(g)), a), b)
        },
{
    g.add_edge(a, b, ());
}

/// `order` lists each node of the graph once, each before its successors.
pub open spec fn topological(order: Seq<u64>, nodes: Set<u64>, edges: Set<(u64, u64)>) -> bool {
    &&& order.no_duplicates()
    &&& order.to_set() == nodes
    &&& forall|a: u64, b: u64| #[trigger] edges.contains((a, b)) ==> exists|i: int, j: int|
        0 <= i < j < order.len() && order[i] == a && order[j] == b
}

/// Relies on `petgraph::algo::toposort`: on success, every node once, each before its
/// successors; it fails only on a graph with a cycle, which no order can sort. Its order
/// depends only on the orders in which nodes and edges were added: the graph keeps both in
/// insertion order and the sort walks them in that order.
#[verifier::external_body]
pub(crate) fn toposort(g: &petgraph::graphmap::DiGraphMap<u64, ()>) -> (r: Result<Vec<u64>, u64>)
    ensures
        match r {
            Ok(order) => topological(order@, graph_nodes(*g), graph_edges(*g))
                && order@ == toposort_order(graph_node_order(*g), graph_edge_order(*g)),
            Err(_) => forall|o: Seq<u64>| !topological(o, graph_nodes(*g), graph_edges(*g)),
        },
{
    petgraph::algo::toposort(g, None).map_err(|cycle| cycle.node_id())
}

} // verus!

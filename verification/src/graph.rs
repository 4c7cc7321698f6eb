use vstd::prelude::*;

verus! {

#[verifier::external_type_specification]
#[verifier::external_body]
#[verifier::reject_recursive_types(N)]
#[verifier::reject_recursive_types(E)]
#[verifier::reject_recursive_types(Ty)]
#[verifier::reject_recursive_types(Ix)]
pub struct ExStableGraph<N, E, Ty, Ix>(petgraph::stable_graph::StableGraph<N, E, Ty, Ix>);

#[verifier::external_type_specification]
#[verifier::external_body]
pub struct ExDirected(petgraph::Directed);

/// The file graph: nodes carry path strings, edges carry the index of the
/// rule that produced them. This crate only ever adds nodes and edges, so
/// node indices are the insertion order 0, 1, 2, ...
pub type FileGraph = petgraph::stable_graph::StableGraph<String, usize, petgraph::Directed, usize>;

/// The node weights of `g` in insertion order; node `i` carries path
/// `graph_paths(g)[i]`.
pub uninterp spec fn graph_paths(g: FileGraph) -> Seq<Seq<char>>;

/// The edges of `g`: a map from (source node, target node) to the rule
/// index the edge is annotated with. A source-target pair holds at most one
/// edge, as `update_edge` keeps it.
pub uninterp spec fn graph_edges(g: FileGraph) -> Map<(int, int), int>;

/// Relies on StableGraph::with_capacity via Default: a new graph is empty.
#[verifier::external_body]
pub(crate) fn graph_new() -> (g: FileGraph)
    ensures
        graph_paths(g) == Seq::<Seq<char>>::empty(),
        graph_edges(g).dom() == Set::<(int, int)>::empty(),
{
    petgraph::stable_graph::StableGraph::default()
}

/// Relies on StableGraph::add_node on a graph from which no node has ever
/// been removed (this crate never removes): the fresh node gets the next
/// index in insertion order, and the edge set is untouched. With a usize
/// index type the capacity check is skipped in the source, so the call
/// always succeeds.
#[verifier::external_body]
pub(crate) fn graph_add_node(g: &mut FileGraph, path: String) -> (id: usize)
    ensures
        id == graph_paths(*old(g)).len(),
        graph_paths(*final(g)) == graph_paths(*old(g)).push(path@),
        graph_edges(*final(g)) == graph_edges(*old(g)),
{
    g.add_node(path).index()
}

/// Relies on StableGraph::update_edge with usize indices: the edge from `a`
/// to `b` is added, or its weight replaced if the pair already has one;
/// nodes are untouched. With a usize index type the edge-capacity failure
/// cannot arise, so only missing endpoints could make it panic, and those
/// are required away.
#[verifier::external_body]
pub(crate) fn graph_update_edge(g: &mut FileGraph, a: usize, b: usize, ri: usize)
    requires
        a < graph_paths(*old(g)).len(),
        b < graph_paths(*old(g)).len(),
    ensures
        graph_paths(*final(g)) == graph_paths(*old(g)),
        graph_edges(*final(g)) == graph_edges(*old(g)).insert((a as int, b as int), ri as int),
{
    g.update_edge(
        petgraph::graph::NodeIndex::new(a),
        petgraph::graph::NodeIndex::new(b),
        ri,
    );
}

/// Relies on StableGraph::node_count: the number of nodes.
#[verifier::external_body]
pub(crate) fn graph_node_count(g: &FileGraph) -> (r: usize)
    ensures
        r == graph_paths(*g).len(),
{
    g.node_count()
}

/// Relies on StableGraph::node_weight: the path stored at node `id`.
#[verifier::external_body]
pub(crate) fn graph_node_path(g: &FileGraph, id: usize) -> (r: String)
    requires
        id < graph_paths(*g).len(),
    ensures
        r@ == graph_paths(*g)[id as int],
{
    g.node_weight(petgraph::graph::NodeIndex::new(id)).unwrap().clone()
}

/// Relies on StableGraph::edges_directed with Outgoing: one entry per
/// outgoing edge of `n`, as a (target, rule index) pair, in unspecified
/// order; a target appears at most once since a pair holds one edge.
#[verifier::external_body]
pub(crate) fn graph_out_edges(g: &FileGraph, n: usize) -> (r: Vec<(usize, usize)>)
    ensures
        forall|i: int| 0 <= i < r@.len() ==> {
            &&& graph_edges(*g).contains_key((n as int, #[trigger] r@[i].0 as int))
            &&& graph_edges(*g)[(n as int, r@[i].0 as int)] == r@[i].1 as int
        },
        forall|t: int| #[trigger] graph_edges(*g).contains_key((n as int, t))
            ==> exists|i: int| 0 <= i < r@.len() && #[trigger] r@[i].0 as int == t,
        forall|i: int, j: int| 0 <= i < j < r@.len() ==> r@[i].0 != r@[j].0,
{
    g.edges_directed(petgraph::graph::NodeIndex::new(n), petgraph::Direction::Outgoing)
        .map(|e| (petgraph::visit::EdgeRef::target(&e).index(), *petgraph::visit::EdgeRef::weight(&e)))
        .collect()
}

/// Relies on StableGraph::neighbors_directed with Incoming: one entry per
/// incoming edge of `n`, naming the edge's source, in unspecified order; a
/// source appears at most once since a pair holds one edge.
#[verifier::external_body]
pub(crate) fn graph_in_sources(g: &FileGraph, n: usize) -> (r: Vec<usize>)
    ensures
        forall|i: int| 0 <= i < r@.len()
            ==> graph_edges(*g).contains_key((#[trigger] r@[i] as int, n as int)),
        forall|s: int| #[trigger] graph_edges(*g).contains_key((s, n as int))
            ==> exists|i: int| 0 <= i < r@.len() && #[trigger] r@[i] as int == s,
        forall|i: int, j: int| 0 <= i < j < r@.len() ==> r@[i] != r@[j],
{
    g.neighbors_directed(petgraph::graph::NodeIndex::new(n), petgraph::Direction::Incoming)
        .map(|x| x.index())
        .collect()
}

} // verus!

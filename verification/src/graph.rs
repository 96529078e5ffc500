//! The directed multigraph that stores a quiver: a `petgraph` `StableGraph`
//! with `String` weights, seen through the map of its nodes and the map of
//! its edges, indexed by the plain integer behind each node or edge index.
use petgraph::stable_graph::{EdgeIndex, NodeIndex, StableGraph};
use petgraph::visit::EdgeRef;
use petgraph::Direction;
use vstd::prelude::*;

verus! {

#[verifier::external_type_specification]
#[verifier::external_body]
#[verifier::reject_recursive_types(N)]
#[verifier::reject_recursive_types(E)]
#[verifier::reject_recursive_types(Ty)]
#[verifier::reject_recursive_types(Ix)]
pub struct ExStableGraph<N, E, Ty, Ix>(StableGraph<N, E, Ty, Ix>);

#[verifier::external_type_specification]
#[verifier::external_body]
pub struct ExDirected(petgraph::Directed);

/// The nodes present in the graph: node index to the weight's text.
pub uninterp spec fn graph_nodes(g: StableGraph<String, String>) -> Map<nat, Seq<char>>;

/// The edges present in the graph: edge index to (source node, target node, weight's text).
pub uninterp spec fn graph_edges(g: StableGraph<String, String>) -> Map<nat, (nat, nat, Seq<char>)>;

/// The largest number of nodes, or of edges, that the graph's `u32` indices allow.
pub open spec fn index_limit() -> nat {
    0xffff_fffe
}

/// `StableGraph::new`: a graph with no nodes and no edges.
#[verifier::external_body]
pub(crate) fn graph_new() -> (g: StableGraph<String, String>)
    ensures
        graph_nodes(g) =~= Map::empty(),
        graph_edges(g) =~= Map::empty(),
{
    StableGraph::new()
}

/// `StableGraph::add_node`: adds a node of weight `w` under an index not in use
/// and returns that index; the edges are untouched.
#[verifier::external_body]
pub(crate) fn graph_add_node(g: &mut StableGraph<String, String>, w: String) -> (i: usize)
    requires
        graph_nodes(*old(g)).dom().finite(),
        graph_nodes(*old(g)).len() < index_limit(),
    ensures
        i < index_limit(),
        !graph_nodes(*old(g)).contains_key(i as nat),
        graph_nodes(*final(g)) == graph_nodes(*old(g)).insert(i as nat, w@),
        graph_edges(*final(g)) == graph_edges(*old(g)),
{
    g.add_node(w).index()
}

/// `StableGraph::add_edge`: adds an edge `a -> b` of weight `w` under an edge index
/// not in use and returns that index; the nodes are untouched.
#[verifier::external_body]
pub(crate) fn graph_add_edge(g: &mut StableGraph<String, String>, a: usize, b: usize, w: String) -> (e: usize)
    requires
        graph_nodes(*old(g)).contains_key(a as nat),
        graph_nodes(*old(g)).contains_key(b as nat),
        a < index_limit(),
        b < index_limit(),
        graph_edges(*old(g)).dom().finite(),
        graph_edges(*old(g)).len() < index_limit(),
    ensures
        e < index_limit(),
        !graph_edges(*old(g)).contains_key(e as nat),
        graph_edges(*final(g)) == graph_edges(*old(g)).insert(e as nat, (a as nat, b as nat, w@)),
        graph_nodes(*final(g)) == graph_nodes(*old(g)),
{
    g.add_edge(NodeIndex::new(a), NodeIndex::new(b), w).index()
}

/// `StableGraph::remove_edge`: removes the edge `e` if present and returns its weight.
#[verifier::external_body]
pub(crate) fn graph_remove_edge(g: &mut StableGraph<String, String>, e: usize) -> (r: Option<String>)
    requires
        e < index_limit(),
    ensures
        graph_edges(*old(g)).contains_key(e as nat) ==> (r matches Some(w) && w@ == graph_edges(
            *old(g),
        )[e as nat].2),
        !graph_edges(*old(g)).contains_key(e as nat) ==> r is None,
        graph_edges(*final(g)) == graph_edges(*old(g)).remove(e as nat),
        graph_nodes(*final(g)) == graph_nodes(*old(g)),
{
    g.remove_edge(EdgeIndex::new(e))
}

/// `r` is the text stored under key `i`, or nothing where `i` is absent.
pub open spec fn option_label_is(r: Option<String>, m: Map<nat, Seq<char>>, i: nat) -> bool {
    match r {
        Some(w) => m.contains_key(i) && w@ == m[i],
        None => !m.contains_key(i),
    }
}

/// `r` is the pair of endpoints of edge `e`, or nothing where `e` is absent.
pub open spec fn option_endpoints_are(
    r: Option<(usize, usize)>,
    edges: Map<nat, (nat, nat, Seq<char>)>,
    e: nat,
) -> bool {
    match r {
        Some((s, t)) => edges.contains_key(e) && s as nat == edges[e].0 && t as nat == edges[e].1,
        None => !edges.contains_key(e),
    }
}

/// `StableGraph::node_weight`: a copy of the weight of node `i`, if present.
#[verifier::external_body]
pub(crate) fn graph_node_weight(g: &StableGraph<String, String>, i: usize) -> (r: Option<String>)
    requires
        i < index_limit(),
    ensures
        option_label_is(r, graph_nodes(*g), i as nat),
{
    g.node_weight(NodeIndex::new(i)).cloned()
}

/// `StableGraph::edge_weight`: a copy of the label of edge `e`, if present.
#[verifier::external_body]
pub(crate) fn graph_edge_weight(g: &StableGraph<String, String>, e: usize) -> (r: Option<String>)
    requires
        e < index_limit(),
    ensures
        option_edge_label_is(r, graph_edges(*g), e as nat),
{
    g.edge_weight(EdgeIndex::new(e)).cloned()
}

/// `r` is the label of edge `e`, or nothing where `e` is absent.
pub open spec fn option_edge_label_is(r: Option<String>, edges: Map<nat, (nat, nat, Seq<char>)>, e: nat) -> bool {
    match r {
        Some(w) => edges.contains_key(e) && w@ == edges[e].2,
        None => !edges.contains_key(e),
    }
}

/// `StableGraph::edge_endpoints`: source and target of edge `e`, if present.
#[verifier::external_body]
pub(crate) fn graph_edge_endpoints(g: &StableGraph<String, String>, e: usize) -> (r: Option<(usize, usize)>)
    requires
        e < index_limit(),
    ensures
        option_endpoints_are(r, graph_edges(*g), e as nat),
{
    g.edge_endpoints(EdgeIndex::new(e)).map(|(s, t)| (s.index(), t.index()))
}

/// `StableGraph::node_count`.
#[verifier::external_body]
pub(crate) fn graph_node_count(g: &StableGraph<String, String>) -> (r: usize)
    ensures
        r == graph_nodes(*g).len(),
{
    g.node_count()
}

/// `StableGraph::edge_count`.
#[verifier::external_body]
pub(crate) fn graph_edge_count(g: &StableGraph<String, String>) -> (r: usize)
    ensures
        r == graph_edges(*g).len(),
{
    g.edge_count()
}

/// `StableGraph::node_indices`: each index of a present node, once.
#[verifier::external_body]
pub(crate) fn graph_node_indices(g: &StableGraph<String, String>) -> (r: Vec<usize>)
    ensures
        r@.no_duplicates(),
        forall|i: usize| #[trigger] r@.contains(i) <==> graph_nodes(*g).contains_key(i as nat),
{
    g.node_indices().map(|i| i.index()).collect()
}

/// `StableGraph::edge_indices`: each index of a present edge, once.
#[verifier::external_body]
pub(crate) fn graph_edge_indices(g: &StableGraph<String, String>) -> (r: Vec<usize>)
    ensures
        r@.no_duplicates(),
        forall|e: usize| #[trigger] r@.contains(e) <==> graph_edges(*g).contains_key(e as nat),
{
    g.edge_indices().map(|e| e.index()).collect()
}

/// Edge `e` is present and leaves node `i` (`outgoing`) or enters it (otherwise).
pub open spec fn edge_at_node(edges: Map<nat, (nat, nat, Seq<char>)>, e: nat, i: nat, outgoing: bool) -> bool {
    &&& edges.contains_key(e)
    &&& if outgoing {
        edges[e].0 == i
    } else {
        edges[e].1 == i
    }
}

/// `StableGraph::edges_directed`: the index of each edge leaving node `i`
/// (`outgoing`) or entering it (otherwise), once each.
#[verifier::external_body]
pub(crate) fn graph_edges_directed(g: &StableGraph<String, String>, i: usize, outgoing: bool) -> (r: Vec<usize>)
    requires
        i < index_limit(),
    ensures
        r@.no_duplicates(),
        forall|e: usize|
            #[trigger] r@.contains(e) <==> edge_at_node(graph_edges(*g), e as nat, i as nat, outgoing),
{
    let dir = if outgoing { Direction::Outgoing } else { Direction::Incoming };
    g.edges_directed(NodeIndex::new(i), dir).map(|e| e.id().index()).collect()
}

/// The edges `a -> b`.
pub open spec fn edges_between(edges: Map<nat, (nat, nat, Seq<char>)>, a: nat, b: nat) -> Set<nat> {
    edges.dom().filter(|e: nat| edges[e].0 == a && edges[e].1 == b)
}

/// `StableGraph::edges_connecting(a, b).count()`: the number of edges `a -> b`.
#[verifier::external_body]
pub(crate) fn graph_count_edges_connecting(g: &StableGraph<String, String>, a: usize, b: usize) -> (r: usize)
    requires
        a < index_limit(),
        b < index_limit(),
    ensures
        r == edges_between(graph_edges(*g), a as nat, b as nat).len(),
{
    g.edges_connecting(NodeIndex::new(a), NodeIndex::new(b)).count()
}

/// `walk` is a nonempty sequence of edges, each ending where the next begins,
/// the last ending where the first begins.
pub open spec fn is_closed_walk(edges: Map<nat, (nat, nat, Seq<char>)>, walk: Seq<nat>) -> bool {
    &&& walk.len() > 0
    &&& forall|k: int| 0 <= k < walk.len() ==> edges.contains_key(#[trigger] walk[k])
    &&& forall|k: int|
        0 <= k < walk.len() - 1 ==> edges[#[trigger] walk[k]].1 == edges[walk[k + 1]].0
    &&& edges[walk[walk.len() - 1]].1 == edges[walk[0]].0
}

/// The graph holds a directed cycle.
pub open spec fn has_cycle(edges: Map<nat, (nat, nat, Seq<char>)>) -> bool {
    exists|walk: Seq<nat>| is_closed_walk(edges, walk)
}

/// `petgraph::algo::is_cyclic_directed`: whether the graph contains a directed cycle.
#[verifier::external_body]
pub(crate) fn graph_is_cyclic(g: &StableGraph<String, String>) -> (r: bool)
    ensures
        r == has_cycle(graph_edges(*g)),
{
    petgraph::algo::is_cyclic_directed(g)
}

} // verus!

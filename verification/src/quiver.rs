//! A directed multigraph with labelled vertices and labelled arrows, backed by
//! a `petgraph` `StableGraph`; vertices are created implicitly when an arrow
//! is added.
use crate::graph::{
    edges_between, graph_add_edge, graph_add_node, graph_count_edges_connecting,
    graph_edge_endpoints, graph_edge_count, graph_edge_indices, graph_edge_weight, graph_edges,
    graph_is_cyclic, graph_new, graph_node_count, graph_node_indices, graph_node_weight,
    graph_nodes, graph_remove_edge, has_cycle, index_limit, edge_at_node, graph_edges_directed,
};
use crate::words::{
    word_clone, word_eq, word_first, word_from_vec, word_labels, word_last, word_len, word_to_vec,
};
use nonempty::NonEmpty;
use petgraph::stable_graph::StableGraph;
use vstd::hash_map::StringHashMap;
use vstd::prelude::*;
use vstd::std_specs::cmp::PartialEqSpecImpl;

verus! {

/// A directed multigraph with `String` vertex and arrow labels.
///
/// Each label is associated with the graph index it was last added under:
/// adding a vertex label twice adds a second node, and the label then names
/// the newer one.
pub struct Quiver {
    p: StableGraph<String, String>,
    v_labels: StringHashMap<usize>,
    e_labels: StringHashMap<usize>,
    count_parallel_pairs: u8,
}

/// The edges of a graph: edge index to (source node, target node, label).
pub type EdgeMap = Map<nat, (nat, nat, Seq<char>)>;

impl Quiver {
    /// The nodes of the underlying graph: node index to vertex label.
    pub closed spec fn nodes(self) -> Map<nat, Seq<char>> {
        graph_nodes(self.p)
    }

    /// The edges of the underlying graph.
    pub closed spec fn edges(self) -> EdgeMap {
        graph_edges(self.p)
    }

    /// The node each vertex label names.
    pub closed spec fn vertex_index(self) -> Map<Seq<char>, usize> {
        self.v_labels@
    }

    /// The edge each arrow label names.
    pub closed spec fn arrow_index(self) -> Map<Seq<char>, usize> {
        self.e_labels@
    }

    /// How many arrows were added alongside an existing arrow with the same endpoints.
    pub closed spec fn parallel_pairs(self) -> nat {
        self.count_parallel_pairs as nat
    }

    /// The labels name nodes and edges of the graph carrying those labels, and
    /// every edge joins two nodes.
    pub open spec fn wf(self) -> bool {
        &&& self.nodes().dom().finite()
        &&& self.edges().dom().finite()
        &&& self.vertex_index().dom().finite()
        &&& self.arrow_index().dom().finite()
        &&& forall|v: Seq<char>| #[trigger]
            self.vertex_index().contains_key(v) ==> self.nodes().contains_key(
                self.vertex_index()[v] as nat,
            ) && self.nodes()[self.vertex_index()[v] as nat] == v
        &&& forall|i: nat| #[trigger]
            self.nodes().contains_key(i) ==> i < index_limit() && self.vertex_index().contains_key(
                self.nodes()[i],
            )
        &&& forall|a: Seq<char>| #[trigger]
            self.arrow_index().contains_key(a) ==> self.edges().contains_key(
                self.arrow_index()[a] as nat,
            ) && self.edges()[self.arrow_index()[a] as nat].2 == a
        &&& forall|e: nat| #[trigger]
            self.edges().contains_key(e) ==> e < index_limit() && self.nodes().contains_key(
                self.edges()[e].0,
            ) && self.nodes().contains_key(self.edges()[e].1)
    }

    pub open spec fn has_vertex(self, v: Seq<char>) -> bool {
        self.vertex_index().contains_key(v)
    }

    pub open spec fn has_arrow(self, a: Seq<char>) -> bool {
        self.arrow_index().contains_key(a)
    }

    /// The node of vertex `v`.
    pub open spec fn node_of(self, v: Seq<char>) -> nat {
        self.vertex_index()[v] as nat
    }

    /// The node arrow `a` leaves.
    pub open spec fn source_node(self, a: Seq<char>) -> nat {
        self.edges()[self.arrow_index()[a] as nat].0
    }

    /// The node arrow `a` enters.
    pub open spec fn target_node(self, a: Seq<char>) -> nat {
        self.edges()[self.arrow_index()[a] as nat].1
    }

    /// Both arrows are present and `a` ends where `b` begins.
    pub open spec fn spec_composable(self, a: Seq<char>, b: Seq<char>) -> bool {
        &&& self.has_arrow(a)
        &&& self.has_arrow(b)
        &&& self.target_node(a) == self.source_node(b)
    }

    /// `w` is a sequence of present arrows, each ending where the next begins.
    pub open spec fn is_path(self, w: Seq<Seq<char>>) -> bool {
        &&& forall|k: int| 0 <= k < w.len() ==> self.has_arrow(#[trigger] w[k])
        &&& forall|k: int|
            0 <= k < w.len() - 1 ==> #[trigger] self.spec_composable(w[k], w[k + 1])
    }

    /// There is room in the graph for `extra` more nodes and one more edge.
    pub open spec fn has_room(self, extra: nat) -> bool {
        &&& self.nodes().len() + extra < index_limit()
        &&& self.edges().len() + 1 < index_limit()
    }

    /// Create an empty quiver with no vertices or arrows.
    pub fn new() -> (q: Self)
        ensures
            q.wf(),
            q.nodes() =~= Map::empty(),
            q.edges() =~= Map::empty(),
            q.vertex_index() =~= Map::empty(),
            q.arrow_index() =~= Map::empty(),
            q.parallel_pairs() == 0,
    {
        Quiver {
            p: graph_new(),
            v_labels: StringHashMap::new(),
            e_labels: StringHashMap::new(),
            count_parallel_pairs: 0,
        }
    }

    /// Add a vertex with the given label and return its node index. Does not
    /// check for duplicate labels: the label then names the new node.
    pub fn add_vertex(&mut self, label: String) -> (i: usize)
        requires
            old(self).wf(),
            old(self).has_room(1),
        ensures
            final(self).wf(),
            !old(self).nodes().contains_key(i as nat),
            final(self).nodes() == old(self).nodes().insert(i as nat, label@),
            final(self).vertex_index() == old(self).vertex_index().insert(label@, i),
            final(self).edges() == old(self).edges(),
            final(self).arrow_index() == old(self).arrow_index(),
            final(self).parallel_pairs() == old(self).parallel_pairs(),
    {
        let ghost old_nodes = graph_nodes(self.p);
        let ghost q0 = *self;
        let node_index = graph_add_node(&mut self.p, label.clone());
        self.v_labels.insert(label, node_index);
        proof {
            assert(graph_nodes(self.p).dom() =~= old_nodes.dom().insert(node_index as nat));
            assert forall|v: Seq<char>| #[trigger] self.vertex_index().contains_key(v) implies self.nodes().contains_key(
                self.vertex_index()[v] as nat,
            ) && self.nodes()[self.vertex_index()[v] as nat] == v by {
                if v != label@ {
                    assert(q0.vertex_index().contains_key(v));
                    assert(old_nodes.contains_key(self.vertex_index()[v] as nat));
                }
            }
            assert forall|i: nat| #[trigger] self.nodes().contains_key(i) implies i < index_limit()
                && self.vertex_index().contains_key(self.nodes()[i]) by {
                if i != node_index as nat {
                    assert(old_nodes.contains_key(i));
                    assert(q0.nodes().contains_key(i));
                }
            }
            assert forall|a: Seq<char>| #[trigger] self.arrow_index().contains_key(a) implies self.edges().contains_key(
                self.arrow_index()[a] as nat,
            ) && self.edges()[self.arrow_index()[a] as nat].2 == a by {
                assert(q0.arrow_index().contains_key(a));
            }
            assert forall|e: nat| #[trigger] self.edges().contains_key(e) implies e < index_limit() && self.nodes().contains_key(
                self.edges()[e].0,
            ) && self.nodes().contains_key(self.edges()[e].1) by {
                assert(q0.edges().contains_key(e));
            }
        }
        node_index
    }

    /// Add an arrow `from -> to` with the given label; the endpoints are
    /// created if absent. The label then names the new arrow.
    pub fn add_edge(&mut self, from: String, to: String, label: String)
        requires
            old(self).wf(),
            old(self).has_room(2),
            old(self).has_vertex(from@) && old(self).has_vertex(to@) && edges_between(
                old(self).edges(),
                old(self).node_of(from@),
                old(self).node_of(to@),
            ).len() > 0 ==> old(self).parallel_pairs() < 255,
        ensures
            final(self).wf(),
            forall|v: Seq<char>|
                #[trigger] final(self).has_vertex(v) <==> old(self).has_vertex(v) || v == from@
                    || v == to@,
            forall|v: Seq<char>|
                old(self).has_vertex(v) ==> #[trigger] final(self).node_of(v) == old(self).node_of(
                    v,
                ),
            forall|i: nat|
                old(self).nodes().contains_key(i) ==> #[trigger] final(self).nodes().contains_key(i)
                    && final(self).nodes()[i] == old(self).nodes()[i],
            old(self).has_vertex(from@) && old(self).has_vertex(to@) ==> final(self).nodes()
                == old(self).nodes() && final(self).vertex_index() == old(self).vertex_index(),
            old(self).has_vertex(to@) ==> final(self).nodes().len() <= old(self).nodes().len() + 1,
            final(self).arrow_index().dom() == old(self).arrow_index().dom().insert(label@),
            forall|a: Seq<char>|
                a != label@ && old(self).has_arrow(a) ==> #[trigger] final(self).arrow_index()[a]
                    == old(self).arrow_index()[a],
            !old(self).edges().contains_key(final(self).arrow_index()[label@] as nat),
            final(self).edges() == old(self).edges().insert(
                final(self).arrow_index()[label@] as nat,
                (final(self).node_of(from@), final(self).node_of(to@), label@),
            ),
            final(self).parallel_pairs() == old(self).parallel_pairs() + if old(self).has_vertex(
                from@,
            ) && old(self).has_vertex(to@) && edges_between(
                old(self).edges(),
                old(self).node_of(from@),
                old(self).node_of(to@),
            ).len() > 0 {
                1nat
            } else {
                0nat
            },
    {
        let ghost q0 = *self;
        let from_idx = match self.v_labels.get(from.as_str()) {
            Some(i) => *i,
            None => self.add_vertex(from),
        };
        assert(self.wf());
        let to_idx = match self.v_labels.get(to.as_str()) {
            Some(i) => *i,
            None => self.add_vertex(to),
        };
        assert(self.wf());
        proof {
            assert(self.vertex_index().contains_key(from@) && self.vertex_index()[from@] == from_idx);
            assert(self.vertex_index().contains_key(to@) && self.vertex_index()[to@] == to_idx);
            assert(self.nodes().contains_key(from_idx as nat));
            assert(self.nodes().contains_key(to_idx as nat));
            if q0.has_vertex(from@) && q0.has_vertex(to@) {
                assert(self.edges() == q0.edges());
            } else {
                assert(edges_between(self.edges(), from_idx as nat, to_idx as nat) =~= Set::empty()) by {
                    assert forall|e: nat| !edges_between(self.edges(), from_idx as nat, to_idx as nat).contains(e) by {
                        if self.edges().contains_key(e) {
                            assert(q0.edges().contains_key(e));
                        }
                    }
                }
            }
        }
        let parallel = graph_count_edges_connecting(&self.p, from_idx, to_idx);
        let ghost qp = *self;
        if parallel != 0 {
            self.count_parallel_pairs = self.count_parallel_pairs + 1;
        }
        assert(self.nodes() == qp.nodes() && self.edges() == qp.edges());
        assert(self.vertex_index() == qp.vertex_index() && self.arrow_index() == qp.arrow_index());
        assert(self.wf());
        let ghost q1 = *self;
        let idx = graph_add_edge(&mut self.p, from_idx, to_idx, label.clone());
        self.e_labels.insert(label, idx);
        proof {
            assert forall|v: Seq<char>| #[trigger] self.vertex_index().contains_key(v) implies self.nodes().contains_key(
                self.vertex_index()[v] as nat,
            ) && self.nodes()[self.vertex_index()[v] as nat] == v by {
                assert(q1.vertex_index().contains_key(v));
            }
            assert forall|i: nat| #[trigger] self.nodes().contains_key(i) implies i < index_limit()
                && self.vertex_index().contains_key(self.nodes()[i]) by {
                assert(q1.nodes().contains_key(i));
            }
            assert forall|a: Seq<char>| #[trigger] self.arrow_index().contains_key(a) implies self.edges().contains_key(
                self.arrow_index()[a] as nat,
            ) && self.edges()[self.arrow_index()[a] as nat].2 == a by {
                if a != label@ {
                    assert(q1.wf());
                    assert(q1.arrow_index().contains_key(a));
                    assert(q1.edges().contains_key(q1.arrow_index()[a] as nat));
                    assert(self.arrow_index()[a] == q1.arrow_index()[a]);
                }
            }
            assert forall|e: nat| #[trigger] self.edges().contains_key(e) implies e < index_limit() && self.nodes().contains_key(
                self.edges()[e].0,
            ) && self.nodes().contains_key(self.edges()[e].1) by {
                if e != idx as nat {
                    assert(q1.edges().contains_key(e));
                }
            }
        }
    }
}

impl Quiver {
    #[must_use]
    pub fn num_vertices(&self) -> (r: usize)
        ensures
            r == self.nodes().len(),
    {
        graph_node_count(&self.p)
    }

    #[must_use]
    pub fn num_arrows(&self) -> (r: usize)
        ensures
            r == self.edges().len(),
    {
        graph_edge_count(&self.p)
    }

    /// Whether the quiver has no directed cycle (a self-loop is a cycle).
    #[must_use]
    pub fn is_acyclic(&self) -> (r: bool)
        ensures
            r == !has_cycle(self.edges()),
    {
        !graph_is_cyclic(&self.p)
    }

    /// Returns `true` if `vertex` is present in the quiver.
    pub fn contains_vertex(&self, vertex: &String) -> (r: bool)
        ensures
            r == self.has_vertex(vertex@),
    {
        self.v_labels.contains_key(vertex.as_str())
    }

    /// Returns `true` if an arrow with label `edge` is present in the quiver.
    pub fn contains_edge(&self, edge: &String) -> (r: bool)
        ensures
            r == self.has_arrow(edge@),
    {
        self.e_labels.contains_key(edge.as_str())
    }

    /// Remove the arrow with label `edge`. Returns `true` if it was present.
    pub fn remove_edge(&mut self, edge: &String) -> (r: bool)
        requires
            old(self).wf(),
        ensures
            final(self).wf(),
            r == old(self).has_arrow(edge@),
            final(self).arrow_index() == old(self).arrow_index().remove(edge@),
            r ==> final(self).edges() == old(self).edges().remove(
                old(self).arrow_index()[edge@] as nat,
            ),
            !r ==> final(self).edges() == old(self).edges(),
            final(self).nodes() == old(self).nodes(),
            final(self).vertex_index() == old(self).vertex_index(),
            final(self).parallel_pairs() == old(self).parallel_pairs(),
    {
        let ghost q0 = *self;
        let found = match self.e_labels.get(edge.as_str()) {
            Some(i) => Some(*i),
            None => None,
        };
        match found {
            Some(edge_idx) => {
                assert(q0.arrow_index().contains_key(edge@));
                assert(q0.edges().contains_key(edge_idx as nat));
                self.e_labels.remove(edge.as_str());
                let _ = graph_remove_edge(&mut self.p, edge_idx);
                proof {
                    assert forall|a: Seq<char>| #[trigger] self.arrow_index().contains_key(a) implies self.edges().contains_key(
                        self.arrow_index()[a] as nat,
                    ) && self.edges()[self.arrow_index()[a] as nat].2 == a by {
                        assert(q0.arrow_index().contains_key(a));
                        assert(q0.edges()[q0.arrow_index()[a] as nat].2 == a);
                    }
                    assert forall|e: nat| #[trigger] self.edges().contains_key(e) implies e < index_limit() && self.nodes().contains_key(
                        self.edges()[e].0,
                    ) && self.nodes().contains_key(self.edges()[e].1) by {
                        assert(q0.edges().contains_key(e));
                    }
                    assert forall|v: Seq<char>| #[trigger] self.vertex_index().contains_key(v) implies self.nodes().contains_key(
                        self.vertex_index()[v] as nat,
                    ) && self.nodes()[self.vertex_index()[v] as nat] == v by {
                        assert(q0.vertex_index().contains_key(v));
                    }
                    assert forall|i: nat| #[trigger] self.nodes().contains_key(i) implies i < index_limit()
                        && self.vertex_index().contains_key(self.nodes()[i]) by {
                        assert(q0.nodes().contains_key(i));
                    }
                }
                true
            },
            None => {
                assert(self.arrow_index() =~= q0.arrow_index().remove(edge@));
                false
            },
        }
    }

    /// Reverse the arrow with label `edge`, if present: it then runs from its
    /// old target to its old source. Every other arrow is left as it was.
    pub(crate) fn flip_edge(&mut self, edge: &String)
        requires
            old(self).wf(),
            old(self).edges().len() < index_limit(),
        ensures
            final(self).wf(),
            final(self).nodes() == old(self).nodes(),
            final(self).vertex_index() == old(self).vertex_index(),
            final(self).arrow_index().dom() == old(self).arrow_index().dom(),
            final(self).edges().len() == old(self).edges().len(),
            final(self).parallel_pairs() == old(self).parallel_pairs(),
            forall|a: Seq<char>|
                #[trigger] old(self).has_arrow(a) && a != edge@ ==> final(self).arrow_index()[a] == old(
                    self,
                ).arrow_index()[a] && final(self).edges()[final(self).arrow_index()[a] as nat] == old(
                    self,
                ).edges()[old(self).arrow_index()[a] as nat],
            old(self).has_arrow(edge@) ==> final(self).source_node(edge@) == old(self).target_node(edge@)
                && final(self).target_node(edge@) == old(self).source_node(edge@),
            forall|e: nat|
                #[trigger] final(self).edges().contains_key(e) ==> (exists|a: Seq<char>|
                    final(self).has_arrow(a) && final(self).arrow_index()[a] == e) || (old(self).edges().contains_key(e)
                    && !(exists|a: Seq<char>| old(self).has_arrow(a) && old(self).arrow_index()[a] == e)),
    {
        let ghost q0 = *self;
        let ends = self.edge_endpoints(edge);
        match ends {
            Some((s_idx, t_idx)) => {
                let edge_idx = match self.e_labels.get(edge.as_str()) {
                    Some(i) => *i,
                    None => {
                        assert(false);
                        return;
                    },
                };
                assert(q0.edges().contains_key(edge_idx as nat));
                self.e_labels.remove(edge.as_str());
                let _ = graph_remove_edge(&mut self.p, edge_idx);
                let ghost g1 = graph_edges(self.p);
                assert(g1 == q0.edges().remove(edge_idx as nat));
                assert(g1.len() == q0.edges().len() - 1);
                let idx = graph_add_edge(&mut self.p, t_idx, s_idx, edge.clone());
                self.e_labels.insert(edge.clone(), idx);
                proof {
                    assert(self.edges() == g1.insert(idx as nat, (t_idx as nat, s_idx as nat, edge@)));
                    assert(self.edges().len() == q0.edges().len());
                    assert forall|a: Seq<char>| #[trigger] self.arrow_index().contains_key(a) implies self.edges().contains_key(
                        self.arrow_index()[a] as nat,
                    ) && self.edges()[self.arrow_index()[a] as nat].2 == a by {
                        if a != edge@ {
                            assert(q0.arrow_index().contains_key(a));
                            assert(q0.edges()[q0.arrow_index()[a] as nat].2 == a);
                            assert(q0.arrow_index()[a] != edge_idx);
                        }
                    }
                    assert forall|e: nat| #[trigger] self.edges().contains_key(e) implies e < index_limit() && self.nodes().contains_key(
                        self.edges()[e].0,
                    ) && self.nodes().contains_key(self.edges()[e].1) by {
                        if e != idx as nat {
                            assert(q0.edges().contains_key(e));
                        }
                    }
                    assert forall|v: Seq<char>| #[trigger] self.vertex_index().contains_key(v) implies self.nodes().contains_key(
                        self.vertex_index()[v] as nat,
                    ) && self.nodes()[self.vertex_index()[v] as nat] == v by {
                        assert(q0.vertex_index().contains_key(v));
                    }
                    assert forall|i: nat| #[trigger] self.nodes().contains_key(i) implies i < index_limit()
                        && self.vertex_index().contains_key(self.nodes()[i]) by {
                        assert(q0.nodes().contains_key(i));
                    }
                    assert(self.arrow_index().dom() =~= q0.arrow_index().dom());
                    assert forall|a: Seq<char>|
                        #[trigger] q0.has_arrow(a) && a != edge@ implies self.arrow_index()[a] == q0.arrow_index()[a]
                            && self.edges()[self.arrow_index()[a] as nat] == q0.edges()[q0.arrow_index()[a] as nat] by {
                        assert(q0.edges()[q0.arrow_index()[a] as nat].2 == a);
                        assert(q0.arrow_index()[a] != edge_idx);
                    }
                    assert forall|e: nat|
                        #[trigger] self.edges().contains_key(e) implies (exists|a: Seq<char>|
                            self.has_arrow(a) && self.arrow_index()[a] == e) || (q0.edges().contains_key(e) && !(exists|
                            a: Seq<char>,
                        | q0.has_arrow(a) && q0.arrow_index()[a] == e)) by {
                        if e == idx as nat {
                            assert(self.has_arrow(edge@) && self.arrow_index()[edge@] == e);
                        } else {
                            assert(q0.edges().contains_key(e));
                            if exists|a: Seq<char>| q0.has_arrow(a) && q0.arrow_index()[a] == e {
                                let a = choose|a: Seq<char>| q0.has_arrow(a) && q0.arrow_index()[a] == e;
                                assert(a != edge@);
                                assert(self.has_arrow(a) && self.arrow_index()[a] == e);
                            }
                        }
                    }
                }
            },
            None => {},
        }
    }

    /// The node of vertex `v`, if present.
    pub(crate) fn vertex_idx(&self, v: &String) -> (r: Option<usize>)
        requires
            self.wf(),
        ensures
            r matches Some(i) ==> self.has_vertex(v@) && i == self.vertex_index()[v@],
            r is None ==> !self.has_vertex(v@),
    {
        match self.v_labels.get(v.as_str()) {
            Some(i) => Some(*i),
            None => None,
        }
    }

    /// The label of node `idx`, if present.
    pub(crate) fn vertex_label(&self, idx: usize) -> (r: Option<String>)
        requires
            self.wf(),
        ensures
            r matches Some(w) ==> self.nodes().contains_key(idx as nat) && w@ == self.nodes()[idx as nat],
            r is None ==> !self.nodes().contains_key(idx as nat),
    {
        if idx >= 0xffff_fffe {
            return None;
        }
        graph_node_weight(&self.p, idx)
    }

    /// The source and target nodes of arrow `a`, if present.
    pub(crate) fn edge_endpoints(&self, a: &String) -> (r: Option<(usize, usize)>)
        requires
            self.wf(),
        ensures
            r matches Some((s, t)) ==> self.has_arrow(a@) && s as nat == self.source_node(a@) && t as nat
                == self.target_node(a@),
            r is None ==> !self.has_arrow(a@),
            r matches Some((s, t)) ==> self.nodes().contains_key(s as nat) && self.nodes().contains_key(
                t as nat,
            ) && s < index_limit() && t < index_limit(),
    {
        match self.e_labels.get(a.as_str()) {
            Some(i) => {
                let i = *i;
                proof {
                    assert(self.arrow_index().contains_key(a@));
                    assert(self.edges().contains_key(i as nat));
                }
                let r = graph_edge_endpoints(&self.p, i);
                r
            },
            None => None,
        }
    }

    /// Returns `(source, target)` vertex labels for arrow `a`, or `None` if `a`
    /// is not in the quiver.
    pub fn edge_endpoint_labels(&self, a: &String) -> (r: Option<(String, String)>)
        requires
            self.wf(),
        ensures
            r matches Some((s, t)) ==> self.has_arrow(a@) && s@ == self.nodes()[self.source_node(a@)]
                && t@ == self.nodes()[self.target_node(a@)],
            r is None ==> !self.has_arrow(a@),
    {
        match self.edge_endpoints(a) {
            Some((idx, jdx)) => {
                let src = self.vertex_label(idx);
                let tgt = self.vertex_label(jdx);
                match (src, tgt) {
                    (Some(s), Some(t)) => Some((s, t)),
                    _ => None,
                }
            },
            None => None,
        }
    }

    /// Returns `true` if arrow `a` can be followed by arrow `b`, i.e. `t(a) == s(b)`.
    pub fn composable(&self, a: &String, b: &String) -> (r: bool)
        requires
            self.wf(),
        ensures
            r == self.spec_composable(a@, b@),
    {
        match (self.edge_endpoints(a), self.edge_endpoints(b)) {
            (Some((_a_src, a_tgt)), Some((b_src, _b_tgt))) => a_tgt == b_src,
            _ => false,
        }
    }

    /// The labels of all arrows, each once. Order is unspecified.
    pub fn edge_labels(&self) -> (r: Vec<String>)
        requires
            self.wf(),
        ensures
            r.deep_view().no_duplicates(),
            forall|a: Seq<char>| #[trigger] r.deep_view().contains(a) <==> self.has_arrow(a),
    {
        let idxs = graph_edge_indices(&self.p);
        let mut out: Vec<String> = Vec::new();
        let mut i: usize = 0;
        while i < idxs.len()
            invariant
                self.wf(),
                idxs@.no_duplicates(),
                forall|e: usize| #[trigger] idxs@.contains(e) <==> self.edges().contains_key(e as nat),
                i <= idxs@.len(),
                out.deep_view().no_duplicates(),
                forall|k: int| 0 <= k < out@.len() ==> self.has_arrow(#[trigger] out.deep_view()[k]),
                forall|k: int| #![trigger out.deep_view()[k]]
                    0 <= k < out@.len() ==> exists|j: int|
                        0 <= j < i && self.arrow_index()[out.deep_view()[k]] == #[trigger] idxs@[j],
                forall|j: int|
                    0 <= j < i && self.has_arrow(self.edges()[#[trigger] idxs@[j] as nat].2)
                        && self.arrow_index()[self.edges()[idxs@[j] as nat].2] == idxs@[j]
                        ==> out.deep_view().contains(self.edges()[idxs@[j] as nat].2),
            decreases idxs@.len() - i,
        {
            let e = idxs[i];
            assert(idxs@.contains(e));
            let w = graph_edge_weight(&self.p, e);
            let ghost before_all = out.deep_view();
            match w {
                Some(w) => {
                    assert(w@ == self.edges()[e as nat].2);
                    let canonical = match self.e_labels.get(w.as_str()) {
                        Some(j) => *j == e,
                        None => false,
                    };
                    assert(canonical == (self.has_arrow(w@) && self.arrow_index()[w@] == e));
                    if canonical {
                        let ghost before = out.deep_view();
                        proof {
                            if before.contains(w@) {
                                let k = choose|k: int| 0 <= k < before.len() && before[k] == w@;
                                let j = choose|j: int|
                                    0 <= j < i && self.arrow_index()[before[k]] == #[trigger] idxs@[j];
                                assert(idxs@[j] == idxs@[i as int]);
                            }
                        }
                        out.push(w);
                        proof {
                            assert(out.deep_view() =~= before.push(w@));
                            assert(out.deep_view()[before.len() as int] == w@);
                            assert(out.deep_view().contains(w@));
                            assert forall|k: int| #![trigger out.deep_view()[k]]
                                0 <= k < out@.len() implies exists|j: int|
                                    0 <= j < i + 1 && self.arrow_index()[out.deep_view()[k]] == #[trigger] idxs@[j] by {
                                if k < before.len() {
                                    let j = choose|j: int|
                                        0 <= j < i && self.arrow_index()[before[k]] == #[trigger] idxs@[j];
                                    assert(0 <= j < i + 1);
                                } else {
                                    assert(self.arrow_index()[out.deep_view()[k]] == idxs@[i as int]);
                                }
                            }
                        }
                    }
                },
                None => {},
            }
            proof {
                assert forall|x: Seq<char>| before_all.contains(x) implies #[trigger] out.deep_view().contains(x) by {
                    let k = choose|k: int| 0 <= k < before_all.len() && before_all[k] == x;
                    assert(out.deep_view()[k] == x);
                }
                let lbl = self.edges()[e as nat].2;
                if self.has_arrow(lbl) && self.arrow_index()[lbl] == e {
                    assert(out.deep_view().contains(lbl));
                }
                assert forall|j: int|
                    0 <= j < i + 1 && self.has_arrow(self.edges()[#[trigger] idxs@[j] as nat].2)
                        && self.arrow_index()[self.edges()[idxs@[j] as nat].2] == idxs@[j]
                        implies out.deep_view().contains(self.edges()[idxs@[j] as nat].2) by {
                    if j < i {
                        assert(before_all.contains(self.edges()[idxs@[j] as nat].2));
                    }
                }
            }
            i = i + 1;
        }
        proof {
            assert forall|a: Seq<char>| self.has_arrow(a) implies #[trigger] out.deep_view().contains(a) by {
                let e = self.arrow_index()[a];
                assert(idxs@.contains(e));
                let j = choose|j: int| 0 <= j < idxs@.len() && idxs@[j] == e;
                assert(self.edges()[idxs@[j] as nat].2 == a);
            }
        }
        out
    }

    /// The labels of all vertices, each once. Order is unspecified.
    pub fn vertex_labels(&self) -> (r: Vec<String>)
        requires
            self.wf(),
        ensures
            r.deep_view().no_duplicates(),
            forall|a: Seq<char>| #[trigger] r.deep_view().contains(a) <==> self.has_vertex(a),
    {
        let idxs = graph_node_indices(&self.p);
        let mut out: Vec<String> = Vec::new();
        let mut i: usize = 0;
        while i < idxs.len()
            invariant
                self.wf(),
                idxs@.no_duplicates(),
                forall|e: usize| #[trigger] idxs@.contains(e) <==> self.nodes().contains_key(e as nat),
                i <= idxs@.len(),
                out.deep_view().no_duplicates(),
                forall|k: int| 0 <= k < out@.len() ==> self.has_vertex(#[trigger] out.deep_view()[k]),
                forall|k: int| #![trigger out.deep_view()[k]]
                    0 <= k < out@.len() ==> exists|j: int|
                        0 <= j < i && self.vertex_index()[out.deep_view()[k]] == #[trigger] idxs@[j],
                forall|j: int|
                    0 <= j < i && self.has_vertex(self.nodes()[#[trigger] idxs@[j] as nat])
                        && self.vertex_index()[self.nodes()[idxs@[j] as nat]] == idxs@[j]
                        ==> out.deep_view().contains(self.nodes()[idxs@[j] as nat]),
            decreases idxs@.len() - i,
        {
            let e = idxs[i];
            assert(idxs@.contains(e));
            let w = graph_node_weight(&self.p, e);
            let ghost before_all = out.deep_view();
            match w {
                Some(w) => {
                    assert(w@ == self.nodes()[e as nat]);
                    let canonical = match self.v_labels.get(w.as_str()) {
                        Some(j) => *j == e,
                        None => false,
                    };
                    assert(canonical == (self.has_vertex(w@) && self.vertex_index()[w@] == e));
                    if canonical {
                        let ghost before = out.deep_view();
                        proof {
                            if before.contains(w@) {
                                let k = choose|k: int| 0 <= k < before.len() && before[k] == w@;
                                let j = choose|j: int|
                                    0 <= j < i && self.vertex_index()[before[k]] == #[trigger] idxs@[j];
                                assert(idxs@[j] == idxs@[i as int]);
                            }
                        }
                        out.push(w);
                        proof {
                            assert(out.deep_view() =~= before.push(w@));
                            assert(out.deep_view()[before.len() as int] == w@);
                            assert(out.deep_view().contains(w@));
                            assert forall|k: int| #![trigger out.deep_view()[k]]
                                0 <= k < out@.len() implies exists|j: int|
                                    0 <= j < i + 1 && self.vertex_index()[out.deep_view()[k]] == #[trigger] idxs@[j] by {
                                if k < before.len() {
                                    let j = choose|j: int|
                                        0 <= j < i && self.vertex_index()[before[k]] == #[trigger] idxs@[j];
                                    assert(0 <= j < i + 1);
                                } else {
                                    assert(self.vertex_index()[out.deep_view()[k]] == idxs@[i as int]);
                                }
                            }
                        }
                    }
                },
                None => {},
            }
            proof {
                assert forall|x: Seq<char>| before_all.contains(x) implies #[trigger] out.deep_view().contains(x) by {
                    let k = choose|k: int| 0 <= k < before_all.len() && before_all[k] == x;
                    assert(out.deep_view()[k] == x);
                }
                let lbl = self.nodes()[e as nat];
                if self.has_vertex(lbl) && self.vertex_index()[lbl] == e {
                    assert(out.deep_view().contains(lbl));
                }
                assert forall|j: int|
                    0 <= j < i + 1 && self.has_vertex(self.nodes()[#[trigger] idxs@[j] as nat])
                        && self.vertex_index()[self.nodes()[idxs@[j] as nat]] == idxs@[j]
                        implies out.deep_view().contains(self.nodes()[idxs@[j] as nat]) by {
                    if j < i {
                        assert(before_all.contains(self.nodes()[idxs@[j] as nat]));
                    }
                }
            }
            i = i + 1;
        }
        proof {
            assert forall|a: Seq<char>| self.has_vertex(a) implies #[trigger] out.deep_view().contains(a) by {
                let e = self.vertex_index()[a];
                assert(idxs@.contains(e));
                let j = choose|j: int| 0 <= j < idxs@.len() && idxs@[j] == e;
                assert(self.nodes()[idxs@[j] as nat] == a);
            }
        }
        out
    }
}

/// A monomial basis element of a path algebra: either a vertex idempotent or a
/// nonempty path.
///
/// Arrows are stored left-to-right: `Path([a1, ..., an])` means follow `a1` first.
#[derive(Debug)]
pub enum BasisElt {
    /// The vertex idempotent `e_v`.
    Idempotent(String),
    /// A nonempty sequence of arrows.
    Path(NonEmpty<String>),
}

/// A basis element as a plain value: `(true, [v])` for the idempotent of `v`,
/// `(false, [a1, ..., an])` for a path.
pub type BasisView = (bool, Seq<Seq<char>>);

impl View for BasisElt {
    type V = BasisView;

    open spec fn view(&self) -> BasisView {
        match self {
            BasisElt::Idempotent(v) => (true, seq![v@]),
            BasisElt::Path(w) => (false, word_labels(*w)),
        }
    }
}

/// The view of an idempotent or a path: one vertex, or at least one arrow.
pub open spec fn basis_view_wf(b: BasisView) -> bool {
    if b.0 {
        b.1.len() == 1
    } else {
        b.1.len() >= 1
    }
}

impl Clone for BasisElt {
    fn clone(&self) -> (r: Self)
        ensures
            r@ == self@,
    {
        match self {
            BasisElt::Idempotent(v) => BasisElt::Idempotent(v.clone()),
            BasisElt::Path(w) => BasisElt::Path(word_clone(w)),
        }
    }
}

impl PartialEq for BasisElt {
    fn eq(&self, other: &Self) -> (r: bool) {
        match (self, other) {
            (BasisElt::Idempotent(v), BasisElt::Idempotent(w)) => {
                let r = *v == *w;
                proof {
                    if seq![v@] == seq![w@] {
                        assert(seq![v@][0] == seq![w@][0]);
                    }
                    if r {
                        assert(seq![v@] =~= seq![w@]);
                    }
                }
                r
            },
            (BasisElt::Path(x), BasisElt::Path(y)) => word_eq(x, y),
            _ => false,
        }
    }
}

impl PartialEqSpecImpl for BasisElt {
    open spec fn obeys_eq_spec() -> bool {
        true
    }

    open spec fn eq_spec(&self, other: &Self) -> bool {
        self@ == other@
    }
}

impl Eq for BasisElt {

}

impl BasisElt {
    /// Construct a `Path` from a slice, returning `None` for an empty slice.
    pub fn create(v: &[String]) -> (r: Option<Self>)
        ensures
            r is None <==> v@.len() == 0,
            r matches Some(b) ==> b@ == (false, v.deep_view()),
    {
        let mut copy: Vec<String> = Vec::new();
        let mut i: usize = 0;
        while i < v.len()
            invariant
                i <= v@.len(),
                copy.deep_view() == v.deep_view().take(i as int),
            decreases v@.len() - i,
        {
            copy.push(v[i].clone());
            proof {
                assert(v.deep_view().take(i + 1) =~= v.deep_view().take(i as int).push(v@[i as int]@));
            }
            i = i + 1;
        }
        assert(v.deep_view().take(i as int) =~= v.deep_view());
        match word_from_vec(copy) {
            Some(w) => Some(BasisElt::Path(w)),
            None => None,
        }
    }

    /// The same basis element with every vertex label replaced by what `fv`
    /// gives for it and every arrow label by what `fe` gives for it.
    pub fn map_labels<FV: Fn(String) -> String, FE: Fn(String) -> String>(self, fv: FV, fe: FE) -> (r: Self)
        requires
            forall|x: String| #[trigger] call_requires(fv, (x,)),
            forall|x: String| #[trigger] call_requires(fe, (x,)),
        ensures
            r@.0 == self@.0,
            r@.1.len() == self@.1.len(),
            self@.0 ==> labels_mapped(fv, self@.1, r@.1),
            !self@.0 ==> labels_mapped(fe, self@.1, r@.1),
    {
        match self {
            BasisElt::Idempotent(v) => {
                let ghost a = v;
                let w = fv(v);
                assert(call_ensures(fv, (a,), w));
                assert(a@ == seq![a@][0]);
                BasisElt::Idempotent(w)
            },
            BasisElt::Path(word) => {
                let labels = word_to_vec(&word);
                let ghost old = labels.deep_view();
                let mut out: Vec<String> = Vec::new();
                let ghost mut ins: Seq<String> = Seq::empty();
                let mut i: usize = 0;
                while i < labels.len()
                    invariant
                        forall|x: String| #[trigger] call_requires(fe, (x,)),
                        old == labels.deep_view(),
                        i <= labels@.len(),
                        out@.len() == i,
                        ins.len() == i,
                        forall|k: int| 0 <= k < i ==> (#[trigger] ins[k])@ == old[k] && call_ensures(fe, (ins[k],), out@[k]),
                    decreases labels@.len() - i,
                {
                    let a = labels[i].clone();
                    let ghost ga = a;
                    assert(ga@ == old[i as int]);
                    let b = fe(a);
                    out.push(b);
                    proof {
                        ins = ins.push(ga);
                    }
                    i = i + 1;
                }
                let ghost newv = out.deep_view();
                proof {
                    assert forall|k: int| 0 <= k < old.len() implies #[trigger] label_mapped_at(fe, old, newv, k) by {
                        assert(ins[k]@ == old[k] && call_ensures(fe, (ins[k],), out@[k]));
                        assert(newv[k] == out@[k]@);
                    }
                }
                match word_from_vec(out) {
                    Some(w) => BasisElt::Path(w),
                    None => {
                        assert(false);
                        BasisElt::Path(word)
                    },
                }
            },
        }
    }
}

/// The `k`-th label of `new` is what `f` gives for the `k`-th label of `old`.
pub open spec fn label_mapped_at<F: Fn(String) -> String>(f: F, old: Seq<Seq<char>>, new: Seq<Seq<char>>, k: int) -> bool {
    exists|a: String, b: String| a@ == old[k] && b@ == new[k] && #[trigger] call_ensures(f, (a,), b)
}

/// `new` is `old` with each label replaced by what `f` gives for it.
pub open spec fn labels_mapped<F: Fn(String) -> String>(f: F, old: Seq<Seq<char>>, new: Seq<Seq<char>>) -> bool {
    old.len() == new.len() && forall|k: int| 0 <= k < old.len() ==> #[trigger] label_mapped_at(f, old, new, k)
}

impl Quiver {
    /// The arrows and vertices that a product of `l` and `r` (in the `kQ^op`
    /// order) must look up are present: for a path next to an idempotent, the
    /// path's arrow at that side and the idempotent's vertex.
    pub open spec fn multiply_defined(self, l: BasisView, r: BasisView) -> bool {
        &&& (!l.0 && r.0) ==> self.has_arrow(l.1.last()) && self.has_vertex(r.1[0])
        &&& (l.0 && !r.0) ==> self.has_vertex(l.1[0]) && self.has_arrow(r.1[0])
    }

    /// The product in `kQ^op` of two basis elements, `l` followed by `r`: the
    /// concatenated path where the last arrow of `l` ends where the first arrow
    /// of `r` begins, a path unchanged by the idempotent at its end, and `e_v e_v = e_v`;
    /// `None` (zero) otherwise.
    pub open spec fn spec_multiply_op(self, l: BasisView, r: BasisView) -> Option<BasisView> {
        if !l.0 && !r.0 {
            if self.spec_composable(l.1.last(), r.1[0]) {
                Some((false, l.1 + r.1))
            } else {
                None
            }
        } else if !l.0 && r.0 {
            if self.target_node(l.1.last()) == self.node_of(r.1[0]) {
                Some(l)
            } else {
                None
            }
        } else if l.0 && !r.0 {
            if self.node_of(l.1[0]) == self.source_node(r.1[0]) {
                Some(r)
            } else {
                None
            }
        } else {
            if l.1[0] == r.1[0] {
                Some(l)
            } else {
                None
            }
        }
    }

    /// The product of `l` and `r` in `kQ^op` (`op`) or in `kQ`, where the
    /// product `l * r` of `kQ` is the product `r * l` of `kQ^op`.
    pub open spec fn spec_multiply(self, op: bool, l: BasisView, r: BasisView) -> Option<BasisView> {
        if op {
            self.spec_multiply_op(l, r)
        } else {
            self.spec_multiply_op(r, l)
        }
    }

    /// Multiplication of monomials in `kQ^{op}` (`OP_ALG`) or `kQ`. If the
    /// product is `0` because the pieces do not compose, the result is `None`;
    /// otherwise it is another monomial.
    pub fn multiply_basis<const OP_ALG: bool>(&self, l: &BasisElt, r: &BasisElt) -> (res: Option<
        BasisElt,
    >)
        requires
            self.wf(),
            OP_ALG ==> self.multiply_defined(l@, r@),
            !OP_ALG ==> self.multiply_defined(r@, l@),
        ensures
            res matches Some(b) ==> self.spec_multiply(OP_ALG, l@, r@) == Some(b@),
            res is None ==> self.spec_multiply(OP_ALG, l@, r@) is None,
    {
        if OP_ALG {
            self.multiply_basis_op(l, r)
        } else {
            self.multiply_basis_op(r, l)
        }
    }

    fn multiply_basis_op(&self, l: &BasisElt, r: &BasisElt) -> (res: Option<BasisElt>)
        requires
            self.wf(),
            self.multiply_defined(l@, r@),
        ensures
            res matches Some(b) ==> self.spec_multiply_op(l@, r@) == Some(b@),
            res is None ==> self.spec_multiply_op(l@, r@) is None,
    {
        match (l, r) {
            (BasisElt::Path(k1), BasisElt::Path(k2)) => {
                let a = word_last(k1);
                let b = word_first(k2);
                if self.composable(&a, &b) {
                    let mut v1 = word_to_vec(k1);
                    let mut v2 = word_to_vec(k2);
                    let ghost d1 = v1.deep_view();
                    let ghost d2 = v2.deep_view();
                    v1.append(&mut v2);
                    proof {
                        assert(v1.deep_view() =~= d1 + d2);
                    }
                    match word_from_vec(v1) {
                        Some(w) => Some(BasisElt::Path(w)),
                        None => None,
                    }
                } else {
                    None
                }
            },
            (BasisElt::Path(k1), BasisElt::Idempotent(w)) => {
                let a = word_last(k1);
                match (self.edge_endpoints(&a), self.vertex_idx(w)) {
                    (Some((_, should_be_w)), Some(w_idx)) => {
                        if w_idx == should_be_w {
                            Some(BasisElt::Path(word_clone(k1)))
                        } else {
                            None
                        }
                    },
                    _ => None,
                }
            },
            (BasisElt::Idempotent(w), BasisElt::Path(k2)) => {
                let b = word_first(k2);
                match (self.edge_endpoints(&b), self.vertex_idx(w)) {
                    (Some((should_be_w, _)), Some(w_idx)) => {
                        if w_idx == should_be_w {
                            Some(BasisElt::Path(word_clone(k2)))
                        } else {
                            None
                        }
                    },
                    _ => None,
                }
            },
            (BasisElt::Idempotent(v), BasisElt::Idempotent(w)) => {
                if *v == *w {
                    Some(BasisElt::Idempotent(v.clone()))
                } else {
                    proof {
                        assert(seq![v@][0] != seq![w@][0]);
                    }
                    None
                }
            },
        }
    }
}

impl Quiver {
    /// The vertex labels at the two ends of the sequence of arrows `w`: where
    /// its first arrow begins and its last arrow ends. `None` when `w` is empty
    /// or one of those two arrows is absent.
    pub open spec fn spec_path_ends(self, w: Seq<Seq<char>>) -> Option<(Seq<char>, Seq<char>)> {
        if w.len() == 0 || !self.has_arrow(w[0]) || !self.has_arrow(w.last()) {
            None
        } else {
            Some((self.nodes()[self.source_node(w[0])], self.nodes()[self.target_node(w.last())]))
        }
    }

    /// The vertex labels at the two ends of a basis element: `(v, v)` for the
    /// idempotent of `v`, the ends of the path otherwise.
    pub open spec fn spec_basis_ends(self, b: BasisView) -> Option<(Seq<char>, Seq<char>)> {
        if b.0 {
            Some((b.1[0], b.1[0]))
        } else {
            self.spec_path_ends(b.1)
        }
    }

    /// Source and target vertex labels of the sequence of arrows `path`.
    pub(crate) fn path_source_target_labels(&self, path: &[String]) -> (r: Option<(String, String)>)
        requires
            self.wf(),
        ensures
            r matches Some((s, t)) ==> self.spec_path_ends(path.deep_view()) == Some((s@, t@)),
            r is None ==> self.spec_path_ends(path.deep_view()) is None,
    {
        if path.len() == 0 {
            return None;
        }
        let first = &path[0];
        let last = &path[path.len() - 1];
        proof {
            assert(path.deep_view()[0] == first@);
            assert(path.deep_view().last() == last@);
        }
        match (self.edge_endpoint_labels(first), self.edge_endpoint_labels(last)) {
            (Some((src, _)), Some((_, tgt))) => Some((src, tgt)),
            _ => None,
        }
    }

    /// Returns `(source, target)` vertex labels for a basis element, or `None`
    /// if an arrow of it at either end is missing from the quiver.
    pub fn basis_endpoints(&self, basis: &BasisElt) -> (r: Option<(String, String)>)
        requires
            self.wf(),
        ensures
            r matches Some((s, t)) ==> self.spec_basis_ends(basis@) == Some((s@, t@)),
            r is None ==> self.spec_basis_ends(basis@) is None,
    {
        match basis {
            BasisElt::Idempotent(v) => Some((v.clone(), v.clone())),
            BasisElt::Path(word) => {
                let v = word_to_vec(word);
                self.path_source_target_labels(v.as_slice())
            },
        }
    }

    /// Whether `word` is a sequence of arrows of the quiver, each ending where the next begins.
    pub(crate) fn is_composable_path(&self, word: &[String]) -> (r: bool)
        requires
            self.wf(),
        ensures
            r == self.is_path(word.deep_view()),
    {
        let ghost w = word.deep_view();
        let mut i: usize = 0;
        while i < word.len()
            invariant
                self.wf(),
                w == word.deep_view(),
                i <= w.len(),
                forall|k: int| 0 <= k < i ==> self.has_arrow(#[trigger] w[k]),
            decreases w.len() - i,
        {
            if !self.contains_edge(&word[i]) {
                assert(!self.has_arrow(w[i as int]));
                return false;
            }
            i = i + 1;
        }
        let mut j: usize = 0;
        while j < i && j + 1 < i
            invariant
                self.wf(),
                w == word.deep_view(),
                i == w.len(),
                forall|k: int| 0 <= k < w.len() ==> self.has_arrow(#[trigger] w[k]),
                forall|k: int| 0 <= k < j ==> #[trigger] self.spec_composable(w[k], w[k + 1]),
            decreases w.len() - j,
        {
            if !self.composable(&word[j], &word[j + 1]) {
                assert(!self.spec_composable(w[j as int], w[j + 1]));
                return false;
            }
            j = j + 1;
        }
        true
    }

    /// Whether the nonempty `word` is a sequence of arrows of the quiver, each
    /// ending where the next begins.
    pub(crate) fn is_composable_arrow_word(&self, word: &NonEmpty<String>) -> (r: bool)
        requires
            self.wf(),
        ensures
            r == self.is_path(word_labels(*word)),
    {
        let v = word_to_vec(word);
        self.is_composable_path(v.as_slice())
    }
}

/// `dagger` may be applied to any label.
pub open spec fn renames_any<F: Fn(&String) -> String>(dagger: F) -> bool {
    forall|s: &String| #[trigger] call_requires(dagger, (s,))
}

/// `dagger` names the arrows of `q` afresh: never with the label of an arrow
/// of `q`, and different arrows with different labels.
pub open spec fn fresh_renaming<F: Fn(&String) -> String>(q: Quiver, dagger: F) -> bool {
    &&& forall|a: &String, l: String| #[trigger] call_ensures(dagger, (a,), l) && q.has_arrow(a@) ==> !q.has_arrow(l@)
    &&& forall|a: &String, b: &String, l: String, m: String|
        #[trigger] call_ensures(dagger, (a,), l) && #[trigger] call_ensures(dagger, (b,), m) && q.has_arrow(a@)
            && q.has_arrow(b@) && l@ == m@ ==> a@ == b@
}

impl Quiver {
    /// Room for `more` new arrows, each of which may be parallel to an existing one.
    pub open spec fn room_for_arrows(self, more: nat) -> bool {
        &&& self.nodes().len() + 2 < index_limit()
        &&& self.edges().len() + more + 1 < index_limit()
        &&& self.parallel_pairs() + more < 255
    }

    /// Return the doubled quiver together with the adjoint pairs `(a, a*)`.
    ///
    /// For each arrow `a: s -> t`, adds a reverse arrow `a* = dagger(a): t -> s`.
    pub fn double<F: Fn(&String) -> String>(self, dagger: F) -> (res: (Self, Vec<(String, String)>))
        requires
            self.wf(),
            renames_any(dagger),
            self.room_for_arrows(self.arrow_index().len()),
        ensures
            res.0.wf(),
            res.1@.len() == self.arrow_index().len(),
            forall|k: int, j: int|
                0 <= k < j < res.1@.len() ==> res.1@[k].0@ != res.1@[j].0@,
            forall|a: Seq<char>|
                #[trigger] self.has_arrow(a) <==> exists|k: int| #![trigger res.1@[k]] 0 <= k < res.1@.len() && res.1@[k].0@ == a,
            forall|k: int|
                0 <= k < res.1@.len() ==> call_ensures(dagger, (&res.1@[k].0,), #[trigger] res.1@[k].1),
            res.0.nodes() == self.nodes(),
            res.0.vertex_index() == self.vertex_index(),
            res.0.edges().len() == self.edges().len() + self.arrow_index().len(),
            res.0.parallel_pairs() <= self.parallel_pairs() + self.arrow_index().len(),
            forall|a: Seq<char>|
                #[trigger] res.0.has_arrow(a) <==> self.has_arrow(a) || exists|k: int|
                    #![trigger res.1@[k]]
                    0 <= k < res.1@.len() && res.1@[k].1@ == a,
            forall|e: nat| #[trigger] self.edges().contains_key(e) ==> res.0.edges().contains_key(e) && res.0.edges()[e] == self.edges()[e],
            fresh_renaming(self, dagger) ==> forall|a: Seq<char>|
                #[trigger] self.has_arrow(a) ==> res.0.arrow_index()[a] == self.arrow_index()[a],
            fresh_renaming(self, dagger) ==> forall|k: int|
                0 <= k < res.1@.len() ==> res.0.source_node(#[trigger] res.1@[k].1@) == self.node_of(
                    self.nodes()[self.target_node(res.1@[k].0@)],
                ) && res.0.target_node(res.1@[k].1@) == self.node_of(self.nodes()[self.source_node(res.1@[k].0@)]),
    {
        let ghost s0 = self;
        let mut q = self;
        let labels = q.edge_labels();
        proof {
            labels.deep_view().unique_seq_to_set();
            assert(labels.deep_view().to_set() =~= q.arrow_index().dom());
        }
        let ghost q0 = q;
        let mut new_edges: Vec<(String, String, String)> = Vec::new();
        let mut adjoint_pairs: Vec<(String, String)> = Vec::new();
        let mut i: usize = 0;
        while i < labels.len()
            invariant
                q == q0,
                q.wf(),
                renames_any(dagger),
                i <= labels@.len(),
                labels@.len() == q.arrow_index().len(),
                labels.deep_view().no_duplicates(),
                forall|a: Seq<char>| #[trigger] labels.deep_view().contains(a) <==> q.has_arrow(a),
                new_edges@.len() == i,
                adjoint_pairs@.len() == i,
                forall|k: int|
                    0 <= k < i ==> #[trigger] adjoint_pairs@[k].0 == labels@[k] && call_ensures(
                        dagger,
                        (&adjoint_pairs@[k].0,),
                        adjoint_pairs@[k].1,
                    ),
                forall|k: int| #![trigger new_edges@[k]]
                    0 <= k < i ==> new_edges@[k].2 == adjoint_pairs@[k].1 && q.has_vertex(
                        new_edges@[k].0@,
                    ) && q.has_vertex(new_edges@[k].1@) && new_edges@[k].0@ == q.nodes()[q.target_node(
                        labels@[k]@,
                    )] && new_edges@[k].1@ == q.nodes()[q.source_node(labels@[k]@)],
            decreases labels@.len() - i,
        {
            let edge = &labels[i];
            assert(labels.deep_view()[i as int] == edge@);
            assert(labels.deep_view().contains(edge@));
            match q.edge_endpoint_labels(edge) {
                Some((src, tgt)) => {
                    proof {
                        assert(q.nodes().contains_key(q.source_node(edge@)));
                        assert(q.nodes().contains_key(q.target_node(edge@)));
                    }
                    let dagger_edge = dagger(edge);
                    new_edges.push((tgt, src, dagger_edge.clone()));
                    adjoint_pairs.push((edge.clone(), dagger_edge));
                },
                None => {
                    assert(false);
                },
            }
            i = i + 1;
        }
        proof {
            assert forall|k: int| 0 <= k < new_edges@.len() implies call_ensures(
                dagger,
                (&labels@[k],),
                #[trigger] adjoint_pairs@[k].1,
            ) by {
                assert(adjoint_pairs@[k].0 == labels@[k]);
            }
            assert forall|k: int| 0 <= k < new_edges@.len() implies q0.has_arrow(#[trigger] labels@[k]@) by {
                assert(labels.deep_view()[k] == labels@[k]@);
                assert(labels.deep_view().contains(labels@[k]@));
            }
        }
        let mut j: usize = 0;
        while j < new_edges.len()
            invariant
                q.wf(),
                j <= new_edges@.len(),
                new_edges@.len() == labels@.len(),
                labels@.len() == q0.arrow_index().len(),
                q.nodes() == q0.nodes(),
                q.vertex_index() == q0.vertex_index(),
                q.edges().len() == q0.edges().len() + j,
                q.parallel_pairs() <= q0.parallel_pairs() + j,
                q0.room_for_arrows(q0.arrow_index().len()),
                forall|k: int| #![trigger new_edges@[k]]
                    0 <= k < new_edges@.len() ==> q0.has_vertex(new_edges@[k].0@)
                        && q0.has_vertex(new_edges@[k].1@),
                forall|a: Seq<char>|
                    #[trigger] q.has_arrow(a) <==> q0.has_arrow(a) || exists|k: int|
                        0 <= k < j && new_edges@[k].2@ == a,
                forall|e: nat| #[trigger] q0.edges().contains_key(e) ==> q.edges().contains_key(e) && q.edges()[e] == q0.edges()[e],
                forall|k: int| 0 <= k < new_edges@.len() ==> (#[trigger] new_edges@[k]).2 == adjoint_pairs@[k].1,
                forall|k: int|
                    0 <= k < new_edges@.len() ==> (#[trigger] new_edges@[k]).0@ == q0.nodes()[q0.target_node(
                        labels@[k]@,
                    )] && new_edges@[k].1@ == q0.nodes()[q0.source_node(labels@[k]@)],
                forall|k: int| 0 <= k < new_edges@.len() ==> (#[trigger] adjoint_pairs@[k]).0 == labels@[k],
                forall|k: int| 0 <= k < new_edges@.len() ==> call_ensures(dagger, (&labels@[k],), #[trigger] adjoint_pairs@[k].1),
                forall|k: int| 0 <= k < new_edges@.len() ==> q0.has_arrow(#[trigger] labels@[k]@),
                labels.deep_view().no_duplicates(),
                forall|k: int| 0 <= k < labels@.len() ==> #[trigger] labels.deep_view()[k] == labels@[k]@,
                fresh_renaming(q0, dagger) ==> forall|a: Seq<char>|
                    #[trigger] q0.has_arrow(a) ==> q.arrow_index()[a] == q0.arrow_index()[a],
                fresh_renaming(q0, dagger) ==> forall|k: int|
                    0 <= k < j ==> q.source_node(#[trigger] new_edges@[k].2@) == q0.node_of(new_edges@[k].0@)
                        && q.target_node(new_edges@[k].2@) == q0.node_of(new_edges@[k].1@),
            decreases new_edges@.len() - j,
        {
            let from = new_edges[j].0.clone();
            let to = new_edges[j].1.clone();
            let label = new_edges[j].2.clone();
            let ghost qb = q;
            assert(q0.has_vertex(new_edges@[j as int].0@));
            q.add_edge(from, to, label);
            proof {
                assert forall|a: Seq<char>|
                    #[trigger] q.has_arrow(a) <==> q0.has_arrow(a) || exists|k: int|
                        0 <= k < j + 1 && new_edges@[k].2@ == a by {
                    if qb.has_arrow(a) {
                    } else if a == new_edges@[j as int].2@ {
                    }
                }
                assert forall|e: nat| #[trigger] q0.edges().contains_key(e) implies q.edges().contains_key(e) && q.edges()[e] == q0.edges()[e] by {
                    assert(qb.edges().contains_key(e));
                }
                if fresh_renaming(q0, dagger) {
                    let lj = new_edges@[j as int].2@;
                    assert(call_ensures(dagger, (&labels@[j as int],), adjoint_pairs@[j as int].1));
                    assert(!q0.has_arrow(lj));
                    assert forall|a: Seq<char>| #[trigger] q0.has_arrow(a) implies q.arrow_index()[a] == q0.arrow_index()[a] by {
                        assert(a != lj);
                        assert(qb.has_arrow(a));
                    }
                    assert forall|k: int|
                        0 <= k < j + 1 implies q.source_node(#[trigger] new_edges@[k].2@) == q0.node_of(new_edges@[k].0@)
                            && q.target_node(new_edges@[k].2@) == q0.node_of(new_edges@[k].1@) by {
                        if k < j {
                            let lk = new_edges@[k].2@;
                            assert(call_ensures(dagger, (&labels@[k],), adjoint_pairs@[k].1));
                            assert(lk != lj) by {
                                if lk == lj {
                                    assert(labels@[k]@ == labels@[j as int]@);
                                    assert(labels.deep_view()[k] == labels.deep_view()[j as int]);
                                }
                            }
                            assert(qb.has_arrow(lk));
                            assert(q.arrow_index()[lk] == qb.arrow_index()[lk]);
                            assert(qb.edges().contains_key(qb.arrow_index()[lk] as nat));
                        }
                    }
                }
            }
            j = j + 1;
        }
        proof {
            assert forall|a: Seq<char>|
                #[trigger] q.has_arrow(a) <==> s0.has_arrow(a) || exists|k: int|
                    #![trigger adjoint_pairs@[k]]
                    0 <= k < adjoint_pairs@.len() && adjoint_pairs@[k].1@ == a by {
                assert(q0 == s0);
                if exists|k: int| 0 <= k < new_edges@.len() && new_edges@[k].2@ == a {
                    let k = choose|k: int| 0 <= k < new_edges@.len() && new_edges@[k].2@ == a;
                    assert(adjoint_pairs@[k].1 == new_edges@[k].2);
                }
                if exists|k: int| 0 <= k < adjoint_pairs@.len() && adjoint_pairs@[k].1@ == a {
                    let k = choose|k: int| 0 <= k < adjoint_pairs@.len() && adjoint_pairs@[k].1@ == a;
                    assert(adjoint_pairs@[k].1 == new_edges@[k].2);
                }
            }
            assert(q0 == s0);
            if fresh_renaming(s0, dagger) {
                assert forall|k: int|
                    0 <= k < adjoint_pairs@.len() implies q.source_node(#[trigger] adjoint_pairs@[k].1@) == s0.node_of(
                        s0.nodes()[s0.target_node(adjoint_pairs@[k].0@)],
                    ) && q.target_node(adjoint_pairs@[k].1@) == s0.node_of(s0.nodes()[s0.source_node(adjoint_pairs@[k].0@)]) by {
                    assert(new_edges@[k].2 == adjoint_pairs@[k].1);
                    assert(adjoint_pairs@[k].0 == labels@[k]);
                }
            }
            assert forall|a: Seq<char>|
                #[trigger] s0.has_arrow(a) <==> exists|k: int| #![trigger adjoint_pairs@[k]] 0 <= k < adjoint_pairs@.len() && adjoint_pairs@[k].0@ == a by {
                if q0.has_arrow(a) {
                    assert(labels.deep_view().contains(a));
                    let k = choose|k: int| 0 <= k < labels@.len() && labels.deep_view()[k] == a;
                    assert(adjoint_pairs@[k].0 == labels@[k]);
                }
                if exists|k: int| 0 <= k < adjoint_pairs@.len() && adjoint_pairs@[k].0@ == a {
                    let k = choose|k: int| 0 <= k < adjoint_pairs@.len() && adjoint_pairs@[k].0@ == a;
                    assert(adjoint_pairs@[k].0 == labels@[k]);
                    assert(labels.deep_view()[k] == a);
                }
            }
            assert forall|k: int, l: int|
                0 <= k < l < adjoint_pairs@.len() implies adjoint_pairs@[k].0@ != adjoint_pairs@[l].0@ by {
                assert(adjoint_pairs@[k].0 == labels@[k]);
                assert(adjoint_pairs@[l].0 == labels@[l]);
                assert(labels.deep_view()[k] != labels.deep_view()[l]);
            }
        }
        let res = (q, adjoint_pairs);
        assert(res.1@ == adjoint_pairs@);
        res
    }
}

/// `l` is what `make` gives for some vertex of `q`.
pub open spec fn made_at_vertex<G: Fn(&String) -> String>(q: Quiver, make: G, l: String) -> bool {
    exists|v: String| q.has_vertex(v@) && #[trigger] call_ensures(make, (&v,), l)
}

impl Quiver {
    /// The Ginzburg construction: the doubled quiver with, in addition, a
    /// self-loop `self_loop(v)` at every vertex `v`.
    ///
    /// Returns the new quiver, the adjoint pairs `(a, a*)` of the doubling, and
    /// the self-loops in the order of the vertices they were added at.
    pub fn ginzburgify<F: Fn(&String) -> String, G: Fn(&String) -> String>(
        self,
        dagger: F,
        self_loop: G,
    ) -> (res: (Self, Vec<(String, String)>, Vec<String>))
        requires
            self.wf(),
            renames_any(dagger),
            renames_any(self_loop),
            self.room_for_arrows(self.arrow_index().len() + self.vertex_index().len()),
        ensures
            res.0.wf(),
            res.0.nodes() == self.nodes(),
            res.0.vertex_index() == self.vertex_index(),
            res.1@.len() == self.arrow_index().len(),
            forall|k: int, j: int|
                0 <= k < j < res.1@.len() ==> res.1@[k].0@ != res.1@[j].0@,
            forall|a: Seq<char>|
                #[trigger] self.has_arrow(a) <==> exists|k: int|
                    #![trigger res.1@[k]]
                    0 <= k < res.1@.len() && res.1@[k].0@ == a,
            forall|k: int|
                0 <= k < res.1@.len() ==> call_ensures(dagger, (&res.1@[k].0,), #[trigger] res.1@[k].1),
            res.2@.len() == self.vertex_index().len(),
            forall|k: int|
                0 <= k < res.2@.len() ==> made_at_vertex(self, self_loop, #[trigger] res.2@[k]),
            forall|a: Seq<char>|
                #[trigger] res.0.has_arrow(a) <==> self.has_arrow(a) || (exists|k: int|
                    #![trigger res.1@[k]]
                    0 <= k < res.1@.len() && res.1@[k].1@ == a) || (exists|k: int|
                    #![trigger res.2@[k]]
                    0 <= k < res.2@.len() && res.2@[k]@ == a),
    {
        let ghost s0 = self;
        let vertex_labels = self.vertex_labels();
        proof {
            vertex_labels.deep_view().unique_seq_to_set();
            assert(vertex_labels.deep_view().to_set() =~= self.vertex_index().dom());
        }
        let (mut new_self, adjoint_pairs) = self.double(dagger);
        let ghost q1 = new_self;
        let mut new_self_loops: Vec<String> = Vec::new();
        let mut i: usize = 0;
        while i < vertex_labels.len()
            invariant
                new_self.wf(),
                renames_any(self_loop),
                i <= vertex_labels@.len(),
                vertex_labels@.len() == s0.vertex_index().len(),
                forall|v: Seq<char>| #[trigger] vertex_labels.deep_view().contains(v) <==> s0.has_vertex(v),
                q1.wf(),
                q1.nodes() == s0.nodes(),
                q1.vertex_index() == s0.vertex_index(),
                new_self.nodes() == s0.nodes(),
                new_self.vertex_index() == s0.vertex_index(),
                new_self.edges().len() == q1.edges().len() + i,
                new_self.parallel_pairs() <= q1.parallel_pairs() + i,
                q1.edges().len() <= s0.edges().len() + s0.arrow_index().len(),
                q1.parallel_pairs() <= s0.parallel_pairs() + s0.arrow_index().len(),
                s0.room_for_arrows(s0.arrow_index().len() + s0.vertex_index().len()),
                new_self_loops@.len() == i,
                forall|k: int|
                    0 <= k < i ==> call_ensures(self_loop, (&vertex_labels@[k],), #[trigger] new_self_loops@[k]),
                forall|a: Seq<char>|
                    #[trigger] new_self.has_arrow(a) <==> q1.has_arrow(a) || exists|k: int|
                        #![trigger new_self_loops@[k]]
                        0 <= k < i && new_self_loops@[k]@ == a,
            decreases vertex_labels@.len() - i,
        {
            let v = &vertex_labels[i];
            assert(vertex_labels.deep_view()[i as int] == v@);
            assert(vertex_labels.deep_view().contains(v@));
            let loop_label = self_loop(v);
            let ghost loops_before = new_self_loops@;
            let ghost qb = new_self;
            assert(forall|a: Seq<char>|
                #[trigger] qb.has_arrow(a) <==> q1.has_arrow(a) || exists|k: int|
                    #![trigger loops_before[k]]
                    0 <= k < i && loops_before[k]@ == a);
            new_self_loops.push(loop_label.clone());
            assert(new_self_loops@ == loops_before.push(loop_label));
            new_self.add_edge(v.clone(), v.clone(), loop_label);
            proof {
                assert forall|a: Seq<char>|
                    #[trigger] new_self.has_arrow(a) <==> q1.has_arrow(a) || exists|k: int|
                        #![trigger new_self_loops@[k]]
                        0 <= k < i + 1 && new_self_loops@[k]@ == a by {
                    if a == new_self_loops@[i as int]@ {
                        assert(new_self.has_arrow(a));
                    } else {
                        assert(new_self.has_arrow(a) == qb.has_arrow(a));
                        if qb.has_arrow(a) && !q1.has_arrow(a) {
                            let k = choose|k: int| #![trigger loops_before[k]] 0 <= k < i && loops_before[k]@ == a;
                            assert(new_self_loops@[k] == loops_before[k]);
                        }
                        if exists|k: int| #![trigger new_self_loops@[k]] 0 <= k < i + 1 && new_self_loops@[k]@ == a {
                            let k = choose|k: int| #![trigger new_self_loops@[k]] 0 <= k < i + 1 && new_self_loops@[k]@ == a;
                            assert(k < i);
                            assert(new_self_loops@[k] == loops_before[k]);
                        }
                    }
                }
            }
            i = i + 1;
        }
        proof {
            assert forall|k: int|
                0 <= k < new_self_loops@.len() implies made_at_vertex(s0, self_loop, #[trigger] new_self_loops@[k]) by {
                assert(vertex_labels.deep_view()[k] == vertex_labels@[k]@);
                assert(vertex_labels.deep_view().contains(vertex_labels@[k]@));
                assert(call_ensures(self_loop, (&vertex_labels@[k],), new_self_loops@[k]));
                assert(s0.has_vertex(vertex_labels@[k]@));
            }
        }
        let res = (new_self, adjoint_pairs, new_self_loops);
        assert(res.1@ == adjoint_pairs@);
        assert(res.2@ == new_self_loops@);
        res
    }
}


/// `l` is a framing arrow label and new vertex that `make` gives for some
/// vertex of `q`.
pub open spec fn framing_at_vertex<G: Fn(&String) -> (String, String)>(q: Quiver, make: G, l: (String, String)) -> bool {
    exists|v: String| q.has_vertex(v@) && #[trigger] call_ensures(make, (&v,), l)
}

/// The framing `f` has the arrow label `a`, as its framing arrow or as the
/// adjoint of that arrow.
pub open spec fn framing_names(f: (String, String, Option<String>), a: Seq<char>) -> bool {
    f.0@ == a || (f.2 matches Some(d) && d@ == a)
}

/// `make` may be applied to any label.
pub open spec fn frames_any<G: Fn(&String) -> (String, String)>(make: G) -> bool {
    forall|s: &String| #[trigger] call_requires(make, (s,))
}

impl Quiver {
    /// The heart construction: the doubled quiver with, for every vertex `v`,
    /// a framing arrow from a new vertex into `v` (both as `framing_creation(v)`
    /// gives them) and, where `framings_daggered`, the framing arrow's adjoint
    /// `dagger` of it back out of `v`.
    ///
    /// Returns the new quiver, the adjoint pairs `(a, a*)` of the doubling, and
    /// for each vertex (in the order they were handled) the framing arrow, the
    /// new vertex and the adjoint of the framing arrow where there is one.
    pub fn heartify<F: Fn(&String) -> String, G: Fn(&String) -> (String, String)>(
        self,
        dagger: F,
        framing_creation: G,
        framings_daggered: bool,
    ) -> (res: (Self, Vec<(String, String)>, Vec<(String, String, Option<String>)>))
        requires
            self.wf(),
            renames_any(dagger),
            frames_any(framing_creation),
            self.nodes().len() + self.vertex_index().len() + 2 < index_limit(),
            self.edges().len() + self.arrow_index().len() + 2 * self.vertex_index().len() + 1 < index_limit(),
            self.parallel_pairs() + self.arrow_index().len() + 2 * self.vertex_index().len() < 255,
        ensures
            res.0.wf(),
            res.1@.len() == self.arrow_index().len(),
            forall|a: Seq<char>|
                #[trigger] self.has_arrow(a) <==> exists|k: int|
                    #![trigger res.1@[k]]
                    0 <= k < res.1@.len() && res.1@[k].0@ == a,
            forall|k: int|
                0 <= k < res.1@.len() ==> call_ensures(dagger, (&res.1@[k].0,), #[trigger] res.1@[k].1),
            res.2@.len() == self.vertex_index().len(),
            forall|k: int|
                0 <= k < res.2@.len() ==> framing_at_vertex(self, framing_creation, ((#[trigger] res.2@[k]).0, res.2@[k].1)),
            forall|k: int|
                0 <= k < res.2@.len() ==> ((#[trigger] res.2@[k]).2 is Some <==> framings_daggered) && (res.2@[k].2 matches Some(
                    d,
                ) ==> call_ensures(dagger, (&res.2@[k].0,), d)),
            forall|v: Seq<char>|
                #[trigger] res.0.has_vertex(v) <==> self.has_vertex(v) || exists|k: int|
                    #![trigger res.2@[k]]
                    0 <= k < res.2@.len() && res.2@[k].1@ == v,
            forall|a: Seq<char>|
                #[trigger] res.0.has_arrow(a) <==> self.has_arrow(a) || (exists|k: int|
                    #![trigger res.1@[k]]
                    0 <= k < res.1@.len() && res.1@[k].1@ == a) || (exists|k: int|
                    #![trigger res.2@[k]]
                    0 <= k < res.2@.len() && framing_names(res.2@[k], a)),
    {
        let ghost s0 = self;
        let vertices = self.vertex_labels();
        proof {
            vertices.deep_view().unique_seq_to_set();
            assert(vertices.deep_view().to_set() =~= self.vertex_index().dom());
        }
        let (mut new_self, adjoint_pairs) = self.double(&dagger);
        let ghost q1 = new_self;
        let mut framings: Vec<(String, String, Option<String>)> = Vec::new();
        let mut i: usize = 0;
        while i < vertices.len()
            invariant
                new_self.wf(),
                renames_any(dagger),
                frames_any(framing_creation),
                i <= vertices@.len(),
                vertices@.len() == s0.vertex_index().len(),
                forall|v: Seq<char>| #[trigger] vertices.deep_view().contains(v) <==> s0.has_vertex(v),
                q1.wf(),
                q1.nodes() == s0.nodes(),
                q1.vertex_index() == s0.vertex_index(),
                forall|v: Seq<char>| #[trigger] q1.has_vertex(v) <==> s0.has_vertex(v),
                new_self.nodes().len() <= q1.nodes().len() + i,
                new_self.edges().len() <= q1.edges().len() + 2 * i,
                new_self.parallel_pairs() <= q1.parallel_pairs() + 2 * i,
                q1.edges().len() <= s0.edges().len() + s0.arrow_index().len(),
                q1.parallel_pairs() <= s0.parallel_pairs() + s0.arrow_index().len(),
                s0.nodes().len() + s0.vertex_index().len() + 2 < index_limit(),
                s0.edges().len() + s0.arrow_index().len() + 2 * s0.vertex_index().len() + 1 < index_limit(),
                s0.parallel_pairs() + s0.arrow_index().len() + 2 * s0.vertex_index().len() < 255,
                framings@.len() == i,
                forall|k: int|
                    0 <= k < i ==> call_ensures(framing_creation, (&vertices@[k],), ((#[trigger] framings@[k]).0, framings@[k].1)),
                forall|k: int|
                    0 <= k < i ==> ((#[trigger] framings@[k]).2 is Some <==> framings_daggered) && (framings@[k].2 matches Some(
                        d,
                    ) ==> call_ensures(dagger, (&framings@[k].0,), d)),
                forall|v: Seq<char>|
                    #[trigger] new_self.has_vertex(v) <==> s0.has_vertex(v) || exists|k: int|
                        #![trigger framings@[k]]
                        0 <= k < i && framings@[k].1@ == v,
                forall|a: Seq<char>|
                    #[trigger] new_self.has_arrow(a) <==> q1.has_arrow(a) || exists|k: int|
                        #![trigger framings@[k]]
                        0 <= k < i && framing_names(framings@[k], a),
            decreases vertices@.len() - i,
        {
            let v = &vertices[i];
            assert(vertices.deep_view()[i as int] == v@);
            assert(vertices.deep_view().contains(v@));
            let (edge_label, new_vertex) = framing_creation(v);
            let ghost before = new_self;
            let ghost fr_before = framings@;
            new_self.add_edge(new_vertex.clone(), v.clone(), edge_label.clone());
            let ghost after_first = new_self;
            let mut back: Option<String> = None;
            if framings_daggered {
                let d = dagger(&edge_label);
                new_self.add_edge(v.clone(), new_vertex.clone(), d.clone());
                back = Some(d);
            }
            framings.push((edge_label, new_vertex, back));
            proof {
                assert(framings@[i as int] == (edge_label, new_vertex, back));
                assert forall|k: int| 0 <= k < i implies framings@[k] == fr_before[k] by {}
                assert forall|x: Seq<char>|
                    #[trigger] new_self.has_vertex(x) <==> s0.has_vertex(x) || exists|k: int|
                        #![trigger framings@[k]]
                        0 <= k < i + 1 && framings@[k].1@ == x by {
                    if new_self.has_vertex(x) && !s0.has_vertex(x) {
                        if x == new_vertex@ {
                            assert(framings@[i as int].1@ == x);
                        } else {
                            assert(before.has_vertex(x));
                            let k = choose|k: int| #![trigger fr_before[k]] 0 <= k < i && fr_before[k].1@ == x;
                            assert(framings@[k] == fr_before[k]);
                        }
                    }
                    if exists|k: int| #![trigger framings@[k]] 0 <= k < i + 1 && framings@[k].1@ == x {
                        let k = choose|k: int| #![trigger framings@[k]] 0 <= k < i + 1 && framings@[k].1@ == x;
                        if k < i {
                            assert(framings@[k] == fr_before[k]);
                            assert(before.has_vertex(x));
                        }
                    }
                }
                assert forall|a: Seq<char>|
                    #[trigger] new_self.has_arrow(a) <==> q1.has_arrow(a) || exists|k: int|
                        #![trigger framings@[k]]
                        0 <= k < i + 1 && framing_names(framings@[k], a) by {
                    if new_self.has_arrow(a) && !q1.has_arrow(a) {
                        if framing_names((edge_label, new_vertex, back), a) {
                            assert(framings@[i as int].0@ == edge_label@);
                        } else {
                            assert(after_first.has_arrow(a));
                            assert(before.has_arrow(a));
                            let k = choose|k: int|
                                #![trigger fr_before[k]]
                                0 <= k < i && framing_names(fr_before[k], a);
                            assert(framings@[k] == fr_before[k]);
                        }
                    }
                    if exists|k: int|
                        #![trigger framings@[k]]
                        0 <= k < i + 1 && framing_names(framings@[k], a) {
                        let k = choose|k: int|
                            #![trigger framings@[k]]
                            0 <= k < i + 1 && framing_names(framings@[k], a);
                        if k < i {
                            assert(framings@[k] == fr_before[k]);
                            assert(before.has_arrow(a));
                            assert(after_first.has_arrow(a));
                        } else {
                            assert(after_first.has_arrow(edge_label@));
                        }
                    }
                }
            }
            i = i + 1;
        }
        proof {
            assert forall|k: int|
                0 <= k < framings@.len() implies framing_at_vertex(s0, framing_creation, ((#[trigger] framings@[k]).0, framings@[k].1)) by {
                assert(vertices.deep_view()[k] == vertices@[k]@);
                assert(vertices.deep_view().contains(vertices@[k]@));
                assert(call_ensures(framing_creation, (&vertices@[k],), (framings@[k].0, framings@[k].1)));
            }
        }
        let res = (new_self, adjoint_pairs, framings);
        assert(res.1@ == adjoint_pairs@);
        assert(res.2@ == framings@);
        res
    }
}

/// Pairs of labels as plain values.
pub open spec fn pairs_view(r: Seq<(String, String)>) -> Seq<(Seq<char>, Seq<char>)> {
    r.map_values(|p: (String, String)| (p.0@, p.1@))
}

impl Quiver {
    /// `r` lists, for the edges `es` at node `i` (leaving it where `outgoing`,
    /// entering it otherwise), each once, the edge's label and the vertex at
    /// its other end.
    pub open spec fn lists_neighbours(
        self,
        i: nat,
        outgoing: bool,
        es: Seq<usize>,
        r: Seq<(Seq<char>, Seq<char>)>,
    ) -> bool {
        &&& es.no_duplicates()
        &&& forall|e: usize| #[trigger] es.contains(e) <==> edge_at_node(self.edges(), e as nat, i, outgoing)
        &&& r.len() == es.len()
        &&& forall|k: int|
            0 <= k < r.len() ==> #[trigger] r[k] == (
                self.edges()[es[k] as nat].2,
                self.nodes()[if outgoing {
                    self.edges()[es[k] as nat].1
                } else {
                    self.edges()[es[k] as nat].0
                }],
            )
    }

    /// The arrows at `vertex`, with the vertex at their other end.
    fn neighbours(&self, vertex: &String, outgoing: bool) -> (r: Vec<(String, String)>)
        requires
            self.wf(),
            self.has_vertex(vertex@),
        ensures
            exists|es: Seq<usize>|
                #[trigger] self.lists_neighbours(
                    self.node_of(vertex@),
                    outgoing,
                    es,
                    pairs_view(r@),
                ),
    {
        let ghost q = *self;
        let i = match self.vertex_idx(vertex) {
            Some(i) => i,
            None => {
                assert(false);
                return Vec::new();
            },
        };
        assert(self.nodes().contains_key(i as nat));
        let es = graph_edges_directed(&self.p, i, outgoing);
        let mut out: Vec<(String, String)> = Vec::new();
        let mut k: usize = 0;
        while k < es.len()
            invariant
                self.wf(),
                i as nat == self.node_of(vertex@),
                i < index_limit(),
                es@.no_duplicates(),
                forall|e: usize| #[trigger] es@.contains(e) <==> edge_at_node(self.edges(), e as nat, i as nat, outgoing),
                k <= es@.len(),
                out@.len() == k,
                forall|j: int|
                    0 <= j < k ==> #[trigger] pairs_view(out@)[j] == (
                        self.edges()[es@[j] as nat].2,
                        self.nodes()[if outgoing {
                            self.edges()[es@[j] as nat].1
                        } else {
                            self.edges()[es@[j] as nat].0
                        }],
                    ),
            decreases es@.len() - k,
        {
            let e = es[k];
            assert(es@.contains(e));
            assert(self.edges().contains_key(e as nat));
            let label = graph_edge_weight(&self.p, e);
            let ends = graph_edge_endpoints(&self.p, e);
            match (label, ends) {
                (Some(l), Some((s, t))) => {
                    let other = if outgoing {
                        t
                    } else {
                        s
                    };
                    match graph_node_weight(&self.p, other) {
                        Some(w) => {
                            let ghost before = out@;
                            out.push((l, w));
                            proof {
                                assert forall|j: int| 0 <= j < k + 1 implies #[trigger] pairs_view(out@)[j] == pairs_view(before.push((l, w)))[j] by {}
                                assert(pairs_view(out@)[k as int] == (l@, w@));
                                assert forall|j: int| 0 <= j < k implies #[trigger] pairs_view(out@)[j] == pairs_view(before)[j] by {
                                    assert(out@[j] == before[j]);
                                }
                            }
                        },
                        None => {
                            assert(false);
                        },
                    }
                },
                _ => {
                    assert(false);
                },
            }
            k = k + 1;
        }
        proof {
            let rv = pairs_view(out@);
            assert(self.lists_neighbours(self.node_of(vertex@), outgoing, es@, rv));
        }
        out
    }

    /// The outgoing arrows of `vertex` as `(edge label, target label)` pairs.
    pub fn successors(&self, vertex: &String) -> (r: Vec<(String, String)>)
        requires
            self.wf(),
            self.has_vertex(vertex@),
        ensures
            exists|es: Seq<usize>|
                #[trigger] self.lists_neighbours(
                    self.node_of(vertex@),
                    true,
                    es,
                    pairs_view(r@),
                ),
    {
        self.neighbours(vertex, true)
    }

    /// The incoming arrows of `vertex` as `(edge label, source label)` pairs.
    pub fn predecessors(&self, vertex: &String) -> (r: Vec<(String, String)>)
        requires
            self.wf(),
            self.has_vertex(vertex@),
        ensures
            exists|es: Seq<usize>|
                #[trigger] self.lists_neighbours(
                    self.node_of(vertex@),
                    false,
                    es,
                    pairs_view(r@),
                ),
    {
        self.neighbours(vertex, false)
    }
}

} // verus!

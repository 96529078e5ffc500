//! Operations building one quiver from others.
use crate::graph::index_limit;
use crate::quiver::Quiver;
use vstd::prelude::*;

verus! {

/// The labels of the vertices arrow `a` of `q` leaves and enters.
pub open spec fn arrow_ends(q: Quiver, a: Seq<char>) -> (Seq<char>, Seq<char>) {
    (q.nodes()[q.source_node(a)], q.nodes()[q.target_node(a)])
}

impl Quiver {
    /// The disjoint union of two quivers with no vertex label and no arrow
    /// label in common: the vertices and arrows of both, each arrow joining
    /// the vertices it joined before.
    pub fn disjoint_union(self, other: Self) -> (r: Self)
        requires
            self.wf(),
            other.wf(),
            forall|v: Seq<char>| !(#[trigger] self.has_vertex(v) && other.has_vertex(v)),
            forall|a: Seq<char>| !(#[trigger] self.has_arrow(a) && other.has_arrow(a)),
            self.nodes().len() + other.vertex_index().len() + 3 < index_limit(),
            self.edges().len() + other.arrow_index().len() + 2 < index_limit(),
            self.parallel_pairs() + other.arrow_index().len() < 255,
        ensures
            r.wf(),
            forall|v: Seq<char>| #[trigger] r.has_vertex(v) <==> self.has_vertex(v) || other.has_vertex(v),
            forall|a: Seq<char>| #[trigger] r.has_arrow(a) <==> self.has_arrow(a) || other.has_arrow(a),
            forall|a: Seq<char>| #[trigger] self.has_arrow(a) ==> arrow_ends(r, a) == arrow_ends(self, a),
            forall|a: Seq<char>| #[trigger] other.has_arrow(a) ==> arrow_ends(r, a) == arrow_ends(other, a),
    {
        let ghost s0 = self;
        let mut q = self;
        let vertices = other.vertex_labels();
        proof {
            vertices.deep_view().unique_seq_to_set();
            assert(vertices.deep_view().to_set() =~= other.vertex_index().dom());
        }
        let mut i: usize = 0;
        while i < vertices.len()
            invariant
                q.wf(),
                s0.wf(),
                other.wf(),
                i <= vertices@.len(),
                vertices@.len() == other.vertex_index().len(),
                forall|v: Seq<char>| #[trigger] vertices.deep_view().contains(v) <==> other.has_vertex(v),
                forall|v: Seq<char>| !(#[trigger] s0.has_vertex(v) && other.has_vertex(v)),
                s0.nodes().len() + other.vertex_index().len() + 3 < index_limit(),
                s0.edges().len() + other.arrow_index().len() + 2 < index_limit(),
                q.nodes().len() == s0.nodes().len() + i,
                q.edges() == s0.edges(),
                q.arrow_index() == s0.arrow_index(),
                q.parallel_pairs() == s0.parallel_pairs(),
                forall|n: nat| #[trigger] s0.nodes().contains_key(n) ==> q.nodes().contains_key(n) && q.nodes()[n]
                    == s0.nodes()[n],
                forall|v: Seq<char>|
                    #[trigger] q.has_vertex(v) <==> s0.has_vertex(v) || exists|k: int| 0 <= k < i && vertices.deep_view()[k] == v,
            decreases vertices@.len() - i,
        {
            let ghost before = q;
            assert(vertices.deep_view()[i as int] == vertices@[i as int]@);
            q.add_vertex(vertices[i].clone());
            proof {
                assert(q.nodes().len() == before.nodes().len() + 1);
                assert forall|v: Seq<char>|
                    #[trigger] q.has_vertex(v) <==> s0.has_vertex(v) || exists|k: int|
                        0 <= k < i + 1 && vertices.deep_view()[k] == v by {
                    if v == vertices.deep_view()[i as int] {
                    } else if before.has_vertex(v) && !s0.has_vertex(v) {
                        let k = choose|k: int| 0 <= k < i && vertices.deep_view()[k] == v;
                    } else if exists|k: int| 0 <= k < i + 1 && vertices.deep_view()[k] == v {
                        let k = choose|k: int| 0 <= k < i + 1 && vertices.deep_view()[k] == v;
                        assert(k < i);
                    }
                }
            }
            i = i + 1;
        }
        proof {
            assert forall|v: Seq<char>| #[trigger] q.has_vertex(v) <==> s0.has_vertex(v) || other.has_vertex(v) by {
                if other.has_vertex(v) {
                    assert(vertices.deep_view().contains(v));
                    let k = choose|k: int| 0 <= k < vertices.deep_view().len() && vertices.deep_view()[k] == v;
                }
                if exists|k: int| 0 <= k < i && vertices.deep_view()[k] == v {
                    let k = choose|k: int| 0 <= k < i && vertices.deep_view()[k] == v;
                    assert(vertices.deep_view().contains(v));
                }
            }
        }
        let ghost q1 = q;
        let edges = other.edge_labels();
        proof {
            edges.deep_view().unique_seq_to_set();
            assert(edges.deep_view().to_set() =~= other.arrow_index().dom());
        }
        let mut k: usize = 0;
        while k < edges.len()
            invariant
                q.wf(),
                s0.wf(),
                other.wf(),
                q1.wf(),
                k <= edges@.len(),
                edges@.len() == other.arrow_index().len(),
                edges.deep_view().no_duplicates(),
                forall|a: Seq<char>| #[trigger] edges.deep_view().contains(a) <==> other.has_arrow(a),
                forall|a: Seq<char>| !(#[trigger] s0.has_arrow(a) && other.has_arrow(a)),
                forall|v: Seq<char>| #[trigger] q.has_vertex(v) <==> s0.has_vertex(v) || other.has_vertex(v),
                forall|v: Seq<char>| #[trigger] q1.has_vertex(v) <==> s0.has_vertex(v) || other.has_vertex(v),
                q.nodes() == q1.nodes(),
                q.vertex_index() == q1.vertex_index(),
                q1.edges() == s0.edges(),
                q1.arrow_index() == s0.arrow_index(),
                q1.parallel_pairs() == s0.parallel_pairs(),
                q1.nodes().len() + 3 < index_limit(),
                q.edges().len() == s0.edges().len() + k,
                s0.edges().len() + other.arrow_index().len() + 2 < index_limit(),
                q.parallel_pairs() <= s0.parallel_pairs() + k,
                s0.parallel_pairs() + other.arrow_index().len() < 255,
                forall|n: nat| #[trigger] s0.nodes().contains_key(n) ==> q1.nodes().contains_key(n) && q1.nodes()[n]
                    == s0.nodes()[n],
                forall|a: Seq<char>|
                    #[trigger] q.has_arrow(a) <==> s0.has_arrow(a) || exists|j: int| 0 <= j < k && edges.deep_view()[j] == a,
                forall|a: Seq<char>| #[trigger] s0.has_arrow(a) ==> q.arrow_index()[a] == s0.arrow_index()[a],
                forall|e: nat| #[trigger] s0.edges().contains_key(e) ==> q.edges().contains_key(e) && q.edges()[e]
                    == s0.edges()[e],
                forall|j: int| 0 <= j < k ==> arrow_ends(q, #[trigger] edges.deep_view()[j]) == arrow_ends(other, edges.deep_view()[j]),
            decreases edges@.len() - k,
        {
            let e = &edges[k];
            assert(edges.deep_view()[k as int] == e@);
            assert(edges.deep_view().contains(e@));
            let (s, t) = match other.edge_endpoint_labels(e) {
                Some(p) => p,
                None => {
                    assert(false);
                    return q;
                },
            };
            proof {
                assert(other.edges().contains_key(other.arrow_index()[e@] as nat));
                assert(other.has_vertex(s@));
                assert(other.has_vertex(t@));
            }
            let ghost before = q;
            let lab = e.clone();
            assert(lab@ == e@);
            q.add_edge(s, t, lab);
            proof {
                assert(q.arrow_index().dom() == before.arrow_index().dom().insert(e@));
                assert(q.has_vertex(s@));
                assert(q.has_vertex(t@));
                assert(!before.has_arrow(e@)) by {
                    if before.has_arrow(e@) {
                        if !s0.has_arrow(e@) {
                            let j = choose|j: int| 0 <= j < k && edges.deep_view()[j] == e@;
                            assert(edges.deep_view()[j] == edges.deep_view()[k as int]);
                        }
                    }
                }
                assert forall|a: Seq<char>|
                    #[trigger] q.has_arrow(a) <==> s0.has_arrow(a) || exists|j: int| 0 <= j < k + 1 && edges.deep_view()[j] == a by {
                    if a == e@ {
                        assert(edges.deep_view()[k as int] == a);
                        assert(q.has_arrow(a));
                    } else {
                        assert(q.has_arrow(a) == before.has_arrow(a));
                        if before.has_arrow(a) && !s0.has_arrow(a) {
                            let j = choose|j: int| 0 <= j < k && edges.deep_view()[j] == a;
                            assert(edges.deep_view()[j] == a);
                        }
                        if exists|j: int| 0 <= j < k + 1 && edges.deep_view()[j] == a {
                            let j = choose|j: int| 0 <= j < k + 1 && edges.deep_view()[j] == a;
                            assert(j < k);
                            assert(before.has_arrow(a));
                        }
                    }
                }
                assert forall|a: Seq<char>| #[trigger] s0.has_arrow(a) implies q.arrow_index()[a] == s0.arrow_index()[a] by {
                    assert(a != e@);
                    assert(before.has_arrow(a));
                }
                assert forall|x: nat| #[trigger] s0.edges().contains_key(x) implies q.edges().contains_key(x) && q.edges()[x]
                    == s0.edges()[x] by {
                    assert(before.edges().contains_key(x));
                }
                assert forall|j: int| 0 <= j < k + 1 implies arrow_ends(q, #[trigger] edges.deep_view()[j]) == arrow_ends(
                    other,
                    edges.deep_view()[j],
                ) by {
                    let a = edges.deep_view()[j];
                    if j == k {
                        assert(q.nodes()[q.node_of(s@)] == s@);
                        assert(q.nodes()[q.node_of(t@)] == t@);
                    } else {
                        assert(a != e@) by {
                            assert(edges.deep_view()[j] != edges.deep_view()[k as int]);
                        }
                        assert(before.has_arrow(a));
                        assert(q.arrow_index()[a] == before.arrow_index()[a]);
                        assert(before.edges().contains_key(before.arrow_index()[a] as nat));
                        assert(arrow_ends(before, a) == arrow_ends(other, a));
                    }
                }
            }
            k = k + 1;
        }
        proof {
            assert forall|a: Seq<char>| #[trigger] q.has_arrow(a) <==> s0.has_arrow(a) || other.has_arrow(a) by {
                if other.has_arrow(a) {
                    assert(edges.deep_view().contains(a));
                    let j = choose|j: int| 0 <= j < edges.deep_view().len() && edges.deep_view()[j] == a;
                }
                if exists|j: int| 0 <= j < k && edges.deep_view()[j] == a {
                    let j = choose|j: int| 0 <= j < k && edges.deep_view()[j] == a;
                    assert(edges.deep_view().contains(a));
                }
            }
            assert forall|a: Seq<char>| #[trigger] s0.has_arrow(a) implies arrow_ends(q, a) == arrow_ends(s0, a) by {
                assert(s0.edges().contains_key(s0.arrow_index()[a] as nat));
            }
            assert forall|a: Seq<char>| #[trigger] other.has_arrow(a) implies arrow_ends(q, a) == arrow_ends(other, a) by {
                assert(edges.deep_view().contains(a));
                let j = choose|j: int| 0 <= j < edges.deep_view().len() && edges.deep_view()[j] == a;
                assert(arrow_ends(q, edges.deep_view()[j]) == arrow_ends(other, edges.deep_view()[j]));
            }
        }
        q
    }
    /// The opposite quiver: every arrow reversed, labels unchanged.
    pub fn opposite(self) -> (r: Self)
        requires
            self.wf(),
            self.edges().len() < index_limit(),
        ensures
            r.wf(),
            r.nodes() == self.nodes(),
            r.vertex_index() == self.vertex_index(),
            forall|a: Seq<char>| #[trigger] r.has_arrow(a) <==> self.has_arrow(a),
            forall|a: Seq<char>|
                #[trigger] self.has_arrow(a) ==> arrow_ends(r, a) == (arrow_ends(self, a).1, arrow_ends(self, a).0),
    {
        let ghost s0 = self;
        let mut q = self;
        let labels = q.edge_labels();
        let mut i: usize = 0;
        while i < labels.len()
            invariant
                q.wf(),
                s0.wf(),
                q.nodes() == s0.nodes(),
                q.vertex_index() == s0.vertex_index(),
                q.arrow_index().dom() == s0.arrow_index().dom(),
                q.edges().len() == s0.edges().len(),
                s0.edges().len() < index_limit(),
                i <= labels@.len(),
                labels.deep_view().no_duplicates(),
                forall|a: Seq<char>| #[trigger] labels.deep_view().contains(a) <==> s0.has_arrow(a),
                forall|j: int|
                    0 <= j < i ==> q.source_node(#[trigger] labels.deep_view()[j]) == s0.target_node(labels.deep_view()[j])
                        && q.target_node(labels.deep_view()[j]) == s0.source_node(labels.deep_view()[j]),
                forall|j: int|
                    i <= j < labels@.len() ==> q.source_node(#[trigger] labels.deep_view()[j]) == s0.source_node(
                        labels.deep_view()[j],
                    ) && q.target_node(labels.deep_view()[j]) == s0.target_node(labels.deep_view()[j]),
            decreases labels@.len() - i,
        {
            let ghost before = q;
            let ghost li = labels.deep_view()[i as int];
            assert(labels@[i as int]@ == li);
            assert(labels.deep_view().contains(li));
            q.flip_edge(&labels[i]);
            proof {
                assert forall|j: int|
                    0 <= j < i + 1 implies q.source_node(#[trigger] labels.deep_view()[j]) == s0.target_node(
                        labels.deep_view()[j],
                    ) && q.target_node(labels.deep_view()[j]) == s0.source_node(labels.deep_view()[j]) by {
                    let a = labels.deep_view()[j];
                    if j < i {
                        assert(a != li);
                        assert(labels.deep_view().contains(a));
                        assert(before.has_arrow(a));
                    }
                }
                assert forall|j: int|
                    i + 1 <= j < labels@.len() implies q.source_node(#[trigger] labels.deep_view()[j]) == s0.source_node(
                        labels.deep_view()[j],
                    ) && q.target_node(labels.deep_view()[j]) == s0.target_node(labels.deep_view()[j]) by {
                    let a = labels.deep_view()[j];
                    assert(a != li);
                    assert(labels.deep_view().contains(a));
                    assert(before.has_arrow(a));
                }
            }
            i = i + 1;
        }
        proof {
            assert forall|a: Seq<char>| #[trigger] s0.has_arrow(a) implies arrow_ends(q, a) == (
                arrow_ends(s0, a).1,
                arrow_ends(s0, a).0,
            ) by {
                assert(labels.deep_view().contains(a));
                let j = choose|j: int| 0 <= j < labels.deep_view().len() && labels.deep_view()[j] == a;
                assert(q.source_node(labels.deep_view()[j]) == s0.target_node(labels.deep_view()[j]));
            }
        }
        q
    }
}

} // verus!

//! Representations of a quiver: a matrix for each arrow and a dimension for
//! each vertex, with the matrices of paths, of elements of the path algebra,
//! intertwiners and changes of basis.
use crate::checked_arith::{
    ChainMultiplyable, CheckedAdd, CheckedAddAssign, CheckedArithError, CheckedMul, CheckedMulAssign, Ring,
    chain_multiply_after, chain_then, chain_total, clone_exact,
};
use crate::path_algebra::{PathAlgebra, terms_of, terms_parallel};
use crate::quiver::{BasisElt, BasisView, Quiver};
use crate::words::{word_labels, word_to_vec};
use nonempty::NonEmpty;
use std::ops::Mul;
use std::sync::Arc;
use vstd::prelude::*;
use vstd::std_specs::ops::MulSpec;

verus! {

/// The map a list of `(label, value)` entries describes: a later entry for a
/// label replaces an earlier one.
pub open spec fn entries_map<T>(s: Seq<(String, T)>) -> Map<Seq<char>, T>
    decreases s.len(),
{
    if s.len() == 0 {
        Map::empty()
    } else {
        entries_map(s.drop_last()).insert(s.last().0@, s.last().1)
    }
}

/// `i` is the last entry of `s` for the label `k`.
pub open spec fn last_entry<T>(s: Seq<(String, T)>, k: Seq<char>, i: int) -> bool {
    &&& 0 <= i < s.len()
    &&& s[i].0@ == k
    &&& forall|j: int| i < j < s.len() ==> (#[trigger] s[j]).0@ != k
}

/// The labels of the arrows of `q`.
pub open spec fn arrows_of(q: Quiver) -> Set<Seq<char>> {
    Set::new(|a: Seq<char>| q.has_arrow(a))
}

/// The labels of the vertices of `q`.
pub open spec fn vertices_of(q: Quiver) -> Set<Seq<char>> {
    Set::new(|v: Seq<char>| q.has_vertex(v))
}

/// The label of the vertex arrow `a` of `q` leaves.
pub open spec fn source_label(q: Quiver, a: Seq<char>) -> Seq<char> {
    q.nodes()[q.source_node(a)]
}

/// The label of the vertex arrow `a` of `q` enters.
pub open spec fn target_label(q: Quiver, a: Seq<char>) -> Seq<char> {
    q.nodes()[q.target_node(a)]
}

/// A label no entry of `s` carries is not in the map.
pub(crate) proof fn lemma_entries_absent<T>(s: Seq<(String, T)>, k: Seq<char>)
    requires
        forall|j: int| 0 <= j < s.len() ==> (#[trigger] s[j]).0@ != k,
    ensures
        !entries_map(s).contains_key(k),
    decreases s.len(),
{
    if s.len() > 0 {
        assert(s.last() == s[s.len() - 1]);
        assert forall|j: int| 0 <= j < s.drop_last().len() implies (#[trigger] s.drop_last()[j]).0@ != k by {
            assert(s.drop_last()[j] == s[j]);
        }
        lemma_entries_absent(s.drop_last(), k);
    }
}

/// The last entry for a label gives its value in the map.
pub(crate) proof fn lemma_entries_last<T>(s: Seq<(String, T)>, k: Seq<char>, i: int)
    requires
        last_entry(s, k, i),
    ensures
        entries_map(s).contains_key(k),
        entries_map(s)[k] == s[i].1,
    decreases s.len(),
{
    assert(s.last() == s[s.len() - 1]);
    if i < s.len() - 1 {
        let t = s.drop_last();
        assert(t[i] == s[i]);
        assert forall|j: int| i < j < t.len() implies (#[trigger] t[j]).0@ != k by {
            assert(t[j] == s[j]);
        }
        lemma_entries_last(t, k, i);
    }
}

/// Replacing the value of the last entry for a label replaces it in the map.
proof fn lemma_entries_update<T>(s: Seq<(String, T)>, k: Seq<char>, i: int, l: String, x: T)
    requires
        last_entry(s, k, i),
        l@ == k,
    ensures
        entries_map(s.update(i, (l, x))) == entries_map(s).insert(k, x),
    decreases s.len(),
{
    let t = s.update(i, (l, x));
    assert(s.last() == s[s.len() - 1]);
    assert(t.last() == t[t.len() - 1]);
    if i == s.len() - 1 {
        assert(t.drop_last() =~= s.drop_last());
        assert(entries_map(t) =~= entries_map(s).insert(k, x));
    } else {
        let sd = s.drop_last();
        assert(sd[i] == s[i]);
        assert forall|j: int| i < j < sd.len() implies (#[trigger] sd[j]).0@ != k by {
            assert(sd[j] == s[j]);
        }
        lemma_entries_update(sd, k, i, l, x);
        assert(t.drop_last() =~= sd.update(i, (l, x)));
        assert(s[s.len() - 1].0@ != k);
        assert(entries_map(t) =~= entries_map(s).insert(k, x));
    }
}

/// The index of the last entry of `v` for the label `k`.
pub(crate) fn find_last<T>(v: &Vec<(String, T)>, k: &String) -> (r: Option<usize>)
    ensures
        match r {
            Some(i) => last_entry(v@, k@, i as int),
            None => forall|j: int| 0 <= j < v@.len() ==> (#[trigger] v@[j]).0@ != k@,
        },
{
    let mut i: usize = v.len();
    while i > 0
        invariant
            i <= v@.len(),
            forall|j: int| i <= j < v@.len() ==> (#[trigger] v@[j]).0@ != k@,
        decreases i,
    {
        i = i - 1;
        if v[i].0 == *k {
            return Some(i);
        }
    }
    None
}

/// The entries of `s` whose label `keep` holds, in order, moved out of `s`.
fn keep_entries<T>(s: Vec<(String, T)>, keep: Ghost<Set<Seq<char>>>, q: &Quiver, arrows: bool) -> (r: Vec<(String, T)>)
    requires
        q.wf(),
        keep@ == if arrows { arrows_of(*q) } else { vertices_of(*q) },
    ensures
        entries_map(r@) == entries_map(s@).restrict(keep@),
        forall|j: int| 0 <= j < r@.len() ==> keep@.contains((#[trigger] r@[j]).0@),
{
    let ghost orig = s@;
    let mut rest = s;
    let mut kept: Vec<(String, T)> = Vec::new();
    let ghost mut done: int = 0;
    proof {
        assert(orig.take(0) =~= Seq::<(String, T)>::empty());
        assert(entries_map(kept@) =~= entries_map(orig.take(0)).restrict(keep@));
    }
    while rest.len() > 0
        invariant
            q.wf(),
            keep@ == if arrows { arrows_of(*q) } else { vertices_of(*q) },
            0 <= done <= orig.len(),
            rest@ == orig.skip(done),
            entries_map(kept@) == entries_map(orig.take(done)).restrict(keep@),
            forall|j: int| 0 <= j < kept@.len() ==> keep@.contains((#[trigger] kept@[j]).0@),
        decreases rest@.len(),
    {
        let entry = rest.remove(0);
        proof {
            assert(orig.take(done + 1).drop_last() =~= orig.take(done));
            assert(orig.take(done + 1).last() == entry);
            assert(rest@ =~= orig.skip(done + 1));
        }
        let wanted = if arrows {
            q.contains_edge(&entry.0)
        } else {
            q.contains_vertex(&entry.0)
        };
        let ghost before = kept@;
        if wanted {
            kept.push(entry);
            proof {
                assert(kept@.drop_last() == before);
                assert(entries_map(kept@) =~= entries_map(orig.take(done + 1)).restrict(keep@));
            }
        } else {
            proof {
                assert(entries_map(kept@) =~= entries_map(orig.take(done + 1)).restrict(keep@));
            }
        }
        proof {
            done = done + 1;
        }
    }
    proof {
        assert(orig.take(done) =~= orig);
    }
    kept
}

/// A representation of a quiver: a matrix of type `M` for each arrow and a
/// dimension for each vertex; `identity_producer(n)` gives the identity
/// matrix of size `n`.
#[verifier::reject_recursive_types(M)]
pub struct QuiverRep<M, I: Fn(usize) -> M, const OP_ALG: bool> {
    quiver: Arc<Quiver>,
    edge_reps: Vec<(String, M)>,
    vertex_dims: Vec<(String, usize)>,
    identity_producer: I,
}

impl<M, I: Fn(usize) -> M, const OP_ALG: bool> QuiverRep<M, I, OP_ALG> {
    /// The quiver.
    pub closed spec fn spec_quiver(&self) -> Quiver {
        *self.quiver
    }

    /// The matrix of each arrow.
    pub closed spec fn edge_map(&self) -> Map<Seq<char>, M> {
        entries_map(self.edge_reps@)
    }

    /// The dimension at each vertex.
    pub closed spec fn dim_map(&self) -> Map<Seq<char>, usize> {
        entries_map(self.vertex_dims@)
    }

    /// The producer of identity matrices.
    pub closed spec fn identity(&self) -> I {
        self.identity_producer
    }

    /// Every arrow has a matrix and every vertex a dimension, and identities
    /// can be produced of any size.
    pub closed spec fn wf(&self) -> bool {
        &&& self.quiver.wf()
        &&& entries_map(self.edge_reps@).dom() == arrows_of(*self.quiver)
        &&& entries_map(self.vertex_dims@).dom() == vertices_of(*self.quiver)
        &&& forall|d: usize| #[trigger] call_requires(self.identity_producer, (d,))
    }

    /// The representation of `quiver` with the matrices `edge_reps` and the
    /// dimensions `vertex_dims` (a later entry for a label replaces an
    /// earlier one; entries for labels not in the quiver are dropped).
    /// Where an arrow has no matrix or a vertex no dimension, the error
    /// gives back the dimensions and matrices that were kept.
    pub fn new(
        quiver: Arc<Quiver>,
        edge_reps: Vec<(String, M)>,
        vertex_dims: Vec<(String, usize)>,
        identity_producer: I,
    ) -> (r: Result<Self, (Vec<(String, usize)>, Vec<(String, M)>)>)
        requires
            quiver.wf(),
            forall|d: usize| #[trigger] call_requires(identity_producer, (d,)),
        ensures
            r is Ok <==> arrows_of(*quiver).subset_of(entries_map(edge_reps@).dom()) && vertices_of(
                *quiver,
            ).subset_of(entries_map(vertex_dims@).dom()),
            r matches Ok(rep) ==> rep.wf() && rep.spec_quiver() == *quiver && rep.edge_map() == entries_map(
                edge_reps@,
            ).restrict(arrows_of(*quiver)) && rep.dim_map() == entries_map(vertex_dims@).restrict(
                vertices_of(*quiver),
            ) && rep.identity() == identity_producer,
            r matches Err((d, e)) ==> entries_map(d@) == entries_map(vertex_dims@).restrict(
                vertices_of(*quiver),
            ) && entries_map(e@) == entries_map(edge_reps@).restrict(arrows_of(*quiver)),
    {
        let qref: &Quiver = &*quiver;
        let ghost q = *qref;
        let ghost arrows = arrows_of(q);
        let ghost vertices = vertices_of(q);
        let edges = keep_entries(edge_reps, Ghost(arrows), qref, true);
        let dims = keep_entries(vertex_dims, Ghost(vertices), qref, false);
        let labels = qref.edge_labels();
        let mut i: usize = 0;
        while i < labels.len()
            invariant
                q.wf(),
                q == *quiver,
                arrows == arrows_of(q),
                vertices == vertices_of(q),
                entries_map(edges@) == entries_map(edge_reps@).restrict(arrows),
                entries_map(dims@) == entries_map(vertex_dims@).restrict(vertices),
                forall|a: Seq<char>| #[trigger] labels.deep_view().contains(a) <==> q.has_arrow(a),
                i <= labels@.len(),
                forall|j: int| 0 <= j < i ==> entries_map(edges@).contains_key(#[trigger] labels.deep_view()[j]),
            decreases labels@.len() - i,
        {
            assert(labels.deep_view()[i as int] == labels@[i as int]@);
            match find_last(&edges, &labels[i]) {
                Some(j) => {
                    proof {
                        lemma_entries_last(edges@, labels@[i as int]@, j as int);
                    }
                },
                None => {
                    proof {
                        lemma_entries_absent(edges@, labels@[i as int]@);
                        assert(labels.deep_view().contains(labels@[i as int]@));
                        assert(arrows.contains(labels@[i as int]@));
                    }
                    return Err((dims, edges));
                },
            }
            i = i + 1;
        }
        proof {
            assert forall|a: Seq<char>| arrows.contains(a) implies entries_map(edge_reps@).dom().contains(a) by {
                assert(labels.deep_view().contains(a));
                let j = choose|j: int| 0 <= j < labels.deep_view().len() && labels.deep_view()[j] == a;
                assert(entries_map(edges@).contains_key(labels.deep_view()[j]));
            }
        }
        let vlabels = qref.vertex_labels();
        let mut i: usize = 0;
        while i < vlabels.len()
            invariant
                q.wf(),
                q == *quiver,
                arrows == arrows_of(q),
                vertices == vertices_of(q),
                entries_map(edges@) == entries_map(edge_reps@).restrict(arrows),
                entries_map(dims@) == entries_map(vertex_dims@).restrict(vertices),
                arrows.subset_of(entries_map(edge_reps@).dom()),
                forall|a: Seq<char>| #[trigger] vlabels.deep_view().contains(a) <==> q.has_vertex(a),
                i <= vlabels@.len(),
                forall|j: int| 0 <= j < i ==> entries_map(dims@).contains_key(#[trigger] vlabels.deep_view()[j]),
            decreases vlabels@.len() - i,
        {
            assert(vlabels.deep_view()[i as int] == vlabels@[i as int]@);
            match find_last(&dims, &vlabels[i]) {
                Some(j) => {
                    proof {
                        lemma_entries_last(dims@, vlabels@[i as int]@, j as int);
                    }
                },
                None => {
                    proof {
                        lemma_entries_absent(dims@, vlabels@[i as int]@);
                        assert(vlabels.deep_view().contains(vlabels@[i as int]@));
                        assert(vertices.contains(vlabels@[i as int]@));
                    }
                    return Err((dims, edges));
                },
            }
            i = i + 1;
        }
        proof {
            assert forall|a: Seq<char>| vertices.contains(a) implies entries_map(vertex_dims@).dom().contains(a) by {
                assert(vlabels.deep_view().contains(a));
                let j = choose|j: int| 0 <= j < vlabels.deep_view().len() && vlabels.deep_view()[j] == a;
                assert(entries_map(dims@).contains_key(vlabels.deep_view()[j]));
            }
            assert(entries_map(edges@).dom() =~= arrows);
            assert(entries_map(dims@).dom() =~= vertices);
        }
        Ok(QuiverRep { quiver, edge_reps: edges, vertex_dims: dims, identity_producer })
    }

    /// The representation of `quiver` with the dimensions `dim_vector` (a
    /// later entry for a label replaces an earlier one) and, at each arrow
    /// `a: s -> t`, the zero matrix `zero_matrix(dim(t), dim(s))`. Every
    /// vertex must have a dimension.
    pub fn new_zero_rep<Z: Fn(usize, usize) -> M>(
        quiver: Arc<Quiver>,
        dim_vector: Vec<(String, usize)>,
        zero_matrix: Z,
        id_matrix: I,
    ) -> (rep: Self)
        requires
            quiver.wf(),
            vertices_of(*quiver).subset_of(entries_map(dim_vector@).dom()),
            forall|r: usize, c: usize| #[trigger] call_requires(zero_matrix, (r, c)),
            forall|d: usize| #[trigger] call_requires(id_matrix, (d,)),
        ensures
            rep.wf(),
            rep.spec_quiver() == *quiver,
            rep.dim_map() == entries_map(dim_vector@).restrict(vertices_of(*quiver)),
            rep.edge_map().dom() == arrows_of(*quiver),
            forall|a: Seq<char>|
                #[trigger] quiver.has_arrow(a) ==> call_ensures(
                    zero_matrix,
                    (rep.dim_map()[target_label(*quiver, a)], rep.dim_map()[source_label(*quiver, a)]),
                    rep.edge_map()[a],
                ),
            rep.identity() == id_matrix,
    {
        let qref: &Quiver = &*quiver;
        let ghost q = *qref;
        let dims = keep_entries(dim_vector, Ghost(vertices_of(q)), qref, false);
        let ghost dm = entries_map(dims@);
        let labels = qref.edge_labels();
        let mut edges: Vec<(String, M)> = Vec::new();
        let mut i: usize = 0;
        while i < labels.len()
            invariant
                q.wf(),
                *qref == q,
                dm == entries_map(dims@),
                dm.dom() == vertices_of(q),
                forall|a: Seq<char>| #[trigger] labels.deep_view().contains(a) <==> q.has_arrow(a),
                labels.deep_view().no_duplicates(),
                forall|r: usize, c: usize| #[trigger] call_requires(zero_matrix, (r, c)),
                i <= labels@.len(),
                edges@.len() == i,
                forall|j: int| 0 <= j < i ==> (#[trigger] edges@[j]).0@ == labels.deep_view()[j],
                forall|j: int|
                    0 <= j < i ==> call_ensures(
                        zero_matrix,
                        (
                            dm[target_label(q, labels.deep_view()[j])],
                            dm[source_label(q, labels.deep_view()[j])],
                        ),
                        (#[trigger] edges@[j]).1,
                    ),
            decreases labels@.len() - i,
        {
            let a = &labels[i];
            assert(labels.deep_view()[i as int] == a@);
            assert(labels.deep_view().contains(a@));
            let (src, tgt) = match qref.edge_endpoint_labels(a) {
                Some(p) => p,
                None => {
                    assert(false);
                    return QuiverRep { quiver, edge_reps: edges, vertex_dims: dims, identity_producer: id_matrix };
                },
            };
            proof {
                assert(q.nodes().contains_key(q.source_node(a@)));
                assert(q.nodes().contains_key(q.target_node(a@)));
                assert(q.has_vertex(src@));
                assert(q.has_vertex(tgt@));
                assert(vertices_of(q).contains(src@));
                assert(vertices_of(q).contains(tgt@));
            }
            let sd = match find_last(&dims, &src) {
                Some(j) => {
                    proof {
                        lemma_entries_last(dims@, src@, j as int);
                    }
                    dims[j].1
                },
                None => {
                    proof {
                        lemma_entries_absent(dims@, src@);
                    }
                    0
                },
            };
            let td = match find_last(&dims, &tgt) {
                Some(j) => {
                    proof {
                        lemma_entries_last(dims@, tgt@, j as int);
                    }
                    dims[j].1
                },
                None => {
                    proof {
                        lemma_entries_absent(dims@, tgt@);
                    }
                    0
                },
            };
            let z = zero_matrix(td, sd);
            edges.push((a.clone(), z));
            i = i + 1;
        }
        proof {
            lemma_distinct_entries(edges@, labels.deep_view());
            assert(entries_map(edges@).dom() =~= arrows_of(q)) by {
                assert forall|a: Seq<char>| arrows_of(q).contains(a) implies entries_map(edges@).dom().contains(a) by {
                    assert(labels.deep_view().contains(a));
                    let j = choose|j: int| 0 <= j < labels.deep_view().len() && labels.deep_view()[j] == a;
                    assert(edges@[j].0@ == a);
                }
                assert forall|a: Seq<char>| entries_map(edges@).dom().contains(a) implies arrows_of(q).contains(a) by {
                    let j = choose|j: int| 0 <= j < edges@.len() && (#[trigger] edges@[j]).0@ == a && entries_map(edges@)[a] == edges@[j].1;
                    assert(labels.deep_view()[j] == a);
                    assert(labels.deep_view().contains(a));
                }
            }
        }
        let rep = QuiverRep { quiver, edge_reps: edges, vertex_dims: dims, identity_producer: id_matrix };
        proof {
            assert forall|a: Seq<char>| #[trigger] q.has_arrow(a) implies call_ensures(
                zero_matrix,
                (rep.dim_map()[target_label(q, a)], rep.dim_map()[source_label(q, a)]),
                rep.edge_map()[a],
            ) by {
                assert(labels.deep_view().contains(a));
                let j = choose|j: int| 0 <= j < labels.deep_view().len() && labels.deep_view()[j] == a;
                assert(edges@[j].0@ == a);
            }
        }
        rep
    }

    /// Replace the matrix of the arrow `edge`; nothing changes where `edge`
    /// is not an arrow.
    pub fn set_edge_rep(&mut self, edge: &String, rep: M)
        requires
            old(self).wf(),
        ensures
            final(self).wf(),
            final(self).spec_quiver() == old(self).spec_quiver(),
            final(self).dim_map() == old(self).dim_map(),
            final(self).identity() == old(self).identity(),
            final(self).edge_map() == if old(self).edge_map().contains_key(edge@) {
                old(self).edge_map().insert(edge@, rep)
            } else {
                old(self).edge_map()
            },
    {
        match find_last(&self.edge_reps, edge) {
            Some(i) => {
                let label = edge.clone();
                proof {
                    lemma_entries_update(self.edge_reps@, edge@, i as int, label, rep);
                    lemma_entries_last(self.edge_reps@, edge@, i as int);
                    assert(entries_map(self.edge_reps@).insert(edge@, rep).dom() =~= entries_map(
                        self.edge_reps@,
                    ).dom());
                }
                self.edge_reps.set(i, (label, rep));
            },
            None => {
                proof {
                    lemma_entries_absent(self.edge_reps@, edge@);
                }
            },
        }
    }

    /// The matrix of the arrow `edge`, or nothing where `edge` is not an arrow.
    pub fn get_edge_rep(&self, edge: &String) -> (r: Option<&M>)
        requires
            self.wf(),
        ensures
            r is Some <==> self.spec_quiver().has_arrow(edge@),
            r is Some <==> self.edge_map().contains_key(edge@),
            r matches Some(m) ==> *m == self.edge_map()[edge@],
    {
        match find_last(&self.edge_reps, edge) {
            Some(i) => {
                proof {
                    lemma_entries_last(self.edge_reps@, edge@, i as int);
                }
                Some(&self.edge_reps[i].1)
            },
            None => {
                proof {
                    lemma_entries_absent(self.edge_reps@, edge@);
                }
                None
            },
        }
    }

    /// The quiver this is a representation of.
    pub fn quiver(&self) -> (r: &Arc<Quiver>)
        ensures
            **r == self.spec_quiver(),
    {
        &self.quiver
    }
}

/// With distinct labels, each entry gives the value of its label.
proof fn lemma_distinct_entries<T>(s: Seq<(String, T)>, labels: Seq<Seq<char>>)
    requires
        s.len() == labels.len(),
        labels.no_duplicates(),
        forall|j: int| 0 <= j < s.len() ==> (#[trigger] s[j]).0@ == labels[j],
    ensures
        forall|j: int| 0 <= j < s.len() ==> entries_map(s).contains_key((#[trigger] s[j]).0@) && entries_map(s)[s[j].0@] == s[j].1,
        forall|k: Seq<char>| entries_map(s).contains_key(k) ==> exists|j: int| 0 <= j < s.len() && (#[trigger] s[j]).0@ == k && entries_map(s)[k] == s[j].1,
{
    assert forall|j: int| 0 <= j < s.len() implies entries_map(s).contains_key((#[trigger] s[j]).0@) && entries_map(s)[s[j].0@] == s[j].1 by {
        assert forall|m: int| j < m < s.len() implies (#[trigger] s[m]).0@ != s[j].0@ by {
            assert(labels[m] != labels[j]);
        }
        lemma_entries_last(s, s[j].0@, j);
    }
    assert forall|k: Seq<char>| entries_map(s).contains_key(k) implies exists|j: int| 0 <= j < s.len() && (#[trigger] s[j]).0@ == k && entries_map(s)[k] == s[j].1 by {
        if forall|j: int| 0 <= j < s.len() ==> (#[trigger] s[j]).0@ != k {
            lemma_entries_absent(s, k);
        }
        let j = choose|j: int| 0 <= j < s.len() && !((#[trigger] s[j]).0@ != k);
        assert(entries_map(s)[s[j].0@] == s[j].1);
    }
}

/// The product along the path `w` of the matrices `m` gives its arrows:
/// the first arrow's matrix, then each later one after it.
pub open spec fn path_matrix<M: ChainMultiplyable>(m: Map<Seq<char>, M>, w: Seq<Seq<char>>) -> Option<M> {
    chain_then(m[w[0]], Seq::new((w.len() - 1) as nat, |k: int| m[w[k + 1]]))
}

/// Every call of `id` on the same size gives the same matrix.
pub open spec fn produces_uniquely<M, I: Fn(usize) -> M>(id: I) -> bool {
    forall|n: usize, a: M, b: M|
        #[trigger] call_ensures(id, (n,), a) && #[trigger] call_ensures(id, (n,), b) ==> a == b
}

/// A matrix `id` gives for the size `n`.
pub open spec fn identity_of<M, I: Fn(usize) -> M>(id: I, n: usize) -> M {
    choose|m: M| call_ensures(id, (n,), m)
}

/// Cloning matrices gives equal matrices, `mul_two` gives the products its
/// specification names, and identities are produced deterministically.
pub open spec fn exact_matrices<M: ChainMultiplyable + Clone, I: Fn(usize) -> M>(id: I) -> bool {
    &&& clone_exact::<M>()
    &&& M::obeys_chain_spec()
    &&& produces_uniquely(id)
}

/// The basis element `b` names an idempotent of a vertex or a path of arrows of `q`.
pub open spec fn basis_in(q: Quiver, b: BasisView) -> bool {
    if b.0 {
        b.1.len() == 1 && q.has_vertex(b.1[0])
    } else {
        b.1.len() >= 1 && forall|k: int| 0 <= k < b.1.len() ==> q.has_arrow(#[trigger] b.1[k])
    }
}

/// `format!` of the message for a vertex without a matrix.
#[verifier::external_body]
fn missing_vertex_message(v: &String) -> String {
    format!("quiver_hom is missing a matrix for {v:?} in the quiver")
}

/// `format!` of the message for a refused product on one side of a square.
#[verifier::external_body]
fn mul_error_message<E: core::fmt::Debug>(side: &str, e: &E) -> String {
    format!("Matrix multiplication error on {side}: {e:?}")
}

/// A clone of `x`, equal to it where cloning is exact.
pub(crate) fn copy_of<M: Clone>(x: &M) -> (r: M)
    ensures
        cloned::<M>(*x, r),
        clone_exact::<M>() ==> r == *x,
{
    let r = x.clone();
    assert(call_ensures(M::clone, (x,), r));
    assert(cloned::<M>(*x, r));
    r
}

/// A clone of the value of the last entry of `v` for the label `k`, where there is one.
fn copy_entry<T: Clone>(v: &Vec<(String, T)>, k: &String) -> (r: Option<T>)
    ensures
        r is Some <==> entries_map(v@).contains_key(k@),
        r matches Some(x) ==> cloned::<T>(entries_map(v@)[k@], x) && (clone_exact::<T>() ==> x
            == entries_map(v@)[k@]),
{
    match find_last(v, k) {
        Some(i) => {
            proof {
                lemma_entries_last(v@, k@, i as int);
            }
            Some(copy_of(&v[i].1))
        },
        None => {
            proof {
                lemma_entries_absent(v@, k@);
            }
            None
        },
    }
}

/// The clone of the first component of the value of the last entry of `v` for `k`.
pub(crate) fn copy_first<T: Clone>(v: &Vec<(String, (T, T))>, k: &String) -> (r: Option<T>)
    ensures
        r is Some <==> entries_map(v@).contains_key(k@),
        r matches Some(x) ==> clone_exact::<T>() ==> x == entries_map(v@)[k@].0,
{
    match find_last(v, k) {
        Some(i) => {
            proof {
                lemma_entries_last(v@, k@, i as int);
            }
            Some(copy_of(&v[i].1.0))
        },
        None => {
            proof {
                lemma_entries_absent(v@, k@);
            }
            None
        },
    }
}

/// The clone of the second component of the value of the last entry of `v` for `k`.
pub(crate) fn copy_second<T: Clone>(v: &Vec<(String, (T, T))>, k: &String) -> (r: Option<T>)
    ensures
        r is Some <==> entries_map(v@).contains_key(k@),
        r matches Some(x) ==> clone_exact::<T>() ==> x == entries_map(v@)[k@].1,
{
    match find_last(v, k) {
        Some(i) => {
            proof {
                lemma_entries_last(v@, k@, i as int);
            }
            Some(copy_of(&v[i].1.1))
        },
        None => {
            proof {
                lemma_entries_absent(v@, k@);
            }
            None
        },
    }
}

impl<M: ChainMultiplyable + Clone, I: Fn(usize) -> M, const OP_ALG: bool> QuiverRep<M, I, OP_ALG> {
    /// The matrix of the basis element `b`: the identity of the dimension
    /// at a vertex, the product along a path.
    pub open spec fn basis_matrix(&self, b: BasisView) -> Option<M> {
        if b.0 {
            Some(identity_of(self.identity(), self.dim_map()[b.1[0]]))
        } else {
            path_matrix(self.edge_map(), b.1)
        }
    }

    /// The matrix `rep(phi_t) rep(a)` of the naturality square of the arrow
    /// `a: s -> t` for the vertex matrices `hom`: `rep(a)`, then `hom[t]`.
    pub open spec fn square_lhs(&self, hom: Map<Seq<char>, M>, a: Seq<char>) -> M {
        self.edge_map()[a].spec_then(&hom[target_label(self.spec_quiver(), a)])
    }

    /// Whether the two products of the naturality square of `a` can be formed.
    pub open spec fn square_composes<J: Fn(usize) -> M>(
        &self,
        other: QuiverRep<M, J, OP_ALG>,
        hom: Map<Seq<char>, M>,
        a: Seq<char>,
    ) -> bool {
        &&& self.edge_map()[a].spec_composes(&hom[target_label(self.spec_quiver(), a)])
        &&& hom[source_label(self.spec_quiver(), a)].spec_composes(&other.edge_map()[a])
    }

    /// The matrix of the arrow `a: s -> t` after the change of basis `g`
    /// (for each vertex `v`, `g[v] = (g_v^-1, g_v)`; absent vertices keep their
    /// basis): `g[s].0`, then `rep(a)`, then `g[t].1`; nothing where a
    /// product cannot be formed.
    /// Going through the arrows in the order `order`, every arrow before the
    /// `f`-th got its gauged matrix in `after`, the `f`-th cannot be gauged,
    /// and the arrows from the `f`-th on kept their matrices.
    pub open spec fn failed_at(&self, after: Self, g: Map<Seq<char>, (M, M)>, order: Seq<Seq<char>>, f: int) -> bool {
        &&& order.no_duplicates()
        &&& forall|a: Seq<char>| #[trigger] order.contains(a) <==> self.spec_quiver().has_arrow(a)
        &&& 0 <= f < order.len()
        &&& self.gauged(g, order[f]) is None
        &&& forall|k: int| 0 <= k < f ==> self.gauged(g, #[trigger] order[k]) == Some(after.edge_map()[order[k]])
        &&& forall|k: int| f <= k < order.len() ==> after.edge_map()[#[trigger] order[k]] == self.edge_map()[order[k]]
    }

    pub open spec fn gauged(&self, g: Map<Seq<char>, (M, M)>, a: Seq<char>) -> Option<M> {
        let s = source_label(self.spec_quiver(), a);
        let t = target_label(self.spec_quiver(), a);
        let old = self.edge_map()[a];
        if g.contains_key(s) && g.contains_key(t) {
            chain_then(g[s].0, seq![old, g[t].1])
        } else if g.contains_key(s) {
            if g[s].0.spec_composes(&old) {
                Some(g[s].0.spec_then(&old))
            } else {
                None
            }
        } else if g.contains_key(t) {
            if old.spec_composes(&g[t].1) {
                Some(old.spec_then(&g[t].1))
            } else {
                None
            }
        } else {
            Some(old)
        }
    }

    /// The gauged matrix of an arrow `a: s -> t` is the first component of
    /// the gauge at `s` (`g_s^-1`), then the old matrix, then the second
    /// component at `t` (`g_t`), leaving out the ends the gauge does not name.
    pub proof fn law_gauged_conjugates(&self, g: Map<Seq<char>, (M, M)>, a: Seq<char>)
        ensures
            ({
                let s = source_label(self.spec_quiver(), a);
                let t = target_label(self.spec_quiver(), a);
                let old = self.edge_map()[a];
                let after = if g.contains_key(t) {
                    seq![g[t].1]
                } else {
                    Seq::<M>::empty()
                };
                self.gauged(g, a) == if g.contains_key(s) {
                    chain_then(g[s].0, seq![old] + after)
                } else {
                    chain_then(old, after)
                }
            }),
    {
        reveal_with_fuel(chain_then, 3);
        let s = source_label(self.spec_quiver(), a);
        let t = target_label(self.spec_quiver(), a);
        let old = self.edge_map()[a];
        if g.contains_key(s) && g.contains_key(t) {
            assert(seq![old] + seq![g[t].1] =~= seq![old, g[t].1]);
        } else if g.contains_key(s) {
            assert(seq![old] + Seq::<M>::empty() =~= seq![old]);
            assert(seq![old].drop_last() =~= Seq::<M>::empty());
        } else if g.contains_key(t) {
            assert(seq![g[t].1].drop_last() =~= Seq::<M>::empty());
        }
    }

    /// Gauging back undoes a gauge: where every product can be formed, the
    /// products are associative, and at each vertex the first component
    /// undoes the second (`g_v` then `g_v^-1` is an identity on either
    /// side), gauging by `g` and then by the gauge with the components of
    /// `g` exchanged gives every arrow its old matrix.
    pub proof fn law_gauge_round_trip(&self, after: Self, g: Map<Seq<char>, (M, M)>, a: Seq<char>)
        requires
            after.spec_quiver() == self.spec_quiver(),
            self.gauged(g, a) == Some(after.edge_map()[a]),
            forall|x: M, y: M| #[trigger] x.spec_composes(&y),
            forall|x: M, y: M, z: M|
                #[trigger] x.spec_then(&y).spec_then(&z) == x.spec_then(&y.spec_then(&z)),
            forall|v: Seq<char>, x: M|
                g.contains_key(v) ==> #[trigger] g[v].1.spec_then(&g[v].0).spec_then(&x) == x,
            forall|v: Seq<char>, x: M|
                g.contains_key(v) ==> #[trigger] x.spec_then(&g[v].1.spec_then(&g[v].0)) == x,
        ensures
            after.gauged(g.map_values(|p: (M, M)| (p.1, p.0)), a) == Some(self.edge_map()[a]),
    {
        reveal_with_fuel(chain_then, 3);
        let q = self.spec_quiver();
        let s = source_label(q, a);
        let t = target_label(q, a);
        let m = self.edge_map()[a];
        let m2 = after.edge_map()[a];
        let h = g.map_values(|p: (M, M)| (p.1, p.0));
        if g.contains_key(s) {
            assert(h[s] == (g[s].1, g[s].0));
        }
        if g.contains_key(t) {
            assert(h[t] == (g[t].1, g[t].0));
        }
        let (s0, s1) = (g[s].0, g[s].1);
        let (t0, t1) = (g[t].0, g[t].1);
        if g.contains_key(s) && g.contains_key(t) {
            assert(seq![m, t1].drop_last() =~= seq![m]);
            assert(seq![m].drop_last() =~= Seq::<M>::empty());
            assert(m2 == s0.spec_then(&m).spec_then(&t1));
            assert(seq![m2, t0].drop_last() =~= seq![m2]);
            assert(seq![m2].drop_last() =~= Seq::<M>::empty());
            assert(after.gauged(h, a) == Some(s1.spec_then(&m2).spec_then(&t0)));
            assert(s1.spec_then(&s0.spec_then(&m).spec_then(&t1)) == s1.spec_then(&s0.spec_then(&m)).spec_then(&t1));
            assert(s1.spec_then(&s0).spec_then(&m) == s1.spec_then(&s0.spec_then(&m)));
            assert(s1.spec_then(&s0).spec_then(&m) == m);
            assert(m.spec_then(&t1).spec_then(&t0) == m.spec_then(&t1.spec_then(&t0)));
            assert(m.spec_then(&t1.spec_then(&t0)) == m);
        } else if g.contains_key(s) {
            assert(m2 == s0.spec_then(&m));
            assert(s1.spec_then(&s0).spec_then(&m) == s1.spec_then(&s0.spec_then(&m)));
            assert(s1.spec_then(&s0).spec_then(&m) == m);
        } else if g.contains_key(t) {
            assert(m2 == m.spec_then(&t1));
            assert(m.spec_then(&t1).spec_then(&t0) == m.spec_then(&t1.spec_then(&t0)));
            assert(m.spec_then(&t1.spec_then(&t0)) == m);
        }
    }

    /// The product along `path`: the matrix of its first arrow, then the
    /// matrix of each later arrow after it.
    pub fn mat_from_path(&self, path: &NonEmpty<String>) -> (r: Result<M, <M as CheckedMul>::MultiplicationError>)
        requires
            self.wf(),
            chain_total::<M>(),
            forall|k: int|
                0 <= k < word_labels(*path).len() ==> self.spec_quiver().has_arrow(#[trigger] word_labels(*path)[k]),
        ensures
            clone_exact::<M>() && M::obeys_chain_spec() ==> match path_matrix(self.edge_map(), word_labels(*path)) {
                Some(m) => r is Ok && r->Ok_0 == m,
                None => r is Err,
            },
    {
        let labels = word_to_vec(path);
        let ghost w = labels.deep_view();
        assert(w[0] == labels@[0]@);
        let first = match self.get_edge_rep(&labels[0]) {
            Some(m) => copy_of(m),
            None => {
                assert(false);
                return vstd::pervasive::unreached();
            },
        };
        let mut rest: Vec<M> = Vec::new();
        let mut k: usize = 1;
        while k < labels.len()
            invariant
                self.wf(),
                w == labels.deep_view(),
                w == word_labels(*path),
                forall|j: int| 0 <= j < w.len() ==> self.spec_quiver().has_arrow(#[trigger] w[j]),
                1 <= k <= labels@.len(),
                rest@.len() == k - 1,
                clone_exact::<M>() ==> forall|j: int|
                    0 <= j < k - 1 ==> #[trigger] rest@[j] == self.edge_map()[w[j + 1]],
            decreases labels@.len() - k,
        {
            assert(w[k as int] == labels@[k as int]@);
            let m = match self.get_edge_rep(&labels[k]) {
                Some(m) => copy_of(m),
                None => {
                    assert(false);
                    return vstd::pervasive::unreached();
                },
            };
            rest.push(m);
            k = k + 1;
        }
        proof {
            if clone_exact::<M>() {
                assert(rest@ =~= Seq::new((w.len() - 1) as nat, |j: int| self.edge_map()[w[j + 1]]));
            }
        }
        chain_multiply_after(first, rest)
    }

    /// The matrix of a basis element: the identity of the dimension at a
    /// vertex, the product along a path.
    pub fn mat_from_path_or_vertex(&self, path: BasisElt) -> (r: Result<M, <M as CheckedMul>::MultiplicationError>)
        requires
            self.wf(),
            chain_total::<M>(),
            basis_in(self.spec_quiver(), path@),
        ensures
            path@.0 ==> r is Ok,
            exact_matrices(self.identity()) ==> match self.basis_matrix(path@) {
                Some(m) => r is Ok && r->Ok_0 == m,
                None => r is Err,
            },
    {
        match path {
            BasisElt::Path(w) => self.mat_from_path(&w),
            BasisElt::Idempotent(v) => {
                let d = match find_last(&self.vertex_dims, &v) {
                    Some(i) => {
                        proof {
                            lemma_entries_last(self.vertex_dims@, v@, i as int);
                        }
                        self.vertex_dims[i].1
                    },
                    None => {
                        proof {
                            lemma_entries_absent(self.vertex_dims@, v@);
                            assert(vertices_of(self.spec_quiver()).contains(v@));
                        }
                        0
                    },
                };
                let m = (self.identity_producer)(d);
                proof {
                    assert(seq![v@][0] == v@);
                    if produces_uniquely(self.identity()) {
                        assert(call_ensures(self.identity(), (d,), m));
                        let c = identity_of(self.identity(), d);
                        assert(call_ensures(self.identity(), (d,), c));
                    }
                }
                Ok(m)
            },
        }
    }

    /// Whether the vertex matrices `quiver_hom` make a morphism from `self`
    /// to `other`: the arrows `a: s -> t` whose naturality square
    /// `hom[t] rep(a) = other(a) hom[s]` fails by `closeness`, in the order the
    /// quiver lists its arrows. An error where a vertex has no matrix in
    /// `quiver_hom` or a product cannot be formed.
    pub fn is_intertwiner<J: Fn(usize) -> M, C: Fn(&M, &M) -> bool>(
        &self,
        other: &QuiverRep<M, J, OP_ALG>,
        quiver_hom: &Vec<(String, M)>,
        closeness: C,
    ) -> (r: Result<Vec<String>, String>) where <M as CheckedMul>::MultiplicationError: core::fmt::Debug
        requires
            self.wf(),
            other.wf(),
            arrows_of(self.spec_quiver()).subset_of(arrows_of(other.spec_quiver())),
            chain_total::<M>(),
            forall|x: &M, y: &M| #[trigger] call_requires(closeness, (x, y)),
        ensures
            r is Ok ==> vertices_of(self.spec_quiver()).subset_of(entries_map(quiver_hom@).dom()),
            r matches Ok(failing) ==> failing.deep_view().no_duplicates() && forall|k: int|
                0 <= k < failing@.len() ==> self.spec_quiver().has_arrow(#[trigger] failing@[k]@),
            clone_exact::<M>() && M::obeys_chain_spec() ==> (r is Err <==> !vertices_of(
                self.spec_quiver(),
            ).subset_of(entries_map(quiver_hom@).dom()) || exists|a: Seq<char>|
                self.spec_quiver().has_arrow(a) && !#[trigger] self.square_composes(
                    *other,
                    entries_map(quiver_hom@),
                    a,
                )),
            clone_exact::<M>() && M::obeys_chain_spec() && r is Ok ==> forall|a: Seq<char>|
                #[trigger] self.spec_quiver().has_arrow(a) ==> call_ensures(
                    closeness,
                    (
                        &self.square_lhs(entries_map(quiver_hom@), a),
                        &entries_map(quiver_hom@)[source_label(self.spec_quiver(), a)].spec_then(
                            &other.edge_map()[a],
                        ),
                    ),
                    !r->Ok_0.deep_view().contains(a),
                ),
    {
        let ghost q = self.spec_quiver();
        let ghost hm = entries_map(quiver_hom@);
        let qref: &Quiver = &*self.quiver;
        let vlabels = qref.vertex_labels();
        let mut i: usize = 0;
        while i < vlabels.len()
            invariant
                self.wf(),
                q == self.spec_quiver(),
                *qref == q,
                hm == entries_map(quiver_hom@),
                forall|a: Seq<char>| #[trigger] vlabels.deep_view().contains(a) <==> q.has_vertex(a),
                i <= vlabels@.len(),
                forall|j: int| 0 <= j < i ==> hm.contains_key(#[trigger] vlabels.deep_view()[j]),
            decreases vlabels@.len() - i,
        {
            assert(vlabels.deep_view()[i as int] == vlabels@[i as int]@);
            match find_last(quiver_hom, &vlabels[i]) {
                Some(j) => {
                    proof {
                        lemma_entries_last(quiver_hom@, vlabels@[i as int]@, j as int);
                    }
                },
                None => {
                    proof {
                        lemma_entries_absent(quiver_hom@, vlabels@[i as int]@);
                        assert(vlabels.deep_view().contains(vlabels@[i as int]@));
                        assert(vertices_of(q).contains(vlabels@[i as int]@));
                    }
                    return Err(missing_vertex_message(&vlabels[i]));
                },
            }
            i = i + 1;
        }
        proof {
            assert forall|v: Seq<char>| vertices_of(q).contains(v) implies hm.dom().contains(v) by {
                assert(vlabels.deep_view().contains(v));
                let j = choose|j: int| 0 <= j < vlabels.deep_view().len() && vlabels.deep_view()[j] == v;
                assert(hm.contains_key(vlabels.deep_view()[j]));
            }
        }
        let labels = qref.edge_labels();
        let mut failing: Vec<String> = Vec::new();
        let mut k: usize = 0;
        while k < labels.len()
            invariant
                self.wf(),
                other.wf(),
                q == self.spec_quiver(),
                *qref == q,
                q.wf(),
                hm == entries_map(quiver_hom@),
                vertices_of(q).subset_of(hm.dom()),
                arrows_of(q).subset_of(arrows_of(other.spec_quiver())),
                chain_total::<M>(),
                forall|x: &M, y: &M| #[trigger] call_requires(closeness, (x, y)),
                forall|a: Seq<char>| #[trigger] labels.deep_view().contains(a) <==> q.has_arrow(a),
                labels.deep_view().no_duplicates(),
                k <= labels@.len(),
                failing.deep_view().no_duplicates(),
                forall|j: int| 0 <= j < failing@.len() ==> q.has_arrow(#[trigger] failing@[j]@),
                forall|a: Seq<char>| #[trigger] failing.deep_view().contains(a) ==> exists|j: int|
                    0 <= j < k && labels.deep_view()[j] == a,
                clone_exact::<M>() && M::obeys_chain_spec() ==> forall|j: int|
                    0 <= j < k ==> self.square_composes(*other, hm, #[trigger] labels.deep_view()[j]),
                clone_exact::<M>() && M::obeys_chain_spec() ==> forall|j: int|
                    0 <= j < k ==> call_ensures(
                        closeness,
                        (
                            &self.square_lhs(hm, #[trigger] labels.deep_view()[j]),
                            &hm[source_label(q, labels.deep_view()[j])].spec_then(&other.edge_map()[labels.deep_view()[j]]),
                        ),
                        !failing.deep_view().contains(labels.deep_view()[j]),
                    ),
            decreases labels@.len() - k,
        {
            let a = &labels[k];
            let ghost av = a@;
            assert(labels.deep_view()[k as int] == av);
            assert(labels.deep_view().contains(av));
            let (src, tgt) = match qref.edge_endpoint_labels(a) {
                Some(p) => p,
                None => {
                    assert(false);
                    return Err(missing_vertex_message(a));
                },
            };
            proof {
                assert(q.nodes().contains_key(q.source_node(av)));
                assert(q.nodes().contains_key(q.target_node(av)));
                assert(vertices_of(q).contains(src@));
                assert(vertices_of(q).contains(tgt@));
                assert(arrows_of(q).contains(av));
                assert(arrows_of(other.spec_quiver()).contains(av));
            }
            let phi_src = match copy_entry(quiver_hom, &src) {
                Some(m) => m,
                None => {
                    return vstd::pervasive::unreached();
                },
            };
            let phi_tgt = match copy_entry(quiver_hom, &tgt) {
                Some(m) => m,
                None => {
                    return vstd::pervasive::unreached();
                },
            };
            let m_edge = match self.get_edge_rep(a) {
                Some(m) => copy_of(m),
                None => {
                    return vstd::pervasive::unreached();
                },
            };
            let n_edge = match other.get_edge_rep(a) {
                Some(m) => copy_of(m),
                None => {
                    return vstd::pervasive::unreached();
                },
            };
            let ghost ls = m_edge;
            let ghost lt = phi_tgt;
            let ghost rs = phi_src;
            let ghost rt = n_edge;
            let lhs = match m_edge.mul_two(phi_tgt) {
                Ok(x) => x,
                Err(e) => {
                    proof {
                        if clone_exact::<M>() && M::obeys_chain_spec() {
                            assert(ls == self.edge_map()[av]);
                            assert(lt == hm[tgt@]);
                            assert(tgt@ == target_label(q, av));
                            assert(!self.square_composes(*other, hm, av));
                        }
                    }
                    return Err(mul_error_message("lhs", &e));
                },
            };
            let rhs = match phi_src.mul_two(n_edge) {
                Ok(x) => x,
                Err(e) => {
                    proof {
                        if clone_exact::<M>() && M::obeys_chain_spec() {
                            assert(rs == hm[src@]);
                            assert(rt == other.edge_map()[av]);
                            assert(src@ == source_label(q, av));
                            assert(!self.square_composes(*other, hm, av));
                        }
                    }
                    return Err(mul_error_message("rhs", &e));
                },
            };
            let close = closeness(&lhs, &rhs);
            let ghost before = failing.deep_view();
            if !close {
                failing.push(a.clone());
            }
            proof {
                assert(!before.contains(av)) by {
                    if before.contains(av) {
                        let j = choose|j: int| 0 <= j < k && labels.deep_view()[j] == av;
                        assert(labels.deep_view()[j] == labels.deep_view()[k as int]);
                    }
                }
                if !close {
                    assert(failing.deep_view() =~= before.push(av));
                    assert forall|j: int| 0 <= j < failing@.len() implies q.has_arrow(#[trigger] failing@[j]@) by {
                        if j < before.len() {
                            assert(failing.deep_view()[j] == before[j]);
                            assert(failing@[j]@ == failing.deep_view()[j]);
                        }
                    }
                } else {
                    assert(failing.deep_view() == before);
                }
                assert forall|b: Seq<char>| #[trigger] failing.deep_view().contains(b) implies exists|j: int|
                    0 <= j < k + 1 && labels.deep_view()[j] == b by {
                    if before.contains(b) {
                        let j = choose|j: int| 0 <= j < k && labels.deep_view()[j] == b;
                    } else {
                        assert(b == av);
                    }
                }
                if clone_exact::<M>() && M::obeys_chain_spec() {
                    assert(ls == self.edge_map()[av]);
                    assert(lt == hm[tgt@]);
                    assert(rs == hm[src@]);
                    assert(rt == other.edge_map()[av]);
                    assert(src@ == source_label(q, av));
                    assert(tgt@ == target_label(q, av));
                    assert forall|j: int| 0 <= j < k + 1 implies call_ensures(
                        closeness,
                        (
                            &self.square_lhs(hm, #[trigger] labels.deep_view()[j]),
                            &hm[source_label(q, labels.deep_view()[j])].spec_then(&other.edge_map()[labels.deep_view()[j]]),
                        ),
                        !failing.deep_view().contains(labels.deep_view()[j]),
                    ) by {
                        if j < k {
                            let lj = labels.deep_view()[j];
                            assert(lj != av);
                            assert(failing.deep_view().contains(lj) == before.contains(lj)) by {
                                if failing.deep_view().contains(lj) && !close {
                                    let x = choose|x: int| 0 <= x < failing.deep_view().len() && failing.deep_view()[x] == lj;
                                    if x < before.len() {
                                        assert(before[x] == failing.deep_view()[x]);
                                    } else {
                                        assert(failing.deep_view()[x] == av);
                                    }
                                }
                                if before.contains(lj) && !close {
                                    let x = choose|x: int| 0 <= x < before.len() && before[x] == lj;
                                    assert(failing.deep_view()[x] == before[x]);
                                }
                            }
                        } else {
                            assert(labels.deep_view()[j] == av);
                            assert(lhs == self.square_lhs(hm, av));
                            assert(rhs == hm[source_label(q, av)].spec_then(&other.edge_map()[av]));
                            if !close {
                                assert(failing.deep_view()[before.len() as int] == av);
                            }
                            assert(call_ensures(closeness, (&lhs, &rhs), close));
                        }
                    }
                }
            }
            k = k + 1;
        }
        proof {
            if clone_exact::<M>() && M::obeys_chain_spec() {
                assert forall|a: Seq<char>| #[trigger] q.has_arrow(a) implies self.square_composes(*other, hm, a) by {
                    assert(labels.deep_view().contains(a));
                    let j = choose|j: int| 0 <= j < labels.deep_view().len() && labels.deep_view()[j] == a;
                    assert(self.square_composes(*other, hm, labels.deep_view()[j]));
                }
                assert forall|a: Seq<char>| #[trigger] q.has_arrow(a) implies call_ensures(
                    closeness,
                    (&self.square_lhs(hm, a), &hm[source_label(q, a)].spec_then(&other.edge_map()[a])),
                    !failing.deep_view().contains(a),
                ) by {
                    assert(labels.deep_view().contains(a));
                    let j = choose|j: int| 0 <= j < labels.deep_view().len() && labels.deep_view()[j] == a;
                    assert(self.square_composes(*other, hm, labels.deep_view()[j]));
                }
            }
        }
        Ok(failing)
    }
}

impl<
    M: ChainMultiplyable + CheckedAdd + CheckedAddAssign + CheckedMulAssign + Clone,
    I: Fn(usize) -> M,
    const OP_ALG: bool,
> QuiverRep<M, I, OP_ALG> {
    /// The matrix of the sum of the first `n` (at least one) terms `t`: for
    /// each term the matrix of its basis element times its coefficient, added
    /// in order; nothing where a product or a sum cannot be formed.
    pub open spec fn algebra_matrix<C>(&self, t: Seq<(BasisView, C)>, n: int) -> Option<M> where
        M: Mul<C, Output = M>,
        decreases n,
    {
        if n <= 1 {
            match self.basis_matrix(t[0].0) {
                Some(m) => Some(m.mul_spec(t[0].1)),
                None => None,
            }
        } else {
            match self.algebra_matrix(t, n - 1) {
                Some(acc) => match self.basis_matrix(t[n - 1].0) {
                    Some(m) => {
                        let x = m.mul_spec(t[n - 1].1);
                        if acc.spec_add_assign_refused(&x) {
                            None
                        } else {
                            Some(acc.spec_add_assign_result(&x))
                        }
                    },
                    None => None,
                },
                None => None,
            }
        }
    }

    /// Once the sum cannot be formed, no longer sum can.
    proof fn lemma_algebra_none<C>(&self, t: Seq<(BasisView, C)>, i: int, n: int) where M: Mul<C, Output = M>
        requires
            1 <= i <= n,
            self.algebra_matrix(t, i) is None,
        ensures
            self.algebra_matrix(t, n) is None,
        decreases n - i,
    {
        if i < n {
            self.lemma_algebra_none(t, i, n - 1);
        }
    }

    /// The matrix of an element of the path algebra whose terms are
    /// parallel: the sum over its terms, in order, of the matrix of the basis
    /// element times the coefficient. The first product or sum that cannot
    /// be formed is reported.
    pub fn mat_from_path_algebra<C: Ring + Copy>(&self, path_algebra: PathAlgebra<C, OP_ALG>) -> (r: Result<
        M,
        CheckedArithError<M>,
    >) where M: Mul<C, Output = M>
        requires
            self.wf(),
            path_algebra.wf(),
            path_algebra.spec_quiver() == self.spec_quiver(),
            terms_parallel(self.spec_quiver(), path_algebra.terms()),
            path_algebra.terms().len() > 0,
            chain_total::<M>(),
            forall|m: M, c: C| #[trigger] m.mul_req(c),
            forall|a: M, b: M| #[trigger] a.spec_add_assign_allowed(&b),
        ensures
            exact_matrices(self.identity()) && M::obeys_mul_spec() && M::obeys_add_assign_spec() ==> match self.algebra_matrix(
                path_algebra.terms(),
                path_algebra.terms().len() as int,
            ) {
                Some(m) => r is Ok && r->Ok_0 == m,
                None => r is Err,
            },
    {
        let ghost t = path_algebra.terms();
        let ghost exact = exact_matrices(self.identity()) && M::obeys_mul_spec() && M::obeys_add_assign_spec();
        let terms = path_algebra.iter();
        let mut acc: Option<M> = None;
        let mut i: usize = 0;
        while i < terms.len()
            invariant
                self.wf(),
                path_algebra.wf(),
                path_algebra.spec_quiver() == self.spec_quiver(),
                t == path_algebra.terms(),
                terms_of(terms@) == t,
                t.len() > 0,
                chain_total::<M>(),
                forall|m: M, c: C| #[trigger] m.mul_req(c),
                forall|a: M, b: M| #[trigger] a.spec_add_assign_allowed(&b),
                exact == (exact_matrices(self.identity()) && M::obeys_mul_spec() && M::obeys_add_assign_spec()),
                i <= terms@.len(),
                (i == 0) == (acc is None),
                exact && i > 0 ==> self.algebra_matrix(t, i as int) == acc,
            decreases terms@.len() - i,
        {
            let b = terms[i].0.clone();
            let c = terms[i].1;
            proof {
                assert(t[i as int] == (terms@[i as int].0@, terms@[i as int].1));
                assert(crate::path_algebra::valid_basis(self.spec_quiver(), t[i as int].0));
                if !b@.0 {
                    assert forall|k: int| 0 <= k < b@.1.len() implies self.spec_quiver().has_arrow(#[trigger] b@.1[k]) by {
                    }
                }
            }
            let mat = match self.mat_from_path_or_vertex(b) {
                Ok(m) => m,
                Err(e) => {
                    proof {
                        if exact {
                            assert(self.algebra_matrix(t, i + 1) is None);
                            self.lemma_algebra_none(t, i + 1, t.len() as int);
                        }
                    }
                    return Err(CheckedArithError::from_mul(e));
                },
            };
            let scaled = mat * c;
            match acc {
                None => {
                    acc = Some(scaled);
                },
                Some(mut so_far) => {
                    let ghost prev = so_far;
                    match so_far.checked_add_assign(scaled) {
                        Ok(()) => {
                            acc = Some(so_far);
                        },
                        Err(e) => {
                            proof {
                                if exact {
                                    assert(self.algebra_matrix(t, i as int) == Some(prev));
                                    assert(self.algebra_matrix(t, i + 1) is None);
                                    self.lemma_algebra_none(t, i + 1, t.len() as int);
                                }
                            }
                            return Err(CheckedArithError::from_add_assign(e));
                        },
                    }
                },
            }
            i = i + 1;
        }
        match acc {
            Some(m) => Ok(m),
            None => vstd::pervasive::unreached(),
        }
    }

    /// Change the basis at each vertex: `gauge_transformation[v] = (g_v^-1, g_v)`
    /// (vertices absent from it keep their basis), so the matrix of each arrow
    /// `a: s -> t` becomes `g_s^-1`, then `rep(a)`, then `g_t`. The first
    /// product that cannot be formed is reported; the arrows handled before
    /// it keep their new matrices.
    pub fn gauge_transform(&mut self, gauge_transformation: &Vec<(String, (M, M))>) -> (r: Result<
        (),
        CheckedArithError<M>,
    >)
        requires
            old(self).wf(),
            chain_total::<M>(),
        ensures
            final(self).wf(),
            final(self).spec_quiver() == old(self).spec_quiver(),
            final(self).dim_map() == old(self).dim_map(),
            final(self).identity() == old(self).identity(),
            final(self).edge_map().dom() == old(self).edge_map().dom(),
            exact_matrices(old(self).identity()) ==> (r is Ok <==> forall|a: Seq<char>|
                #[trigger] old(self).spec_quiver().has_arrow(a) ==> old(self).gauged(
                    entries_map(gauge_transformation@),
                    a,
                ) is Some),
            exact_matrices(old(self).identity()) ==> forall|a: Seq<char>|
                #[trigger] old(self).spec_quiver().has_arrow(a) ==> final(self).edge_map()[a] == old(
                    self,
                ).edge_map()[a] || old(self).gauged(entries_map(gauge_transformation@), a) == Some(
                    final(self).edge_map()[a],
                ),
            exact_matrices(old(self).identity()) && r is Ok ==> forall|a: Seq<char>|
                #[trigger] old(self).spec_quiver().has_arrow(a) ==> old(self).gauged(
                    entries_map(gauge_transformation@),
                    a,
                ) == Some(final(self).edge_map()[a]),
            exact_matrices(old(self).identity()) && r is Err ==> exists|order: Seq<Seq<char>>, f: int|
                #[trigger] old(self).failed_at(*final(self), entries_map(gauge_transformation@), order, f),
    {
        let ghost g = entries_map(gauge_transformation@);
        let ghost q = self.spec_quiver();
        let ghost exact = exact_matrices(self.identity());
        let labels = self.quiver.edge_labels();
        let mut i: usize = 0;
        while i < labels.len()
            invariant
                self.wf(),
                self.spec_quiver() == old(self).spec_quiver(),
                q == old(self).spec_quiver(),
                q.wf(),
                self.dim_map() == old(self).dim_map(),
                self.identity() == old(self).identity(),
                self.edge_map().dom() == old(self).edge_map().dom(),
                old(self).edge_map().dom() == arrows_of(q),
                g == entries_map(gauge_transformation@),
                exact == exact_matrices(old(self).identity()),
                chain_total::<M>(),
                forall|a: Seq<char>| #[trigger] labels.deep_view().contains(a) <==> q.has_arrow(a),
                labels.deep_view().no_duplicates(),
                i <= labels@.len(),
                exact ==> forall|j: int|
                    0 <= j < i ==> old(self).gauged(g, #[trigger] labels.deep_view()[j]) == Some(
                        self.edge_map()[labels.deep_view()[j]],
                    ),
                forall|a: Seq<char>|
                    #[trigger] q.has_arrow(a) && !(exists|j: int| 0 <= j < i && labels.deep_view()[j] == a)
                        ==> self.edge_map()[a] == old(self).edge_map()[a],
            decreases labels@.len() - i,
        {
            let a = labels[i].clone();
            let ghost av = a@;
            assert(labels.deep_view()[i as int] == av);
            assert(labels.deep_view().contains(av));
            proof {
                assert(!(exists|j: int| 0 <= j < i && labels.deep_view()[j] == av)) by {
                    if exists|j: int| 0 <= j < i && labels.deep_view()[j] == av {
                        let j = choose|j: int| 0 <= j < i && labels.deep_view()[j] == av;
                        assert(labels.deep_view()[j] == labels.deep_view()[i as int]);
                    }
                }
                assert(self.edge_map()[av] == old(self).edge_map()[av]);
            }
            let old_rep = match self.get_edge_rep(&a) {
                Some(m) => copy_of(m),
                None => {
                    return vstd::pervasive::unreached();
                },
            };
            let (src, tgt) = match self.quiver.edge_endpoint_labels(&a) {
                Some(p) => p,
                None => {
                    return vstd::pervasive::unreached();
                },
            };
            assert(src@ == source_label(q, av) && tgt@ == target_label(q, av));
            let src_transform = copy_first(gauge_transformation, &src);
            let tgt_transform = copy_second(gauge_transformation, &tgt);
            let ghost before = *self;
            proof {
                let lv = labels.deep_view();
                assert forall|k: int| i <= k < lv.len() implies self.edge_map()[#[trigger] lv[k]] == old(self).edge_map()[lv[k]] by {
                    assert(lv.contains(lv[k]));
                    assert(!(exists|j: int| 0 <= j < i && lv[j] == lv[k])) by {
                        if exists|j: int| 0 <= j < i && lv[j] == lv[k] {
                            let j = choose|j: int| 0 <= j < i && lv[j] == lv[k];
                        }
                    }
                }
            }
            let new_rep = match (src_transform, tgt_transform) {
                (None, None) => None,
                (None, Some(tgt_t)) => match old_rep.mul_two(tgt_t) {
                    Ok(m) => Some(m),
                    Err(e) => {
                        proof {
                            if exact {
                                assert(old(self).gauged(g, av) is None);
                                assert(old(self).failed_at(*self, g, labels.deep_view(), i as int));
                            }
                        }
                        return Err(CheckedArithError::from_mul(e));
                    },
                },
                (Some(src_inv), None) => match src_inv.mul_two(old_rep) {
                    Ok(m) => Some(m),
                    Err(e) => {
                        proof {
                            if exact {
                                assert(old(self).gauged(g, av) is None);
                                assert(old(self).failed_at(*self, g, labels.deep_view(), i as int));
                            }
                        }
                        return Err(CheckedArithError::from_mul(e));
                    },
                },
                (Some(src_inv), Some(tgt_t)) => {
                    let ghost ops = seq![old_rep, tgt_t];
                    let ghost si = src_inv;
                    match chain_multiply_after(src_inv, vec![old_rep, tgt_t]) {
                        Ok(m) => Some(m),
                        Err(e) => {
                            proof {
                                if exact {
                                    assert(old(self).gauged(g, av) == chain_then(si, ops));
                                    assert(old(self).gauged(g, av) is None);
                                    assert(old(self).failed_at(*self, g, labels.deep_view(), i as int));
                                }
                            }
                            return Err(CheckedArithError::from_mul(e));
                        },
                    }
                },
            };
            proof {
                if exact {
                    if new_rep is Some {
                        assert(old(self).gauged(g, av) == Some(new_rep->Some_0));
                    } else {
                        assert(old(self).gauged(g, av) == Some(old(self).edge_map()[av]));
                    }
                }
            }
            match new_rep {
                Some(x) => {
                    self.set_edge_rep(&a, x);
                },
                None => {},
            }
            proof {
                assert forall|a2: Seq<char>|
                    #[trigger] q.has_arrow(a2) && !(exists|j: int| 0 <= j < i + 1 && labels.deep_view()[j] == a2)
                        implies self.edge_map()[a2] == old(self).edge_map()[a2] by {
                    assert(a2 != av) by {
                        if a2 == av {
                            assert(labels.deep_view()[i as int] == a2);
                        }
                    }
                    assert(!(exists|j: int| 0 <= j < i && labels.deep_view()[j] == a2)) by {
                        if exists|j: int| 0 <= j < i && labels.deep_view()[j] == a2 {
                            let j = choose|j: int| 0 <= j < i && labels.deep_view()[j] == a2;
                            assert(0 <= j < i + 1 && labels.deep_view()[j] == a2);
                        }
                    }
                    assert(before.edge_map()[a2] == old(self).edge_map()[a2]);
                }
                if exact {
                    assert forall|j: int|
                        0 <= j < i + 1 implies old(self).gauged(g, #[trigger] labels.deep_view()[j]) == Some(
                            self.edge_map()[labels.deep_view()[j]],
                        ) by {
                        if j < i {
                            assert(labels.deep_view()[j] != av) by {
                                assert(labels.deep_view()[j] != labels.deep_view()[i as int]);
                            }
                            assert(self.edge_map()[labels.deep_view()[j]] == before.edge_map()[labels.deep_view()[j]]);
                        }
                    }
                }
            }
            i = i + 1;
        }
        proof {
            if exact {
                assert forall|a: Seq<char>| #[trigger] q.has_arrow(a) implies old(self).gauged(g, a) == Some(
                    self.edge_map()[a],
                ) by {
                    assert(labels.deep_view().contains(a));
                    let j = choose|j: int| 0 <= j < labels.deep_view().len() && labels.deep_view()[j] == a;
                    assert(old(self).gauged(g, labels.deep_view()[j]) == Some(self.edge_map()[labels.deep_view()[j]]));
                }
            }
        }
        Ok(())
    }
}

} // verus!

//! Differential graded path algebras `(kQ, d)`: a quiver whose arrows carry
//! homological degrees, with a differential given on the arrows and extended
//! to paths by the graded Leibniz rule with Koszul signs.
use crate::checked_arith::{Ring, ring_ops_total};
use crate::path_algebra::{
    PathAlgebra, add_terms, arc_clone, basis_products, nonzero_terms, obeys_ring_spec, valid_basis,
};
use crate::quiver::{BasisElt, BasisView, Quiver};
use crate::quiver_rep::{
    entries_map, find_last, lemma_entries_absent, lemma_entries_last, source_label, target_label,
};
use crate::words::{word_from_vec, word_to_vec};
use std::sync::Arc;
use vstd::prelude::*;
use vstd::std_specs::cmp::PartialEqSpec;
use vstd::std_specs::ops::MulSpec;

verus! {

/// Whether the integer `d` is odd.
pub open spec fn is_odd(d: int) -> bool {
    d % 2 == 1
}

/// The degree of the arrow `a`: its entry in `deg`, 0 where it has none.
pub open spec fn arrow_degree(deg: Map<Seq<char>, i64>, a: Seq<char>) -> int {
    if deg.contains_key(a) {
        deg[a] as int
    } else {
        0
    }
}

/// The total degree of the first `n` arrows of `w`.
pub open spec fn degree_sum(deg: Map<Seq<char>, i64>, w: Seq<Seq<char>>, n: int) -> int
    decreases n,
{
    if n <= 0 {
        0
    } else {
        degree_sum(deg, w, n - 1) + arrow_degree(deg, w[n - 1])
    }
}

/// The part of the path `w` before position `idx`, or the idempotent at its
/// start where that is empty.
pub open spec fn part_before(q: Quiver, w: Seq<Seq<char>>, idx: int) -> BasisView {
    if idx == 0 {
        (true, seq![source_label(q, w[0])])
    } else {
        (false, w.take(idx))
    }
}

/// The part of the path `w` after position `idx`, or the idempotent at the
/// end of its arrow `idx` where that is empty.
pub open spec fn part_after(q: Quiver, w: Seq<Seq<char>>, idx: int) -> BasisView {
    if idx + 1 == w.len() {
        (true, seq![target_label(q, w[idx])])
    } else {
        (false, w.skip(idx + 1))
    }
}

/// The terms of `before * d * after`, where the arrow at position `idx` of
/// `w` is replaced by the element with terms `d`.
pub open spec fn spliced<C: Ring>(q: Quiver, op: bool, w: Seq<Seq<char>>, idx: int, d: Seq<(BasisView, C)>) -> Seq<
    (BasisView, C),
> {
    let left = add_terms(Seq::empty(), basis_products(q, op, d, part_before(q, w, idx), false), false);
    add_terms(Seq::empty(), basis_products(q, op, left, part_after(q, w, idx), true), false)
}

/// The terms of `c * x` for each term `x` of `s` (`c` on the right).
pub open spec fn scaled<C: Ring>(s: Seq<(BasisView, C)>, c: C) -> Seq<(BasisView, C)> {
    Seq::new(s.len(), |i: int| (s[i].0, s[i].1.mul_spec(c)))
}

/// A quiver whose arrows carry homological degrees, with a differential
/// `d` given on some arrows; `d` is a derivation of degree `+1` extended to
/// paths by the graded Leibniz rule.
pub struct GradedDifferentialQuiver<Coeffs, const OP_ALG: bool> {
    quiver_arc: Arc<Quiver>,
    degrees: Vec<(String, i64)>,
    differential: Vec<(String, PathAlgebra<Coeffs, OP_ALG>)>,
}

impl<Coeffs: Ring + Copy, const OP_ALG: bool> GradedDifferentialQuiver<Coeffs, OP_ALG> {
    /// The underlying quiver.
    pub closed spec fn spec_quiver(self) -> Quiver {
        *self.quiver_arc
    }

    /// The degrees of the arrows that were given one.
    pub closed spec fn degree_map(self) -> Map<Seq<char>, i64> {
        entries_map(self.degrees@)
    }

    /// The differentials of the arrows that were given one.
    pub closed spec fn diff_map(self) -> Map<Seq<char>, PathAlgebra<Coeffs, OP_ALG>> {
        entries_map(self.differential@)
    }

    /// The quiver is well formed and each given differential is an element
    /// over it.
    pub open spec fn wf(self) -> bool {
        &&& self.spec_quiver().wf()
        &&& forall|a: Seq<char>| #[trigger]
            self.diff_map().contains_key(a) ==> self.diff_map()[a].wf() && self.diff_map()[a].spec_quiver()
                == self.spec_quiver()
    }

    /// The graded Leibniz expansion of `d` over the first `n` arrows of the
    /// path `w`: for each arrow with a differential, `before * d(arrow) *
    /// after`, subtracted where the arrows before it have odd total degree.
    pub open spec fn leibniz_terms(self, w: Seq<Seq<char>>, n: int) -> Seq<(BasisView, Coeffs)>
        decreases n,
    {
        if n <= 0 {
            Seq::empty()
        } else {
            let prev = self.leibniz_terms(w, n - 1);
            if self.diff_map().contains_key(w[n - 1]) {
                add_terms(
                    prev,
                    spliced(self.spec_quiver(), OP_ALG, w, n - 1, self.diff_map()[w[n - 1]].terms()),
                    is_odd(degree_sum(self.degree_map(), w, n - 1)),
                )
            } else {
                prev
            }
        }
    }

    /// `d` of the first `n` terms of `t`, summed in order: idempotents go to
    /// zero, a path to its Leibniz expansion times its coefficient.
    pub open spec fn differential_terms(self, t: Seq<(BasisView, Coeffs)>, n: int) -> Seq<(BasisView, Coeffs)>
        decreases n,
    {
        if n <= 0 {
            Seq::empty()
        } else {
            let prev = self.differential_terms(t, n - 1);
            let b = t[n - 1].0;
            if b.0 {
                prev
            } else {
                add_terms(prev, scaled(self.leibniz_terms(b.1, b.1.len() as int), t[n - 1].1), false)
            }
        }
    }

    /// Builds the differential graded path algebra on `quiver_arc` with the
    /// arrow degrees `degrees` (an arrow given none has degree 0) and the
    /// arrow differentials `differential` (a later entry for an arrow replaces
    /// an earlier one; entries for labels that are not arrows have no effect).
    pub fn new(
        quiver_arc: Arc<Quiver>,
        degrees: Vec<(String, i64)>,
        differential: Vec<(String, PathAlgebra<Coeffs, OP_ALG>)>,
    ) -> (r: Self)
        requires
            quiver_arc.wf(),
            forall|i: int|
                0 <= i < differential@.len() ==> (#[trigger] differential@[i]).1.wf() && differential@[i].1.spec_quiver()
                    == *quiver_arc,
        ensures
            r.wf(),
            r.spec_quiver() == *quiver_arc,
            r.degree_map() == entries_map(degrees@),
            r.diff_map() == entries_map(differential@),
    {
        let r = GradedDifferentialQuiver { quiver_arc, degrees, differential };
        proof {
            assert forall|a: Seq<char>| #[trigger] r.diff_map().contains_key(a) implies r.diff_map()[a].wf()
                && r.diff_map()[a].spec_quiver() == r.spec_quiver() by {
                lemma_entries_member(r.differential@, a);
            }
        }
        r
    }

    /// The underlying quiver.
    pub fn quiver(&self) -> (r: &Arc<Quiver>)
        ensures
            **r == self.spec_quiver(),
    {
        &self.quiver_arc
    }

    /// The degree of the arrow `a`.
    pub(crate) fn degree_of(&self, a: &String) -> (r: i64)
        ensures
            r == arrow_degree(self.degree_map(), a@),
    {
        match find_last(&self.degrees, a) {
            Some(i) => {
                proof {
                    lemma_entries_last(self.degrees@, a@, i as int);
                }
                self.degrees[i].1
            },
            None => {
                proof {
                    lemma_entries_absent(self.degrees@, a@);
                }
                0
            },
        }
    }

    /// The differential of the arrow `a`, where it has one.
    pub(crate) fn differential_of(&self, a: &String) -> (r: Option<&PathAlgebra<Coeffs, OP_ALG>>)
        ensures
            r is Some <==> self.diff_map().contains_key(a@),
            r matches Some(d) ==> *d == self.diff_map()[a@],
    {
        match find_last(&self.differential, a) {
            Some(i) => {
                proof {
                    lemma_entries_last(self.differential@, a@, i as int);
                }
                Some(&self.differential[i].1)
            },
            None => {
                proof {
                    lemma_entries_absent(self.differential@, a@);
                }
                None
            },
        }
    }
}

/// Every value of the entry map is the value of some entry.
proof fn lemma_entries_member<T>(s: Seq<(String, T)>, k: Seq<char>)
    requires
        entries_map(s).contains_key(k),
    ensures
        exists|i: int| 0 <= i < s.len() && #[trigger] s[i].1 == entries_map(s)[k],
    decreases s.len(),
{
    if s.len() > 0 {
        if s.last().0@ == k {
            assert(s[s.len() - 1].1 == entries_map(s)[k]);
        } else {
            lemma_entries_member(s.drop_last(), k);
            let i = choose|i: int| 0 <= i < s.drop_last().len() && #[trigger] s.drop_last()[i].1 == entries_map(
                s.drop_last(),
            )[k];
            assert(s[i] == s.drop_last()[i]);
        }
    }
}

/// The labels `w[lo..hi]`.
fn word_slice(w: &Vec<String>, lo: usize, hi: usize) -> (r: Vec<String>)
    requires
        lo <= hi <= w@.len(),
    ensures
        r.deep_view() == w.deep_view().subrange(lo as int, hi as int),
{
    let mut out: Vec<String> = Vec::new();
    let mut i: usize = lo;
    while i < hi
        invariant
            lo <= i <= hi,
            hi <= w@.len(),
            out.deep_view() == w.deep_view().subrange(lo as int, i as int),
        decreases hi - i,
    {
        let ghost before = out.deep_view();
        out.push(w[i].clone());
        assert(out.deep_view() =~= before.push(w@[i as int]@));
        assert(w.deep_view()[i as int] == w@[i as int]@);
        assert(out.deep_view() =~= w.deep_view().subrange(lo as int, i + 1));
        i = i + 1;
    }
    out
}

/// A stretch of a path is a path.
proof fn lemma_subpath(q: Quiver, w: Seq<Seq<char>>, lo: int, hi: int)
    requires
        q.is_path(w),
        0 <= lo <= hi <= w.len(),
    ensures
        q.is_path(w.subrange(lo, hi)),
{
    let s = w.subrange(lo, hi);
    assert forall|k: int| 0 <= k < s.len() implies q.has_arrow(#[trigger] s[k]) by {
        assert(s[k] == w[lo + k]);
    }
    assert forall|k: int| 0 <= k < s.len() - 1 implies #[trigger] q.spec_composable(s[k], s[k + 1]) by {
        assert(s[k] == w[lo + k] && s[k + 1] == w[lo + k + 1]);
    }
}

/// The vertices at the ends of an arrow are vertices.
pub(crate) proof fn lemma_arrow_ends(q: Quiver, a: Seq<char>)
    requires
        q.wf(),
        q.has_arrow(a),
    ensures
        q.has_vertex(source_label(q, a)),
        q.has_vertex(target_label(q, a)),
{
    let e = q.arrow_index()[a] as nat;
    assert(q.edges().contains_key(e));
    assert(q.nodes().contains_key(q.source_node(a)));
    assert(q.nodes().contains_key(q.target_node(a)));
}

impl<Coeffs: Ring + Copy, const OP_ALG: bool> GradedDifferentialQuiver<Coeffs, OP_ALG> {
    /// The Leibniz expansion of `d` on the path `w`.
    fn apply_differential_word(&self, w: &Vec<String>) -> (r: PathAlgebra<Coeffs, OP_ALG>)
        requires
            self.wf(),
            w@.len() >= 1,
            self.spec_quiver().is_path(w.deep_view()),
            ring_ops_total::<Coeffs>(),
        ensures
            r.wf(),
            r.spec_quiver() == self.spec_quiver(),
            obeys_ring_spec::<Coeffs>() ==> r.terms() == self.leibniz_terms(w.deep_view(), w@.len() as int),
    {
        let ghost wv = w.deep_view();
        let ghost q = self.spec_quiver();
        let mut result: PathAlgebra<Coeffs, OP_ALG> = PathAlgebra::zero(arc_clone(&self.quiver_arc));
        let mut odd = false;
        let mut idx: usize = 0;
        while idx < w.len()
            invariant
                self.wf(),
                q == self.spec_quiver(),
                wv == w.deep_view(),
                wv.len() == w@.len(),
                q.is_path(wv),
                ring_ops_total::<Coeffs>(),
                idx <= w@.len(),
                result.wf(),
                result.spec_quiver() == q,
                odd == is_odd(degree_sum(self.degree_map(), wv, idx as int)),
                obeys_ring_spec::<Coeffs>() ==> result.terms() == self.leibniz_terms(wv, idx as int),
            decreases w@.len() - idx,
        {
            let a = &w[idx];
            assert(a@ == wv[idx as int]);
            assert(q.has_arrow(wv[idx as int]));
            match self.differential_of(a) {
                Some(d) => {
                    let ends = self.quiver_arc.edge_endpoint_labels(a);
                    let (src, tgt) = match ends {
                        Some(p) => p,
                        None => (a.clone(), a.clone()),
                    };
                    proof {
                        lemma_arrow_ends(q, a@);
                    }
                    assert(src@ == source_label(q, a@) && tgt@ == target_label(q, a@));
                    let before = if idx == 0 {
                        BasisElt::Idempotent(src)
                    } else {
                        let pre = word_slice(w, 0, idx);
                        proof {
                            lemma_subpath(q, wv, 0, idx as int);
                            assert(pre.deep_view().len() == pre@.len());
                            assert(wv.subrange(0, idx as int) =~= wv.take(idx as int));
                        }
                        match word_from_vec(pre) {
                            Some(p) => BasisElt::Path(p),
                            None => BasisElt::Idempotent(src),
                        }
                    };
                    assert(before@ == part_before(q, wv, idx as int));
                    let after = if idx + 1 == w.len() {
                        BasisElt::Idempotent(tgt)
                    } else {
                        let post = word_slice(w, idx + 1, w.len());
                        proof {
                            lemma_subpath(q, wv, idx + 1, wv.len() as int);
                            assert(post.deep_view().len() == post@.len());
                            assert(wv.subrange(idx + 1, wv.len() as int) =~= wv.skip(idx + 1));
                        }
                        match word_from_vec(post) {
                            Some(p) => BasisElt::Path(p),
                            None => BasisElt::Idempotent(tgt),
                        }
                    };
                    assert(after@ == part_after(q, wv, idx as int));
                    let mut cur = PathAlgebra::basis_mul(before, d.clone());
                    cur.mul_assign_basis(after);
                    if odd {
                        result.sub_assign(cur);
                    } else {
                        result.add_assign(cur);
                    }
                },
                None => {},
            }
            let dg = self.degree_of(a);
            if dg % 2 != 0 {
                odd = !odd;
            }
            idx = idx + 1;
        }
        result
    }
}

impl<Coeffs: Ring + Copy + PartialEq, const OP_ALG: bool> GradedDifferentialQuiver<Coeffs, OP_ALG> {
    /// `d` of an element of the path algebra: idempotents go to zero, each
    /// path to its graded Leibniz expansion (the differential of each arrow
    /// spliced in, with the Koszul sign of the arrows before it) times its
    /// coefficient; the terms that cancel to zero are dropped.
    pub fn apply_differential(&self, algebra_element: &PathAlgebra<Coeffs, OP_ALG>) -> (r: PathAlgebra<
        Coeffs,
        OP_ALG,
    >)
        requires
            self.wf(),
            algebra_element.wf(),
            algebra_element.spec_quiver() == self.spec_quiver(),
            ring_ops_total::<Coeffs>(),
        ensures
            r.wf(),
            r.spec_quiver() == self.spec_quiver(),
            obeys_ring_spec::<Coeffs>() && Coeffs::obeys_eq_spec() ==> r.terms() == nonzero_terms(
                self.differential_terms(algebra_element.terms(), algebra_element.terms().len() as int),
            ),
    {
        let ghost t = algebra_element.terms();
        let ghost q = self.spec_quiver();
        let items = algebra_element.iter();
        let mut result: PathAlgebra<Coeffs, OP_ALG> = PathAlgebra::zero(arc_clone(&self.quiver_arc));
        let mut i: usize = 0;
        while i < items.len()
            invariant
                self.wf(),
                q == self.spec_quiver(),
                algebra_element.wf(),
                algebra_element.spec_quiver() == q,
                t == algebra_element.terms(),
                crate::path_algebra::terms_of(items@) == t,
                ring_ops_total::<Coeffs>(),
                i <= items@.len(),
                result.wf(),
                result.spec_quiver() == q,
                obeys_ring_spec::<Coeffs>() ==> result.terms() == self.differential_terms(t, i as int),
            decreases items@.len() - i,
        {
            assert(t[i as int] == (items@[i as int].0@, items@[i as int].1));
            assert(valid_basis(q, t[i as int].0));
            match &items[i].0 {
                BasisElt::Idempotent(_) => {},
                BasisElt::Path(word) => {
                    let wv = word_to_vec(word);
                    let mut cur = self.apply_differential_word(&wv);
                    let ghost before = cur.terms();
                    cur.scale_assign(items[i].1);
                    proof {
                        if obeys_ring_spec::<Coeffs>() {
                            assert(cur.terms() =~= scaled(before, items@[i as int].1)) by {
                                assert(crate::path_algebra::keys_of(cur.terms()).len() == cur.terms().len());
                                assert(crate::path_algebra::keys_of(before).len() == before.len());
                                assert forall|j: int| 0 <= j < cur.terms().len() implies cur.terms()[j] == scaled(
                                    before,
                                    items@[i as int].1,
                                )[j] by {
                                    assert(crate::path_algebra::keys_of(cur.terms())[j] == cur.terms()[j].0);
                                    assert(crate::path_algebra::keys_of(before)[j] == before[j].0);
                                }
                            }
                        }
                    }
                    result.add_assign(cur);
                },
            }
            i = i + 1;
        }
        result.simplify_default();
        result
    }

    /// Whether `d` of the element is zero (the element is closed).
    pub fn is_definitely_closed(&self, algebra_element: &PathAlgebra<Coeffs, OP_ALG>) -> (r: bool)
        requires
            self.wf(),
            algebra_element.wf(),
            algebra_element.spec_quiver() == self.spec_quiver(),
            ring_ops_total::<Coeffs>(),
        ensures
            obeys_ring_spec::<Coeffs>() && Coeffs::obeys_eq_spec() ==> (r <==> nonzero_terms(
                self.differential_terms(algebra_element.terms(), algebra_element.terms().len() as int),
            ).len() == 0),
    {
        !self.apply_differential(algebra_element).might_be_nonzero()
    }
}

} // verus!

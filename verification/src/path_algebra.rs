//! Elements of the path algebra `kQ^op` (or `kQ`) of a quiver: finite linear
//! combinations of basis elements (idempotents and paths).
use crate::checked_arith::{Ring, ring_ops_total};
use crate::quiver::{BasisElt, BasisView, Quiver};
use crate::words::{word_first, word_from_vec, word_last, word_len, word_singleton, word_to_vec};
use vstd::hash_map::StringHashMap;
use std::ops::{Add, Mul, Neg, Sub};
use std::sync::Arc;
use vstd::prelude::*;
use vstd::std_specs::cmp::{PartialEqSpec, PartialEqSpecImpl};
use vstd::std_specs::ops::{
    AddSpec, AddSpecImpl, MulSpec, MulSpecImpl, NegSpec, NegSpecImpl, SubSpec, SubSpecImpl,
};

verus! {

/// The coefficient operations of `C` agree with their specifications.
pub open spec fn obeys_ring_spec<C: Ring>() -> bool {
    &&& C::obeys_add_spec()
    &&& C::obeys_sub_spec()
    &&& C::obeys_mul_spec()
    &&& C::obeys_neg_spec()
}

/// The basis elements of a list of terms.
pub open spec fn keys_of<C>(s: Seq<(BasisView, C)>) -> Seq<BasisView> {
    s.map_values(|p: (BasisView, C)| p.0)
}

/// No basis element occurs twice among the terms.
pub open spec fn keys_distinct<C>(s: Seq<(BasisView, C)>) -> bool {
    forall|i: int, j: int| 0 <= i < j < s.len() ==> #[trigger] s[i].0 != #[trigger] s[j].0
}

/// Some term has basis element `k`.
pub open spec fn has_key<C>(s: Seq<(BasisView, C)>, k: BasisView) -> bool {
    exists|i: int| 0 <= i < s.len() && #[trigger] s[i].0 == k
}

/// The position of the term with basis element `k` (meaningful where `has_key`).
pub open spec fn key_index<C>(s: Seq<(BasisView, C)>, k: BasisView) -> int {
    choose|i: int| 0 <= i < s.len() && #[trigger] s[i].0 == k
}

/// Add the term `v * k` to the linear combination `acc` (subtract it where
/// `negate`): the coefficient of `k` is combined with `v` where `k` is already
/// present, and `(k, v)` (or `(k, -v)`) is appended otherwise.
pub open spec fn add_term<C: Ring>(acc: Seq<(BasisView, C)>, k: BasisView, v: C, negate: bool) -> Seq<
    (BasisView, C),
> {
    if has_key(acc, k) {
        let i = key_index(acc, k);
        acc.update(
            i,
            (
                k,
                if negate {
                    acc[i].1.sub_spec(v)
                } else {
                    acc[i].1.add_spec(v)
                },
            ),
        )
    } else {
        acc.push(
            (
                k,
                if negate {
                    v.neg_spec()
                } else {
                    v
                },
            ),
        )
    }
}

/// Add the terms `contributions` one after another to `acc`.
pub open spec fn add_terms<C: Ring>(
    acc: Seq<(BasisView, C)>,
    contributions: Seq<(BasisView, C)>,
    negate: bool,
) -> Seq<(BasisView, C)>
    decreases contributions.len(),
{
    if contributions.len() == 0 {
        acc
    } else {
        add_term(
            add_terms(acc, contributions.drop_last(), negate),
            contributions.last().0,
            contributions.last().1,
            negate,
        )
    }
}

/// The terms of a vector of (basis element, coefficient) pairs, as plain values.
pub open spec fn terms_of<C>(v: Seq<(BasisElt, C)>) -> Seq<(BasisView, C)> {
    v.map_values(|p: (BasisElt, C)| (p.0@, p.1))
}

/// `b` is a basis element of the path algebra of `q`: the idempotent of a
/// vertex of `q`, or a nonempty path of `q`.
pub open spec fn valid_basis(q: Quiver, b: BasisView) -> bool {
    if b.0 {
        b.1.len() == 1 && q.has_vertex(b.1[0])
    } else {
        b.1.len() >= 1 && q.is_path(b.1)
    }
}

/// Add `v * k` to `acc` (subtract it where `negate`), in place.
fn accumulate<C: Ring + Copy>(acc: &mut Vec<(BasisElt, C)>, k: BasisElt, v: C, negate: bool)
    requires
        ring_ops_total::<C>(),
        keys_distinct(terms_of(old(acc)@)),
    ensures
        keys_distinct(terms_of(final(acc)@)),
        forall|x: BasisView|
            #[trigger] has_key(terms_of(final(acc)@), x) <==> has_key(terms_of(old(acc)@), x) || x == k@,
        keys_of(terms_of(final(acc)@)) == keys_of(add_term(terms_of(old(acc)@), k@, v, negate)),
        obeys_ring_spec::<C>() ==> terms_of(final(acc)@) == add_term(terms_of(old(acc)@), k@, v, negate),
{
    let ghost t0 = terms_of(acc@);
    let mut i: usize = 0;
    while i < acc.len()
        invariant
            t0 == terms_of(acc@),
            t0 == terms_of(old(acc)@),
            keys_distinct(t0),
            ring_ops_total::<C>(),
            i <= acc@.len(),
            forall|j: int| 0 <= j < i ==> t0[j].0 != k@,
        decreases acc@.len() - i,
    {
        if acc[i].0 == k {
            proof {
                assert(t0[i as int].0 == k@);
                assert(has_key(t0, k@));
                let j = key_index(t0, k@);
                assert(j == i) by {
                    if j != i {
                        if j < i {
                            assert(t0[j].0 != t0[i as int].0);
                        } else {
                            assert(t0[i as int].0 != t0[j].0);
                        }
                    }
                }
            }
            let ghost a0 = acc@;
            let (k0, e) = acc.remove(i);
            let combined = if negate {
                e.sub(v)
            } else {
                e.add(v)
            };
            acc.insert(i, (k0, combined));
            proof {
                assert(acc@ =~= a0.update(i as int, (k0, combined)));
                assert(k0@ == k@);
                let t1 = terms_of(acc@);
                assert(t1.len() == t0.len());
                assert forall|j: int| 0 <= j < t1.len() implies #[trigger] t1[j].0 == t0[j].0 by {
                }
                assert(keys_of(t1) =~= keys_of(add_term(t0, k@, v, negate)));
                assert forall|x: BasisView| #[trigger] has_key(t1, x) <==> has_key(t0, x) || x == k@ by {
                    if has_key(t1, x) {
                        let j = choose|j: int| 0 <= j < t1.len() && #[trigger] t1[j].0 == x;
                        assert(t0[j].0 == x);
                    }
                    if has_key(t0, x) {
                        let j = choose|j: int| 0 <= j < t0.len() && #[trigger] t0[j].0 == x;
                        assert(t1[j].0 == x);
                    }
                    if x == k@ {
                        assert(t1[i as int].0 == x);
                    }
                }
                if obeys_ring_spec::<C>() {
                    assert(t1 =~= add_term(t0, k@, v, negate)) by {
                        assert forall|j: int| 0 <= j < t1.len() implies t1[j] == add_term(t0, k@, v, negate)[j] by {
                        }
                    }
                }
            }
            return;
        }
        i = i + 1;
    }
    proof {
        assert(!has_key(t0, k@));
    }
    let value = if negate {
        v.neg()
    } else {
        v
    };
    acc.push((k, value));
    proof {
        let t1 = terms_of(acc@);
        assert(t1 =~= t0.push((k@, value)));
        assert forall|x: BasisView| #[trigger] has_key(t1, x) <==> has_key(t0, x) || x == k@ by {
            if has_key(t1, x) {
                let j = choose|j: int| 0 <= j < t1.len() && #[trigger] t1[j].0 == x;
                if j < t0.len() {
                    assert(t0[j].0 == x);
                }
            }
            if has_key(t0, x) {
                let j = choose|j: int| 0 <= j < t0.len() && #[trigger] t0[j].0 == x;
                assert(t1[j].0 == x);
            }
            if x == k@ {
                assert(t1[t0.len() as int].0 == x);
            }
        }
        assert(keys_distinct(t1)) by {
            assert forall|a: int, b: int| 0 <= a < b < t1.len() implies #[trigger] t1[a].0 != #[trigger] t1[b].0 by {
                if b == t0.len() {
                    assert(t0[a].0 != k@);
                }
            }
        }
        assert(keys_of(t1) =~= keys_of(add_term(t0, k@, v, negate)));
        if obeys_ring_spec::<C>() {
            assert(t1 =~= add_term(t0, k@, v, negate));
        }
    }
}

/// An element of the path algebra `kQ^op` (`OP_ALG`) or `kQ` of a quiver:
/// a linear combination of basis elements with coefficients in `Coeffs`.
pub struct PathAlgebra<Coeffs, const OP_ALG: bool> {
    quiver: Arc<Quiver>,
    linear_combination_paths: Vec<(BasisElt, Coeffs)>,
}

/// A sequence of arrows is a valid path of `q` and its product with another is again one.
pub proof fn lemma_product_valid(q: Quiver, op: bool, l: BasisView, r: BasisView)
    requires
        q.wf(),
        valid_basis(q, l),
        valid_basis(q, r),
        q.spec_multiply(op, l, r) is Some,
    ensures
        valid_basis(q, q.spec_multiply(op, l, r).unwrap()),
{
    let (a, b) = if op {
        (l, r)
    } else {
        (r, l)
    };
    if !a.0 && !b.0 {
        let w = a.1 + b.1;
        assert forall|k: int| 0 <= k < w.len() implies q.has_arrow(#[trigger] w[k]) by {
            if k < a.1.len() {
                assert(w[k] == a.1[k]);
            } else {
                assert(w[k] == b.1[k - a.1.len()]);
            }
        }
        assert forall|k: int| 0 <= k < w.len() - 1 implies #[trigger] q.spec_composable(w[k], w[k + 1]) by {
            if k < a.1.len() - 1 {
                assert(w[k] == a.1[k] && w[k + 1] == a.1[k + 1]);
            } else if k == a.1.len() - 1 {
                assert(w[k] == a.1.last() && w[k + 1] == b.1[0]);
            } else {
                assert(w[k] == b.1[k - a.1.len()] && w[k + 1] == b.1[k - a.1.len() + 1]);
            }
        }
    }
}

impl<Coeffs: Ring + Copy, const OP_ALG: bool> PathAlgebra<Coeffs, OP_ALG> {
    /// The quiver the element lives over.
    pub closed spec fn spec_quiver(self) -> Quiver {
        *self.quiver
    }

    /// The terms (basis element, coefficient) in their stored order.
    pub closed spec fn terms(self) -> Seq<(BasisView, Coeffs)> {
        terms_of(self.linear_combination_paths@)
    }

    /// The quiver is well formed, and the terms are distinct basis elements of its path algebra.
    pub open spec fn wf(self) -> bool {
        &&& self.spec_quiver().wf()
        &&& keys_distinct(self.terms())
        &&& forall|i: int|
            0 <= i < self.terms().len() ==> valid_basis(self.spec_quiver(), #[trigger] self.terms()[i].0)
    }

    /// Construct an element from a list of distinct basis elements with their
    /// coefficients. Every basis element must belong to the quiver: an
    /// idempotent of one of its vertices or a composable path of its arrows.
    pub fn new(quiver: Arc<Quiver>, linear_combination_paths: Vec<(BasisElt, Coeffs)>) -> (r: Self)
        requires
            quiver.wf(),
            keys_distinct(terms_of(linear_combination_paths@)),
            forall|i: int|
                0 <= i < linear_combination_paths@.len() ==> valid_basis(
                    *quiver,
                    #[trigger] linear_combination_paths@[i].0@,
                ),
        ensures
            r.wf(),
            r.spec_quiver() == *quiver,
            r.terms() == terms_of(linear_combination_paths@),
    {
        let r = PathAlgebra { quiver, linear_combination_paths };
        proof {
            assert forall|i: int| 0 <= i < r.terms().len() implies valid_basis(r.spec_quiver(), #[trigger] r.terms()[i].0) by {
                assert(r.terms()[i].0 == linear_combination_paths@[i].0@);
            }
        }
        r
    }

    /// A scalar multiple of a single basis element.
    pub fn singleton(quiver: Arc<Quiver>, basis: BasisElt, coeff: Coeffs) -> (r: Self)
        requires
            quiver.wf(),
            valid_basis(*quiver, basis@),
        ensures
            r.wf(),
            r.spec_quiver() == *quiver,
            r.terms() == seq![(basis@, coeff)],
    {
        let mut linear: Vec<(BasisElt, Coeffs)> = Vec::new();
        linear.push((basis, coeff));
        proof {
            assert(terms_of(linear@) =~= seq![(basis@, coeff)]);
        }
        Self::new(quiver, linear)
    }

    /// The zero element.
    pub fn zero(quiver: Arc<Quiver>) -> (r: Self)
        requires
            quiver.wf(),
        ensures
            r.wf(),
            r.spec_quiver() == *quiver,
            r.terms() == Seq::<(BasisView, Coeffs)>::empty(),
    {
        let linear: Vec<(BasisElt, Coeffs)> = Vec::new();
        proof {
            assert(terms_of(linear@) =~= Seq::<(BasisView, Coeffs)>::empty());
        }
        Self::new(quiver, linear)
    }

    /// The terms, in their stored order.
    pub fn iter(&self) -> (r: &[(BasisElt, Coeffs)])
        ensures
            terms_of(r@) == self.terms(),
    {
        self.linear_combination_paths.as_slice()
    }

    /// The underlying quiver this element lives in.
    pub fn quiver(&self) -> (r: &Arc<Quiver>)
        ensures
            **r == self.spec_quiver(),
    {
        &self.quiver
    }

    /// Returns `true` if this element has exactly one term.
    pub fn is_monomial(&self) -> (r: bool)
        ensures
            r == (self.terms().len() == 1),
    {
        self.linear_combination_paths.len() == 1
    }

    /// Some term is stored (the element may still be zero if a coefficient is).
    #[must_use]
    pub fn might_be_nonzero(&self) -> (r: bool)
        ensures
            r == (self.terms().len() > 0),
    {
        self.linear_combination_paths.len() != 0
    }

    /// Every term is a path of length exactly `degree`, or an idempotent when `degree` is 0.
    pub fn is_homogeneous_of_degree(&self, degree: usize) -> (r: bool)
        ensures
            r == forall|i: int|
                0 <= i < self.terms().len() ==> #[trigger] basis_degree_is(self.terms()[i].0, degree as nat),
    {
        let mut i: usize = 0;
        while i < self.linear_combination_paths.len()
            invariant
                i <= self.terms().len(),
                forall|j: int| 0 <= j < i ==> #[trigger] basis_degree_is(self.terms()[j].0, degree as nat),
            decreases self.terms().len() - i,
        {
            let ok = match &self.linear_combination_paths[i].0 {
                BasisElt::Path(path) => word_len(path) == degree,
                BasisElt::Idempotent(_) => degree == 0,
            };
            if !ok {
                assert(!basis_degree_is(self.terms()[i as int].0, degree as nat));
                return false;
            }
            i = i + 1;
        }
        true
    }

    /// Every term has path length at most `degree` (idempotents have length 0).
    pub fn is_filtered_degree(&self, degree: usize) -> (r: bool)
        ensures
            r == forall|i: int|
                0 <= i < self.terms().len() ==> #[trigger] basis_degree_at_most(self.terms()[i].0, degree as nat),
    {
        let mut i: usize = 0;
        while i < self.linear_combination_paths.len()
            invariant
                i <= self.terms().len(),
                forall|j: int| 0 <= j < i ==> #[trigger] basis_degree_at_most(self.terms()[j].0, degree as nat),
            decreases self.terms().len() - i,
        {
            let ok = match &self.linear_combination_paths[i].0 {
                BasisElt::Path(path) => word_len(path) <= degree,
                BasisElt::Idempotent(_) => true,
            };
            if !ok {
                assert(!basis_degree_at_most(self.terms()[i as int].0, degree as nat));
                return false;
            }
            i = i + 1;
        }
        true
    }
}

/// All the products of the basis elements of `a` with those of `b` (each
/// term of `a` against every term of `b` in order, rows in the order of `a`),
/// with the products of their coefficients, skipping the products that are zero.
pub open spec fn all_products<C: Ring>(
    q: Quiver,
    op: bool,
    a: Seq<(BasisView, C)>,
    b: Seq<(BasisView, C)>,
) -> Seq<(BasisView, C)>
    decreases a.len(),
{
    if a.len() == 0 {
        Seq::empty()
    } else {
        all_products(q, op, a.drop_last(), b) + row_products(q, op, a.last(), b)
    }
}

/// The products of the term `t` with each term of `b`, in order, skipping zero products.
pub open spec fn row_products<C: Ring>(q: Quiver, op: bool, t: (BasisView, C), b: Seq<(BasisView, C)>) -> Seq<
    (BasisView, C),
>
    decreases b.len(),
{
    if b.len() == 0 {
        Seq::empty()
    } else {
        row_products(q, op, t, b.drop_last()) + match q.spec_multiply(op, t.0, b.last().0) {
            Some(k) => seq![(k, t.1.mul_spec(b.last().1))],
            None => Seq::empty(),
        }
    }
}

/// The products of each term of `a` with the basis element `x` on its right
/// (`x_right`) or left, keeping each coefficient, skipping zero products.
pub open spec fn basis_products<C>(q: Quiver, op: bool, a: Seq<(BasisView, C)>, x: BasisView, x_right: bool) -> Seq<
    (BasisView, C),
>
    decreases a.len(),
{
    if a.len() == 0 {
        Seq::empty()
    } else {
        basis_products(q, op, a.drop_last(), x, x_right) + match (if x_right {
            q.spec_multiply(op, a.last().0, x)
        } else {
            q.spec_multiply(op, x, a.last().0)
        }) {
            Some(k) => seq![(k, a.last().1)],
            None => Seq::empty(),
        }
    }
}

/// Terms whose basis elements are valid for `q`.
pub open spec fn all_valid<C>(q: Quiver, s: Seq<(BasisView, C)>) -> bool {
    forall|i: int| 0 <= i < s.len() ==> valid_basis(q, #[trigger] s[i].0)
}

impl<Coeffs: Ring + Copy, const OP_ALG: bool> PathAlgebra<Coeffs, OP_ALG> {
    /// Add (or, with `negate`, subtract) the terms of `rhs` one by one.
    fn absorb(&mut self, rhs: &Self, negate: bool)
        requires
            old(self).wf(),
            rhs.wf(),
            rhs.spec_quiver() == old(self).spec_quiver(),
            ring_ops_total::<Coeffs>(),
        ensures
            final(self).wf(),
            final(self).spec_quiver() == old(self).spec_quiver(),
            obeys_ring_spec::<Coeffs>() ==> final(self).terms() == add_terms(old(self).terms(), rhs.terms(), negate),
            forall|x: BasisView|
                #[trigger] has_key(final(self).terms(), x) <==> has_key(old(self).terms(), x) || has_key(rhs.terms(), x),
    {
        let ghost t0 = self.terms();
        let ghost q = self.spec_quiver();
        let mut i: usize = 0;
        while i < rhs.linear_combination_paths.len()
            invariant
                self.wf(),
                rhs.wf(),
                self.spec_quiver() == q,
                rhs.spec_quiver() == q,
                ring_ops_total::<Coeffs>(),
                i <= rhs.terms().len(),
                obeys_ring_spec::<Coeffs>() ==> self.terms() == add_terms(t0, rhs.terms().take(i as int), negate),
                forall|x: BasisView|
                    #[trigger] has_key(self.terms(), x) <==> has_key(t0, x) || exists|j: int|
                        0 <= j < i && rhs.terms()[j].0 == x,
            decreases rhs.terms().len() - i,
        {
            let k = rhs.linear_combination_paths[i].0.clone();
            let v = rhs.linear_combination_paths[i].1;
            let ghost before = self.terms();
            assert(all_valid(q, before));
            assert(valid_basis(q, rhs.terms()[i as int].0));
            accumulate(&mut self.linear_combination_paths, k, v, negate);
            proof {
                assert(rhs.terms()[i as int] == (k@, v));
                assert(rhs.terms().take(i + 1).drop_last() =~= rhs.terms().take(i as int));
                assert forall|j: int| 0 <= j < self.terms().len() implies valid_basis(q, #[trigger] self.terms()[j].0) by {
                    let x = self.terms()[j].0;
                    assert(has_key(self.terms(), x));
                    if has_key(before, x) {
                        let jj = choose|jj: int| 0 <= jj < before.len() && #[trigger] before[jj].0 == x;
                        assert(valid_basis(q, before[jj].0));
                    }
                }
                assert forall|x: BasisView|
                    #[trigger] has_key(self.terms(), x) <==> has_key(t0, x) || exists|j: int|
                        0 <= j < i + 1 && rhs.terms()[j].0 == x by {
                    if x == k@ {
                        assert(rhs.terms()[i as int].0 == x);
                    }
                }
            }
            i = i + 1;
        }
        proof {
            assert(rhs.terms().take(rhs.terms().len() as int) =~= rhs.terms());
            assert forall|x: BasisView|
                #[trigger] has_key(self.terms(), x) <==> has_key(t0, x) || has_key(rhs.terms(), x) by {
                if exists|j: int| 0 <= j < rhs.terms().len() && rhs.terms()[j].0 == x {
                    let j = choose|j: int| 0 <= j < rhs.terms().len() && rhs.terms()[j].0 == x;
                    assert(has_key(rhs.terms(), x));
                }
                if has_key(rhs.terms(), x) {
                    let j = choose|j: int| 0 <= j < rhs.terms().len() && #[trigger] rhs.terms()[j].0 == x;
                }
            }
        }
    }

    /// `self += rhs`: the coefficients of common basis elements are added, the
    /// other terms of `rhs` appended.
    pub fn add_assign(&mut self, rhs: Self)
        requires
            old(self).wf(),
            rhs.wf(),
            rhs.spec_quiver() == old(self).spec_quiver(),
            ring_ops_total::<Coeffs>(),
        ensures
            final(self).wf(),
            final(self).spec_quiver() == old(self).spec_quiver(),
            obeys_ring_spec::<Coeffs>() ==> final(self).terms() == add_terms(old(self).terms(), rhs.terms(), false),
            forall|x: BasisView|
                #[trigger] has_key(final(self).terms(), x) <==> has_key(old(self).terms(), x) || has_key(rhs.terms(), x),
    {
        self.absorb(&rhs, false);
    }

    /// `self -= rhs`: the coefficients of common basis elements are subtracted,
    /// the other terms of `rhs` appended negated.
    pub fn sub_assign(&mut self, rhs: Self)
        requires
            old(self).wf(),
            rhs.wf(),
            rhs.spec_quiver() == old(self).spec_quiver(),
            ring_ops_total::<Coeffs>(),
        ensures
            final(self).wf(),
            final(self).spec_quiver() == old(self).spec_quiver(),
            obeys_ring_spec::<Coeffs>() ==> final(self).terms() == add_terms(old(self).terms(), rhs.terms(), true),
            forall|x: BasisView|
                #[trigger] has_key(final(self).terms(), x) <==> has_key(old(self).terms(), x) || has_key(rhs.terms(), x),
    {
        self.absorb(&rhs, true);
    }
}

impl<Coeffs: Ring + Copy, const OP_ALG: bool> PathAlgebra<Coeffs, OP_ALG> {
    /// `self *= rhs`: the sum of the products of every term of `self` with every
    /// term of `rhs`, in `kQ^op` (`OP_ALG`) or `kQ`.
    pub fn mul_assign(&mut self, rhs: Self)
        requires
            old(self).wf(),
            rhs.wf(),
            rhs.spec_quiver() == old(self).spec_quiver(),
            ring_ops_total::<Coeffs>(),
        ensures
            final(self).wf(),
            final(self).spec_quiver() == old(self).spec_quiver(),
            obeys_ring_spec::<Coeffs>() ==> final(self).terms() == add_terms(
                Seq::empty(),
                all_products(old(self).spec_quiver(), OP_ALG, old(self).terms(), rhs.terms()),
                false,
            ),
    {
        let ghost q = self.spec_quiver();
        let ghost a = self.terms();
        let ghost b = rhs.terms();
        let mut new_path: Vec<(BasisElt, Coeffs)> = Vec::new();
        let ghost mut contributions: Seq<(BasisView, Coeffs)> = Seq::empty();
        proof {
            assert(terms_of(new_path@) =~= Seq::<(BasisView, Coeffs)>::empty());
            assert(a.take(0) =~= Seq::<(BasisView, Coeffs)>::empty());
        }
        let mut i: usize = 0;
        while i < self.linear_combination_paths.len()
            invariant
                self.wf(),
                rhs.wf(),
                self.spec_quiver() == q,
                rhs.spec_quiver() == q,
                self.terms() == a,
                rhs.terms() == b,
                ring_ops_total::<Coeffs>(),
                i <= a.len(),
                keys_distinct(terms_of(new_path@)),
                all_valid(q, terms_of(new_path@)),
                contributions == all_products(q, OP_ALG, a.take(i as int), b),
                obeys_ring_spec::<Coeffs>() ==> terms_of(new_path@) == add_terms(Seq::empty(), contributions, false),
            decreases a.len() - i,
        {
            let ghost row_start = contributions;
            let mut j: usize = 0;
            proof {
                assert(b.take(0) =~= Seq::<(BasisView, Coeffs)>::empty());
                assert(a.take(i + 1).drop_last() =~= a.take(i as int));
                assert(row_start + row_products(q, OP_ALG, a[i as int], b.take(0)) =~= row_start);
            }
            while j < rhs.linear_combination_paths.len()
                invariant
                    self.wf(),
                    rhs.wf(),
                    self.spec_quiver() == q,
                    rhs.spec_quiver() == q,
                    self.terms() == a,
                    rhs.terms() == b,
                    ring_ops_total::<Coeffs>(),
                    i < a.len(),
                    j <= b.len(),
                    keys_distinct(terms_of(new_path@)),
                    all_valid(q, terms_of(new_path@)),
                    contributions == row_start + row_products(q, OP_ALG, a[i as int], b.take(j as int)),
                    obeys_ring_spec::<Coeffs>() ==> terms_of(new_path@) == add_terms(Seq::empty(), contributions, false),
                decreases b.len() - j,
            {
                let k1 = &self.linear_combination_paths[i].0;
                let k2 = &rhs.linear_combination_paths[j].0;
                assert(a[i as int].0 == k1@ && b[j as int].0 == k2@);
                assert(valid_basis(q, k1@));
                assert(valid_basis(q, k2@));
                let product = self.quiver.multiply_basis::<OP_ALG>(k1, k2);
                proof {
                    assert(b.take(j + 1).drop_last() =~= b.take(j as int));
                }
                match product {
                    Some(new_k) => {
                        let coeff_contrib = self.linear_combination_paths[i].1.mul(rhs.linear_combination_paths[j].1);
                        let ghost before = terms_of(new_path@);
                        proof {
                            lemma_product_valid(q, OP_ALG, k1@, k2@);
                        }
                        accumulate(&mut new_path, new_k, coeff_contrib, false);
                        proof {
                            let item = (new_k@, a[i as int].1.mul_spec(b[j as int].1));
                            let old_contributions = contributions;
                            contributions = contributions.push(item);
                            assert(contributions.drop_last() =~= old_contributions);
                            assert(row_products(q, OP_ALG, a[i as int], b.take(j + 1)) =~= row_products(
                                q,
                                OP_ALG,
                                a[i as int],
                                b.take(j as int),
                            ).push(item));
                            assert(contributions =~= row_start + row_products(q, OP_ALG, a[i as int], b.take(j + 1)));
                            assert forall|x: int| 0 <= x < terms_of(new_path@).len() implies valid_basis(
                                q,
                                #[trigger] terms_of(new_path@)[x].0,
                            ) by {
                                let y = terms_of(new_path@)[x].0;
                                assert(has_key(terms_of(new_path@), y));
                                if has_key(before, y) {
                                    let jj = choose|jj: int| 0 <= jj < before.len() && #[trigger] before[jj].0 == y;
                                    assert(valid_basis(q, before[jj].0));
                                }
                            }
                        }
                    },
                    None => {
                        proof {
                            assert(row_products(q, OP_ALG, a[i as int], b.take(j + 1)) =~= row_products(
                                q,
                                OP_ALG,
                                a[i as int],
                                b.take(j as int),
                            ));
                        }
                    },
                }
                j = j + 1;
            }
            proof {
                assert(b.take(b.len() as int) =~= b);
                assert(a.take(i + 1).drop_last() =~= a.take(i as int));
                assert(a.take(i + 1).last() == a[i as int]);
            }
            i = i + 1;
        }
        proof {
            assert(a.take(a.len() as int) =~= a);
        }
        self.linear_combination_paths = new_path;
    }
}

impl<Coeffs: Ring + Copy, const OP_ALG: bool> PathAlgebra<Coeffs, OP_ALG> {
    /// Multiply every term by the basis element `x`, on the right (`x_right`)
    /// or on the left, keeping the coefficients and summing equal products.
    fn mul_by_basis(&mut self, x: &BasisElt, x_right: bool)
        requires
            old(self).wf(),
            valid_basis(old(self).spec_quiver(), x@),
            ring_ops_total::<Coeffs>(),
        ensures
            final(self).wf(),
            final(self).spec_quiver() == old(self).spec_quiver(),
            obeys_ring_spec::<Coeffs>() ==> final(self).terms() == add_terms(
                Seq::empty(),
                basis_products(old(self).spec_quiver(), OP_ALG, old(self).terms(), x@, x_right),
                false,
            ),
    {
        let ghost q = self.spec_quiver();
        let ghost a = self.terms();
        let mut new_path: Vec<(BasisElt, Coeffs)> = Vec::new();
        proof {
            assert(terms_of(new_path@) =~= Seq::<(BasisView, Coeffs)>::empty());
            assert(a.take(0) =~= Seq::<(BasisView, Coeffs)>::empty());
        }
        let mut i: usize = 0;
        while i < self.linear_combination_paths.len()
            invariant
                self.wf(),
                self.spec_quiver() == q,
                self.terms() == a,
                valid_basis(q, x@),
                ring_ops_total::<Coeffs>(),
                i <= a.len(),
                keys_distinct(terms_of(new_path@)),
                all_valid(q, terms_of(new_path@)),
                obeys_ring_spec::<Coeffs>() ==> terms_of(new_path@) == add_terms(
                    Seq::empty(),
                    basis_products(q, OP_ALG, a.take(i as int), x@, x_right),
                    false,
                ),
            decreases a.len() - i,
        {
            let k1 = &self.linear_combination_paths[i].0;
            assert(a[i as int].0 == k1@);
            assert(valid_basis(q, k1@));
            let product = if x_right {
                self.quiver.multiply_basis::<OP_ALG>(k1, x)
            } else {
                self.quiver.multiply_basis::<OP_ALG>(x, k1)
            };
            proof {
                assert(a.take(i + 1).drop_last() =~= a.take(i as int));
                assert(a.take(i + 1).last() == a[i as int]);
            }
            match product {
                Some(new_k) => {
                    let coeff = self.linear_combination_paths[i].1;
                    let ghost before = terms_of(new_path@);
                    proof {
                        if x_right {
                            lemma_product_valid(q, OP_ALG, k1@, x@);
                        } else {
                            lemma_product_valid(q, OP_ALG, x@, k1@);
                        }
                    }
                    accumulate(&mut new_path, new_k, coeff, false);
                    proof {
                        let item = (new_k@, coeff);
                        assert(basis_products(q, OP_ALG, a.take(i + 1), x@, x_right) =~= basis_products(
                            q,
                            OP_ALG,
                            a.take(i as int),
                            x@,
                            x_right,
                        ).push(item));
                        assert(basis_products(q, OP_ALG, a.take(i + 1), x@, x_right).drop_last() =~= basis_products(
                            q,
                            OP_ALG,
                            a.take(i as int),
                            x@,
                            x_right,
                        ));
                        assert forall|y: int| 0 <= y < terms_of(new_path@).len() implies valid_basis(
                            q,
                            #[trigger] terms_of(new_path@)[y].0,
                        ) by {
                            let z = terms_of(new_path@)[y].0;
                            assert(has_key(terms_of(new_path@), z));
                            if has_key(before, z) {
                                let jj = choose|jj: int| 0 <= jj < before.len() && #[trigger] before[jj].0 == z;
                                assert(valid_basis(q, before[jj].0));
                            }
                        }
                    }
                },
                None => {
                    proof {
                        assert(basis_products(q, OP_ALG, a.take(i + 1), x@, x_right) =~= basis_products(
                            q,
                            OP_ALG,
                            a.take(i as int),
                            x@,
                            x_right,
                        ));
                    }
                },
            }
            i = i + 1;
        }
        proof {
            assert(a.take(a.len() as int) =~= a);
        }
        self.linear_combination_paths = new_path;
    }

    /// `self *= x` for a basis element `x`.
    pub fn mul_assign_basis(&mut self, x: BasisElt)
        requires
            old(self).wf(),
            valid_basis(old(self).spec_quiver(), x@),
            ring_ops_total::<Coeffs>(),
        ensures
            final(self).wf(),
            final(self).spec_quiver() == old(self).spec_quiver(),
            obeys_ring_spec::<Coeffs>() ==> final(self).terms() == add_terms(
                Seq::empty(),
                basis_products(old(self).spec_quiver(), OP_ALG, old(self).terms(), x@, true),
                false,
            ),
    {
        self.mul_by_basis(&x, true);
    }

    /// `x * self` for a basis element `x`.
    pub fn basis_mul(x: BasisElt, rhs: Self) -> (r: Self)
        requires
            rhs.wf(),
            valid_basis(rhs.spec_quiver(), x@),
            ring_ops_total::<Coeffs>(),
        ensures
            r.wf(),
            r.spec_quiver() == rhs.spec_quiver(),
            obeys_ring_spec::<Coeffs>() ==> r.terms() == add_terms(
                Seq::empty(),
                basis_products(rhs.spec_quiver(), OP_ALG, rhs.terms(), x@, false),
                false,
            ),
    {
        let mut rhs = rhs;
        rhs.mul_by_basis(&x, false);
        rhs
    }

    /// `self *= c`: every coefficient multiplied by `c` on the right.
    pub fn scale_assign(&mut self, c: Coeffs)
        requires
            old(self).wf(),
            ring_ops_total::<Coeffs>(),
        ensures
            final(self).wf(),
            final(self).spec_quiver() == old(self).spec_quiver(),
            keys_of(final(self).terms()) == keys_of(old(self).terms()),
            obeys_ring_spec::<Coeffs>() ==> forall|i: int|
                0 <= i < final(self).terms().len() ==> #[trigger] final(self).terms()[i].1
                    == old(self).terms()[i].1.mul_spec(c),
    {
        let ghost t0 = self.terms();
        let mut i: usize = 0;
        while i < self.linear_combination_paths.len()
            invariant
                ring_ops_total::<Coeffs>(),
                self.spec_quiver() == old(self).spec_quiver(),
                self.spec_quiver().wf(),
                t0 == old(self).terms(),
                self.terms().len() == t0.len(),
                i <= t0.len(),
                forall|j: int| 0 <= j < t0.len() ==> #[trigger] self.terms()[j].0 == t0[j].0,
                forall|j: int| i <= j < t0.len() ==> #[trigger] self.terms()[j].1 == t0[j].1,
                obeys_ring_spec::<Coeffs>() ==> forall|j: int|
                    0 <= j < i ==> #[trigger] self.terms()[j].1 == t0[j].1.mul_spec(c),
            decreases t0.len() - i,
        {
            let ghost before = self.linear_combination_paths@;
            let ghost tb = self.terms();
            let (k, v) = self.linear_combination_paths.remove(i);
            let nv = v.mul(c);
            self.linear_combination_paths.insert(i, (k, nv));
            proof {
                assert(self.linear_combination_paths@ =~= before.update(i as int, (k, nv)));
                assert(k == before[i as int].0 && v == before[i as int].1);
                assert(tb[i as int].0 == t0[i as int].0);
                assert(tb[i as int].1 == t0[i as int].1);
                assert(tb[i as int] == (before[i as int].0@, before[i as int].1));
                assert forall|j: int| 0 <= j < t0.len() implies #[trigger] self.terms()[j].0 == t0[j].0 by {
                    if j != i {
                        assert(self.terms()[j] == tb[j]);
                        assert(tb[j].0 == t0[j].0);
                    }
                }
                assert forall|j: int| i + 1 <= j < t0.len() implies #[trigger] self.terms()[j].1 == t0[j].1 by {
                    assert(self.terms()[j] == tb[j]);
                    assert(tb[j].1 == t0[j].1);
                }
                if obeys_ring_spec::<Coeffs>() {
                    assert forall|j: int| 0 <= j < i + 1 implies #[trigger] self.terms()[j].1 == t0[j].1.mul_spec(c) by {
                        if j < i {
                            assert(self.terms()[j] == tb[j]);
                            assert(tb[j].1 == t0[j].1.mul_spec(c));
                        }
                    }
                }
            }
            i = i + 1;
        }
        proof {
            assert(keys_of(self.terms()) =~= keys_of(t0));
            assert(keys_distinct(self.terms())) by {
                assert forall|a: int, b: int| 0 <= a < b < self.terms().len() implies #[trigger] self.terms()[a].0
                    != #[trigger] self.terms()[b].0 by {
                    assert(t0[a].0 != t0[b].0);
                }
            }
            assert forall|j: int| 0 <= j < self.terms().len() implies valid_basis(
                self.spec_quiver(),
                #[trigger] self.terms()[j].0,
            ) by {
                assert(self.terms()[j].0 == t0[j].0);
            }
        }
    }

    /// `-self`: every coefficient negated.
    pub fn negate(&mut self)
        requires
            old(self).wf(),
            ring_ops_total::<Coeffs>(),
        ensures
            final(self).wf(),
            final(self).spec_quiver() == old(self).spec_quiver(),
            keys_of(final(self).terms()) == keys_of(old(self).terms()),
            obeys_ring_spec::<Coeffs>() ==> forall|i: int|
                0 <= i < final(self).terms().len() ==> #[trigger] final(self).terms()[i].1
                    == old(self).terms()[i].1.neg_spec(),
    {
        let ghost t0 = self.terms();
        let mut i: usize = 0;
        while i < self.linear_combination_paths.len()
            invariant
                ring_ops_total::<Coeffs>(),
                self.spec_quiver() == old(self).spec_quiver(),
                self.spec_quiver().wf(),
                t0 == old(self).terms(),
                self.terms().len() == t0.len(),
                i <= t0.len(),
                forall|j: int| 0 <= j < t0.len() ==> #[trigger] self.terms()[j].0 == t0[j].0,
                forall|j: int| i <= j < t0.len() ==> #[trigger] self.terms()[j].1 == t0[j].1,
                obeys_ring_spec::<Coeffs>() ==> forall|j: int|
                    0 <= j < i ==> #[trigger] self.terms()[j].1 == t0[j].1.neg_spec(),
            decreases t0.len() - i,
        {
            let ghost before = self.linear_combination_paths@;
            let ghost tb = self.terms();
            let (k, v) = self.linear_combination_paths.remove(i);
            let nv = v.neg();
            self.linear_combination_paths.insert(i, (k, nv));
            proof {
                assert(self.linear_combination_paths@ =~= before.update(i as int, (k, nv)));
                assert(k == before[i as int].0 && v == before[i as int].1);
                assert(tb[i as int].0 == t0[i as int].0);
                assert(tb[i as int].1 == t0[i as int].1);
                assert(tb[i as int] == (before[i as int].0@, before[i as int].1));
                assert forall|j: int| 0 <= j < t0.len() implies #[trigger] self.terms()[j].0 == t0[j].0 by {
                    if j != i {
                        assert(self.terms()[j] == tb[j]);
                        assert(tb[j].0 == t0[j].0);
                    }
                }
                assert forall|j: int| i + 1 <= j < t0.len() implies #[trigger] self.terms()[j].1 == t0[j].1 by {
                    assert(self.terms()[j] == tb[j]);
                    assert(tb[j].1 == t0[j].1);
                }
                if obeys_ring_spec::<Coeffs>() {
                    assert forall|j: int| 0 <= j < i + 1 implies #[trigger] self.terms()[j].1 == t0[j].1.neg_spec() by {
                        if j < i {
                            assert(self.terms()[j] == tb[j]);
                            assert(tb[j].1 == t0[j].1.neg_spec());
                        }
                    }
                }
            }
            i = i + 1;
        }
        proof {
            assert(keys_of(self.terms()) =~= keys_of(t0));
            assert(keys_distinct(self.terms())) by {
                assert forall|a: int, b: int| 0 <= a < b < self.terms().len() implies #[trigger] self.terms()[a].0
                    != #[trigger] self.terms()[b].0 by {
                    assert(t0[a].0 != t0[b].0);
                }
            }
            assert forall|j: int| 0 <= j < self.terms().len() implies valid_basis(
                self.spec_quiver(),
                #[trigger] self.terms()[j].0,
            ) by {
                assert(self.terms()[j].0 == t0[j].0);
            }
        }
    }
}

/// The nodes where a basis element begins and ends.
pub open spec fn term_ends(q: Quiver, b: BasisView) -> (nat, nat) {
    if b.0 {
        (q.node_of(b.1[0]), q.node_of(b.1[0]))
    } else {
        (q.source_node(b.1[0]), q.target_node(b.1.last()))
    }
}

/// Every term of `t` begins and ends at the same nodes as the first.
pub open spec fn terms_parallel<C>(q: Quiver, t: Seq<(BasisView, C)>) -> bool {
    forall|i: int| 0 <= i < t.len() ==> #[trigger] term_ends(q, t[i].0) == term_ends(q, t[0].0)
}

/// Every term is a path whose last arrow ends where its first arrow begins.
pub open spec fn terms_cyclic<C>(q: Quiver, t: Seq<(BasisView, C)>) -> bool {
    forall|i: int|
        0 <= i < t.len() ==> !(#[trigger] t[i].0).0 && q.spec_composable(t[i].0.1.last(), t[i].0.1[0])
}

impl<Coeffs: Ring + Copy, const OP_ALG: bool> PathAlgebra<Coeffs, OP_ALG> {
    /// Every term is a path whose last arrow composes back into its first arrow.
    #[must_use]
    pub fn is_cyclic(&self) -> (r: bool)
        requires
            self.wf(),
        ensures
            r == terms_cyclic(self.spec_quiver(), self.terms()),
    {
        let mut i: usize = 0;
        while i < self.linear_combination_paths.len()
            invariant
                self.wf(),
                i <= self.terms().len(),
                forall|j: int|
                    0 <= j < i ==> !(#[trigger] self.terms()[j].0).0 && self.spec_quiver().spec_composable(
                        self.terms()[j].0.1.last(),
                        self.terms()[j].0.1[0],
                    ),
            decreases self.terms().len() - i,
        {
            assert(self.terms()[i as int].0 == self.linear_combination_paths@[i as int].0@);
            match &self.linear_combination_paths[i].0 {
                BasisElt::Path(path) => {
                    let first_edge = word_first(path);
                    let last_edge = word_last(path);
                    if !self.quiver.composable(&last_edge, &first_edge) {
                        assert(!self.spec_quiver().spec_composable(
                            self.terms()[i as int].0.1.last(),
                            self.terms()[i as int].0.1[0],
                        ));
                        return false;
                    }
                },
                BasisElt::Idempotent(_) => {
                    assert(self.terms()[i as int].0.0);
                    return false;
                },
            }
            i = i + 1;
        }
        true
    }

    /// The nodes where the `i`-th term begins and ends.
    fn term_nodes(&self, i: usize) -> (r: (usize, usize))
        requires
            self.wf(),
            i < self.terms().len(),
        ensures
            r.0 as nat == term_ends(self.spec_quiver(), self.terms()[i as int].0).0,
            r.1 as nat == term_ends(self.spec_quiver(), self.terms()[i as int].0).1,
            self.spec_quiver().nodes().contains_key(r.0 as nat),
            self.spec_quiver().nodes().contains_key(r.1 as nat),
    {
        let q = &self.quiver;
        let ghost b = self.terms()[i as int].0;
        assert(valid_basis(self.spec_quiver(), b));
        match &self.linear_combination_paths[i].0 {
            BasisElt::Path(path) => {
                let _ = word_len(path);
                let first_edge = word_first(path);
                let last_edge = word_last(path);
                assert(self.spec_quiver().has_arrow(b.1[0]));
                assert(self.spec_quiver().has_arrow(b.1[b.1.len() - 1]));
                match (q.edge_endpoints(&first_edge), q.edge_endpoints(&last_edge)) {
                    (Some((s, _)), Some((_, t))) => (s, t),
                    _ => {
                        assert(false);
                        (0, 0)
                    },
                }
            },
            BasisElt::Idempotent(v) => {
                match q.vertex_idx(v) {
                    Some(j) => {
                        assert(self.spec_quiver().vertex_index().contains_key(v@));
                        (j, j)
                    },
                    None => {
                        assert(false);
                        (0, 0)
                    },
                }
            },
        }
    }

    /// Where all the terms begin and end at the same two vertices, those two
    /// vertices: `Ok(Some((source, target)))`; `Ok(None)` for the element with no
    /// terms (parallel vacuously); `Err(())` where two terms begin or end at
    /// different vertices.
    #[allow(clippy::result_unit_err)]
    pub fn all_parallel(&self) -> (r: Result<Option<(String, String)>, ()>)
        requires
            self.wf(),
        ensures
            r is Ok <==> terms_parallel(self.spec_quiver(), self.terms()),
            r matches Ok(None) ==> self.terms().len() == 0,
            r matches Ok(Some((s, t))) ==> self.terms().len() > 0 && s@ == self.spec_quiver().nodes()[term_ends(
                self.spec_quiver(),
                self.terms()[0].0,
            ).0] && t@ == self.spec_quiver().nodes()[term_ends(self.spec_quiver(), self.terms()[0].0).1],
    {
        let n = self.linear_combination_paths.len();
        if n == 0 {
            return Ok(None);
        }
        let (src0, tgt0) = self.term_nodes(0);
        let mut i: usize = 1;
        while i < n
            invariant
                self.wf(),
                n == self.terms().len(),
                1 <= i <= n,
                src0 as nat == term_ends(self.spec_quiver(), self.terms()[0].0).0,
                tgt0 as nat == term_ends(self.spec_quiver(), self.terms()[0].0).1,
                forall|j: int|
                    0 <= j < i ==> #[trigger] term_ends(self.spec_quiver(), self.terms()[j].0) == term_ends(
                        self.spec_quiver(),
                        self.terms()[0].0,
                    ),
            decreases n - i,
        {
            let (s, t) = self.term_nodes(i);
            if s != src0 || t != tgt0 {
                return Err(());
            }
            i = i + 1;
        }
        let src_label = self.quiver.vertex_label(src0);
        let tgt_label = self.quiver.vertex_label(tgt0);
        match (src_label, tgt_label) {
            (Some(s), Some(t)) => Ok(Some((s, t))),
            _ => {
                assert(false);
                Err(())
            },
        }
    }
}

/// `b` is a path of `degree` arrows, or an idempotent and `degree` is 0.
pub open spec fn basis_degree_is(b: BasisView, degree: nat) -> bool {
    if b.0 {
        degree == 0
    } else {
        b.1.len() == degree
    }
}

/// `b` is an idempotent or a path of at most `degree` arrows.
pub open spec fn basis_degree_at_most(b: BasisView, degree: nat) -> bool {
    b.0 || b.1.len() <= degree
}


/// The quiver a shared pointer points to.
pub open spec fn quiver_of(a: &Arc<Quiver>) -> Quiver {
    **a
}

/// A copy of the shared pointer to a quiver (`Arc::clone`): the same quiver.
#[verifier::external_body]
pub(crate) fn arc_clone(a: &Arc<Quiver>) -> (r: Arc<Quiver>)
    ensures
        *r == **a,
{
    Arc::clone(a)
}

/// A term is a path whose last arrow composes back into its first arrow.
pub open spec fn term_is_cyclic(q: Quiver, b: BasisView) -> bool {
    !b.0 && q.spec_composable(b.1.last(), b.1[0])
}

/// The terms whose basis element is cyclic (`keep`) or not (`!keep`).
pub open spec fn cyclic_pred<C>(q: Quiver, keep: bool) -> spec_fn((BasisView, C)) -> bool {
    |t: (BasisView, C)| term_is_cyclic(q, t.0) == keep
}

impl<Coeffs: Ring + Copy, const OP_ALG: bool> PathAlgebra<Coeffs, OP_ALG> {
    /// A copy of the terms, basis elements cloned.
    fn copy_terms(&self) -> (r: Vec<(BasisElt, Coeffs)>)
        ensures
            terms_of(r@) == self.terms(),
    {
        let mut out: Vec<(BasisElt, Coeffs)> = Vec::new();
        let mut i: usize = 0;
        while i < self.linear_combination_paths.len()
            invariant
                i <= self.terms().len(),
                terms_of(out@) == self.terms().take(i as int),
            decreases self.terms().len() - i,
        {
            let k = self.linear_combination_paths[i].0.clone();
            let v = self.linear_combination_paths[i].1;
            let ghost before = out@;
            out.push((k, v));
            proof {
                assert(self.terms()[i as int] == (self.linear_combination_paths@[i as int].0@, v));
                assert(out@ == before.push((k, v)));
                assert(terms_of(out@) =~= terms_of(before).push((k@, v)));
                assert(terms_of(out@) =~= self.terms().take(i + 1));
            }
            i = i + 1;
        }
        assert(self.terms().take(i as int) =~= self.terms());
        out
    }

    /// Partition into `(cyclic_part, acyclic_part)`.
    ///
    /// A term is cyclic if its last arrow composes back into its first arrow
    /// (the path forms a closed loop). Idempotents are acyclic.
    pub fn split_cyclic(self) -> (r: (Self, Self))
        requires
            self.wf(),
        ensures
            r.0.wf(),
            r.1.wf(),
            r.0.spec_quiver() == self.spec_quiver(),
            r.1.spec_quiver() == self.spec_quiver(),
            r.0.terms() == self.terms().filter(cyclic_pred(self.spec_quiver(), true)),
            r.1.terms() == self.terms().filter(cyclic_pred(self.spec_quiver(), false)),
    {
        let ghost q = self.spec_quiver();
        let ghost t = self.terms();
        let ghost cyc = cyclic_pred::<Coeffs>(q, true);
        let ghost acyc = cyclic_pred::<Coeffs>(q, false);
        let PathAlgebra { quiver, linear_combination_paths } = self;
        let mut cyclic: Vec<(BasisElt, Coeffs)> = Vec::new();
        let mut acyclic: Vec<(BasisElt, Coeffs)> = Vec::new();
        let mut i: usize = 0;
        proof {
            reveal_with_fuel(Seq::filter, 1);
            assert(t.take(0) =~= Seq::<(BasisView, Coeffs)>::empty());
            assert(terms_of(cyclic@) =~= Seq::<(BasisView, Coeffs)>::empty());
            assert(terms_of(acyclic@) =~= Seq::<(BasisView, Coeffs)>::empty());
        }
        while i < linear_combination_paths.len()
            invariant
                q.wf(),
                *quiver == q,
                t == terms_of(linear_combination_paths@),
                cyc == cyclic_pred::<Coeffs>(q, true),
                acyc == cyclic_pred::<Coeffs>(q, false),
                keys_distinct(t),
                all_valid(q, t),
                i <= t.len(),
                terms_of(cyclic@) == t.take(i as int).filter(cyc),
                terms_of(acyclic@) == t.take(i as int).filter(acyc),
            decreases t.len() - i,
        {
            let k = linear_combination_paths[i].0.clone();
            let v = linear_combination_paths[i].1;
            assert(t[i as int] == (linear_combination_paths@[i as int].0@, v));
            assert(t[i as int] == (k@, v));
            assert(valid_basis(q, t[i as int].0));
            let is_cyc = match &k {
                BasisElt::Path(path) => {
                    let first_edge = word_first(path);
                    let last_edge = word_last(path);
                    quiver.composable(&last_edge, &first_edge)
                },
                BasisElt::Idempotent(_) => false,
            };
            proof {
                reveal_with_fuel(Seq::filter, 1);
                assert(t.take(i + 1).drop_last() =~= t.take(i as int));
                assert(t.take(i + 1).last() == t[i as int]);
                assert(is_cyc == term_is_cyclic(q, k@));
            }
            let ghost cb = cyclic@;
            let ghost ab = acyclic@;
            proof {
                let tt = t.take(i + 1);
                assert(tt.filter(cyc) == (if cyc(tt.last()) {
                    tt.drop_last().filter(cyc).push(tt.last())
                } else {
                    tt.drop_last().filter(cyc)
                }));
                assert(tt.filter(acyc) == (if acyc(tt.last()) {
                    tt.drop_last().filter(acyc).push(tt.last())
                } else {
                    tt.drop_last().filter(acyc)
                }));
                assert(tt.last() == (k@, v));
                assert(cyc((k@, v)) == term_is_cyclic(q, k@));
                assert(acyc((k@, v)) == !term_is_cyclic(q, k@));
            }
            if is_cyc {
                cyclic.push((k, v));
                proof {
                    assert(cyclic@ == cb.push((k, v)));
                    assert(terms_of(cyclic@) =~= terms_of(cb).push((k@, v)));
                }
            } else {
                acyclic.push((k, v));
                proof {
                    assert(acyclic@ == ab.push((k, v)));
                    assert(terms_of(acyclic@) =~= terms_of(ab).push((k@, v)));
                }
            }
            i = i + 1;
        }
        proof {
            assert(t.take(i as int) =~= t);
            lemma_filter_keeps_keys(t, cyc);
            lemma_filter_keeps_keys(t, acyc);
            assert(all_valid(q, t.filter(cyc)));
            assert(all_valid(q, t.filter(acyc)));
        }
        let other = arc_clone(&quiver);
        let c = PathAlgebra { quiver, linear_combination_paths: cyclic };
        let a = PathAlgebra { quiver: other, linear_combination_paths: acyclic };
        (c, a)
    }
}

/// Filtering the terms keeps their basis elements distinct and valid.
proof fn lemma_filter_keeps_keys<C>(t: Seq<(BasisView, C)>, p: spec_fn((BasisView, C)) -> bool)
    ensures
        keys_distinct(t) ==> keys_distinct(t.filter(p)),
        forall|q: Quiver| all_valid(q, t) ==> #[trigger] all_valid(q, t.filter(p)),
        forall|x: (BasisView, C)| #[trigger] t.filter(p).contains(x) ==> t.contains(x),
    decreases t.len(),
{
    reveal_with_fuel(Seq::filter, 1);
    if t.len() > 0 {
        lemma_filter_keeps_keys(t.drop_last(), p);
        let f = t.drop_last().filter(p);
        assert(t.filter(p) == (if p(t.last()) {
            f.push(t.last())
        } else {
            f
        }));
        assert forall|x: (BasisView, C)| #[trigger] t.filter(p).contains(x) implies t.contains(x) by {
            if f.contains(x) {
                assert(t.drop_last().contains(x));
                let j = choose|j: int| 0 <= j < t.drop_last().len() && t.drop_last()[j] == x;
                assert(t[j] == x);
            } else {
                assert(x == t.last());
                assert(t[t.len() - 1] == x);
            }
        }
        assert forall|q: Quiver| all_valid(q, t) implies #[trigger] all_valid(q, t.filter(p)) by {
            assert(all_valid(q, t.drop_last())) by {
                assert forall|i: int| 0 <= i < t.drop_last().len() implies valid_basis(q, #[trigger] t.drop_last()[i].0) by {
                    assert(t.drop_last()[i] == t[i]);
                }
            }
            assert(all_valid(q, f));
            assert forall|i: int| 0 <= i < t.filter(p).len() implies valid_basis(q, #[trigger] t.filter(p)[i].0) by {
                if i < f.len() {
                    assert(t.filter(p)[i] == f[i]);
                } else {
                    assert(t.filter(p)[i] == t.last());
                    assert(valid_basis(q, t[t.len() - 1].0));
                }
            }
        }
        if keys_distinct(t) {
            assert(keys_distinct(t.drop_last())) by {
                assert forall|a: int, b: int| 0 <= a < b < t.drop_last().len() implies #[trigger] t.drop_last()[a].0
                    != #[trigger] t.drop_last()[b].0 by {
                    assert(t[a].0 != t[b].0);
                }
            }
            if p(t.last()) {
                assert forall|a: int, b: int| 0 <= a < b < t.filter(p).len() implies #[trigger] t.filter(p)[a].0
                    != #[trigger] t.filter(p)[b].0 by {
                    if b == f.len() {
                        assert(f.contains(f[a]));
                        assert(t.drop_last().contains(f[a]));
                        let j = choose|j: int| 0 <= j < t.drop_last().len() && t.drop_last()[j] == f[a];
                        assert(t[j].0 != t[t.len() - 1].0);
                    }
                }
            }
        }
    }
}

impl<Coeffs: Ring + Copy> PathAlgebra<Coeffs, true> {
    /// Reinterpret this `kQ^op` element as a `kQ` element without changing the
    /// stored data; only the multiplication convention changes.
    pub fn toggle_convention(self) -> (r: PathAlgebra<Coeffs, false>)
        ensures
            r.spec_quiver() == self.spec_quiver(),
            r.terms() == self.terms(),
    {
        PathAlgebra { quiver: self.quiver, linear_combination_paths: self.linear_combination_paths }
    }
}

impl<Coeffs: Ring + Copy> PathAlgebra<Coeffs, false> {
    /// Reinterpret this `kQ` element as a `kQ^op` element without changing the
    /// stored data; only the multiplication convention changes.
    pub fn toggle_convention(self) -> (r: PathAlgebra<Coeffs, true>)
        ensures
            r.spec_quiver() == self.spec_quiver(),
            r.terms() == self.terms(),
    {
        PathAlgebra { quiver: self.quiver, linear_combination_paths: self.linear_combination_paths }
    }
}


/// `w` with the arrow at position `idx` taken out and the rest rotated to
/// start just after it: `w[idx+1..] ++ w[..idx]`.
pub open spec fn rotate_out(w: Seq<Seq<char>>, idx: int) -> Seq<Seq<char>> {
    w.subrange(idx + 1, w.len() as int) + w.subrange(0, idx)
}

/// What is left when the arrow at position `idx` is taken out of the cyclic
/// path `w`: the rotated path, or, for a path of one arrow, the idempotent at
/// that arrow's source.
pub open spec fn derivative_basis(q: Quiver, w: Seq<Seq<char>>, idx: int) -> BasisView {
    if w.len() == 1 {
        (true, seq![q.nodes()[q.source_node(w[idx])]])
    } else {
        (false, rotate_out(w, idx))
    }
}

/// The terms `c * derivative_basis(w, p)` for the positions `p` in `lo..hi`
/// where `w` has the arrow `e`, from the highest position down.
pub open spec fn occurrences<C>(q: Quiver, w: Seq<Seq<char>>, e: Seq<char>, c: C, hi: int, lo: int) -> Seq<
    (BasisView, C),
>
    decreases hi - lo,
{
    if hi <= lo {
        Seq::empty()
    } else {
        occurrences(q, w, e, c, hi, lo + 1) + if w[lo] == e {
            seq![(derivative_basis(q, w, lo), c)]
        } else {
            Seq::empty()
        }
    }
}

/// The terms the cyclic derivative by `e` makes of one term: nothing for an
/// idempotent, one term for each occurrence of `e` in a path.
pub open spec fn term_derivative<C>(q: Quiver, t: (BasisView, C), e: Seq<char>) -> Seq<(BasisView, C)> {
    if t.0.0 {
        Seq::empty()
    } else {
        occurrences(q, t.0.1, e, t.1, t.0.1.len() as int, 0)
    }
}

/// The terms the cyclic derivative by `e` makes of each term of `t`, in order.
pub open spec fn derivative_contributions<C>(q: Quiver, t: Seq<(BasisView, C)>, e: Seq<char>) -> Seq<
    (BasisView, C),
>
    decreases t.len(),
{
    if t.len() == 0 {
        Seq::empty()
    } else {
        derivative_contributions(q, t.drop_last(), e) + term_derivative(q, t.last(), e)
    }
}

/// Every path among the terms is cyclic.
pub open spec fn paths_cyclic<C>(q: Quiver, t: Seq<(BasisView, C)>) -> bool {
    forall|i: int| 0 <= i < t.len() && !(#[trigger] t[i].0).0 ==> term_is_cyclic(q, t[i].0)
}

/// Where the arrow `e` is a self-loop, its vertex label names the node it
/// sits at (so the idempotent the cyclic derivative by `e` may leave begins
/// and ends where `e` does).
pub open spec fn loop_vertex_named(q: Quiver, e: Seq<char>) -> bool {
    q.source_node(e) == q.target_node(e) ==> q.node_of(q.nodes()[q.source_node(e)]) == q.source_node(e)
}

/// Every term of `t` runs from the node `e` enters to the node `e` leaves.
pub open spec fn runs_against<C>(q: Quiver, t: Seq<(BasisView, C)>, e: Seq<char>) -> bool {
    forall|y: int| 0 <= y < t.len() ==> #[trigger] term_ends(q, t[y].0) == (q.target_node(e), q.source_node(e))
}

/// Taking the arrow at position `idx` out of the cyclic path `w` leaves an
/// element running from where that arrow ends to where it begins.
proof fn lemma_derivative_basis_ends(q: Quiver, w: Seq<Seq<char>>, idx: int)
    requires
        q.wf(),
        valid_basis(q, (false, w)),
        term_is_cyclic(q, (false, w)),
        0 <= idx < w.len(),
        loop_vertex_named(q, w[idx]),
    ensures
        term_ends(q, derivative_basis(q, w, idx)) == (q.target_node(w[idx]), q.source_node(w[idx])),
{
    let n = w.len() as int;
    assert(w.last() == w[n - 1]);
    if n == 1 {
        assert(q.spec_composable(w[0], w[0]));
    } else {
        let r = rotate_out(w, idx);
        let a = w.subrange(idx + 1, n);
        assert(r.len() == n - 1);
        if idx + 1 < n {
            assert(r[0] == w[idx + 1]);
            assert(q.spec_composable(w[idx], w[idx + 1]));
        } else {
            assert(r[0] == w[0]);
            assert(q.spec_composable(w[n - 1], w[0]));
        }
        assert(r.last() == r[r.len() - 1]);
        if idx > 0 {
            let k = idx - 1;
            assert(r[r.len() - 1] == w[k]);
            assert(w[k + 1] == w[idx]);
            assert(q.spec_composable(w[k], w[k + 1]));
        } else {
            assert(r[r.len() - 1] == w[n - 1]);
        }
    }
}

/// Taking an arrow out of a cyclic path of `q` leaves a valid basis element.
proof fn lemma_derivative_basis_valid(q: Quiver, w: Seq<Seq<char>>, idx: int)
    requires
        q.wf(),
        valid_basis(q, (false, w)),
        term_is_cyclic(q, (false, w)),
        0 <= idx < w.len(),
    ensures
        valid_basis(q, derivative_basis(q, w, idx)),
{
    if w.len() == 1 {
        let e = w[idx];
        assert(q.has_arrow(e));
        assert(q.edges().contains_key(q.arrow_index()[e] as nat));
        assert(q.nodes().contains_key(q.source_node(e)));
        assert(q.vertex_index().contains_key(q.nodes()[q.source_node(e)]));
    } else {
        let r = rotate_out(w, idx);
        let a = w.subrange(idx + 1, w.len() as int);
        let b = w.subrange(0, idx);
        assert(r.len() == w.len() - 1);
        assert forall|k: int| 0 <= k < r.len() implies q.has_arrow(#[trigger] r[k]) by {
            if k < a.len() {
                assert(r[k] == w[idx + 1 + k]);
            } else {
                assert(r[k] == w[k - a.len()]);
            }
        }
        assert forall|k: int| 0 <= k < r.len() - 1 implies #[trigger] q.spec_composable(r[k], r[k + 1]) by {
            if k + 1 < a.len() {
                assert(r[k] == w[idx + 1 + k] && r[k + 1] == w[idx + 1 + k + 1]);
                assert(q.spec_composable(w[idx + 1 + k], w[idx + 1 + k + 1]));
            } else if k + 1 == a.len() {
                assert(r[k] == w[w.len() - 1] && r[k + 1] == w[0]);
                assert(w.last() == w[w.len() - 1]);
            } else {
                let j = k - a.len();
                assert(r[k] == w[j] && r[k + 1] == w[j + 1]);
                assert(q.spec_composable(w[j], w[j + 1]));
            }
        }
    }
}

impl<Coeffs: Ring + Copy, const OP_ALG: bool> PathAlgebra<Coeffs, OP_ALG> {
    /// The rotation `w[idx+1..] ++ w[..idx]` of a list of labels.
    fn rotate_out_vec(w: &Vec<String>, idx: usize) -> (r: Vec<String>)
        requires
            idx < w@.len(),
        ensures
            r.deep_view() == rotate_out(w.deep_view(), idx as int),
    {
        let mut out: Vec<String> = Vec::new();
        let len = w.len();
        let mut j: usize = idx + 1;
        assert(out.deep_view() =~= w.deep_view().subrange(idx + 1, j as int));
        while j < len
            invariant
                len == w@.len(),
                idx < w@.len(),
                idx + 1 <= j <= w@.len(),
                out.deep_view() == w.deep_view().subrange(idx + 1, j as int),
            decreases w@.len() - j,
        {
            let ghost before = out.deep_view();
            out.push(w[j].clone());
            assert(out.deep_view() =~= before.push(w@[j as int]@));
            assert(w.deep_view()[j as int] == w@[j as int]@);
            assert(out.deep_view() =~= w.deep_view().subrange(idx + 1, j + 1));
            j = j + 1;
        }
        let mut k: usize = 0;
        while k < idx
            invariant
                idx < w@.len(),
                k <= idx,
                out.deep_view() == w.deep_view().subrange(idx + 1, w@.len() as int) + w.deep_view().subrange(
                    0,
                    k as int,
                ),
            decreases idx - k,
        {
            let ghost before = out.deep_view();
            out.push(w[k].clone());
            assert(out.deep_view() =~= before.push(w@[k as int]@));
            assert(w.deep_view()[k as int] == w@[k as int]@);
            assert(out.deep_view() =~= w.deep_view().subrange(idx + 1, w@.len() as int) + w.deep_view().subrange(
                0,
                k + 1,
            ));
            k = k + 1;
        }
        out
    }

    /// Replace `self` with its cyclic partial derivative with respect to the
    /// arrow `wrt_edge`.
    ///
    /// Meant for a cyclic word (a superpotential `W`). Idempotent terms are
    /// dropped. For each occurrence of `wrt_edge = a_i` in a term
    /// `c * [a_1, ..., a_n]`, from the last occurrence to the first:
    /// - if `n > 1`, it contributes `c * [a_{i+1}, ..., a_n, a_1, ..., a_{i-1}]`;
    /// - if `n = 1` (a self-loop), it contributes `c * e_{s(wrt_edge)}`.
    /// Equal basis elements have their coefficients summed.
    pub fn cyclic_derivative(&mut self, wrt_edge: &String)
        requires
            old(self).wf(),
            old(self).spec_quiver().has_arrow(wrt_edge@),
            paths_cyclic(old(self).spec_quiver(), old(self).terms()),
            ring_ops_total::<Coeffs>(),
        ensures
            final(self).wf(),
            final(self).spec_quiver() == old(self).spec_quiver(),
            obeys_ring_spec::<Coeffs>() ==> final(self).terms() == add_terms(
                Seq::empty(),
                derivative_contributions(old(self).spec_quiver(), old(self).terms(), wrt_edge@),
                false,
            ),
            loop_vertex_named(old(self).spec_quiver(), wrt_edge@) ==> runs_against(
                old(self).spec_quiver(),
                final(self).terms(),
                wrt_edge@,
            ),
    {
        let ghost q = self.spec_quiver();
        let ghost a = self.terms();
        let ghost e = wrt_edge@;
        let src = match self.quiver.edge_endpoint_labels(wrt_edge) {
            Some((s, _)) => s,
            None => {
                assert(false);
                return ;
            },
        };
        let mut acc: Vec<(BasisElt, Coeffs)> = Vec::new();
        proof {
            assert(terms_of(acc@) =~= Seq::<(BasisView, Coeffs)>::empty());
            assert(a.take(0) =~= Seq::<(BasisView, Coeffs)>::empty());
        }
        let mut i: usize = 0;
        while i < self.linear_combination_paths.len()
            invariant
                self.wf(),
                self.spec_quiver() == q,
                self.terms() == a,
                q.has_arrow(e),
                e == wrt_edge@,
                src@ == q.nodes()[q.source_node(e)],
                paths_cyclic(q, a),
                ring_ops_total::<Coeffs>(),
                i <= a.len(),
                keys_distinct(terms_of(acc@)),
                all_valid(q, terms_of(acc@)),
                obeys_ring_spec::<Coeffs>() ==> terms_of(acc@) == add_terms(
                    Seq::empty(),
                    derivative_contributions(q, a.take(i as int), e),
                    false,
                ),
                loop_vertex_named(q, e) ==> runs_against(q, terms_of(acc@), e),
            decreases a.len() - i,
        {
            let ghost t_i = a[i as int];
            proof {
                assert(a.take(i + 1).drop_last() =~= a.take(i as int));
                assert(a.take(i + 1).last() == t_i);
                assert(derivative_contributions(q, a.take(i + 1), e) == derivative_contributions(
                    q,
                    a.take(i as int),
                    e,
                ) + term_derivative(q, t_i, e));
                assert(t_i == (self.linear_combination_paths@[i as int].0@, self.linear_combination_paths@[i as int].1));
                assert(valid_basis(q, a[i as int].0));
            }
            let c = self.linear_combination_paths[i].1;
            match &self.linear_combination_paths[i].0 {
                BasisElt::Idempotent(_) => {
                    proof {
                        assert(term_derivative(q, t_i, e) =~= Seq::<(BasisView, Coeffs)>::empty());
                        assert(derivative_contributions(q, a.take(i + 1), e) =~= derivative_contributions(
                            q,
                            a.take(i as int),
                            e,
                        ));
                    }
                },
                BasisElt::Path(path) => {
                    let wv = word_to_vec(path);
                    let ghost w = wv.deep_view();
                    let ghost pre = derivative_contributions(q, a.take(i as int), e);
                    proof {
                        assert(w == t_i.0.1);
                        assert(term_is_cyclic(q, t_i.0));
                    }
                    let n = wv.len();
                    let mut p: usize = n;
                    proof {
                        assert(pre + occurrences(q, w, e, c, n as int, n as int) =~= pre);
                    }
                    while p > 0
                        invariant
                            q.wf(),
                            q == *self.quiver,
                            self.spec_quiver() == q,
                            q.has_arrow(e),
                            e == wrt_edge@,
                            src@ == q.nodes()[q.source_node(e)],
                            ring_ops_total::<Coeffs>(),
                            w == wv.deep_view(),
                            n == w.len(),
                            n >= 1,
                            valid_basis(q, (false, w)),
                            term_is_cyclic(q, (false, w)),
                            p <= n,
                            keys_distinct(terms_of(acc@)),
                            all_valid(q, terms_of(acc@)),
                            loop_vertex_named(q, e) ==> runs_against(q, terms_of(acc@), e),
                            obeys_ring_spec::<Coeffs>() ==> terms_of(acc@) == add_terms(
                                Seq::empty(),
                                pre + occurrences(q, w, e, c, n as int, p as int),
                                false,
                            ),
                        decreases p,
                    {
                        let idx = p - 1;
                        let ghost done = pre + occurrences(q, w, e, c, n as int, p as int);
                        proof {
                            assert(occurrences(q, w, e, c, n as int, idx as int) == occurrences(
                                q,
                                w,
                                e,
                                c,
                                n as int,
                                p as int,
                            ) + if w[idx as int] == e {
                                seq![(derivative_basis(q, w, idx as int), c)]
                            } else {
                                Seq::empty()
                            });
                            assert(wv@[idx as int]@ == w[idx as int]);
                        }
                        if wv[idx] == *wrt_edge {
                            let rotated = Self::rotate_out_vec(&wv, idx);
                            assert(w[idx as int] == e);
                            assert(rotated.deep_view().len() == n - 1);
                            assert(rotated@.len() == rotated.deep_view().len());
                            let key = if rotated.len() == 0 {
                                BasisElt::Idempotent(src.clone())
                            } else {
                                match word_from_vec(rotated) {
                                    Some(word) => BasisElt::Path(word),
                                    None => {
                                        assert(false);
                                        BasisElt::Idempotent(src.clone())
                                    },
                                }
                            };
                            let ghost before = terms_of(acc@);
                            proof {
                                assert(key@ == derivative_basis(q, w, idx as int));
                                lemma_derivative_basis_valid(q, w, idx as int);
                            }
                            accumulate(&mut acc, key, c, false);
                            proof {
                                let item = (key@, c);
                                assert(pre + occurrences(q, w, e, c, n as int, idx as int) =~= done.push(item));
                                assert(done.push(item).drop_last() =~= done);
                                assert forall|y: int| 0 <= y < terms_of(acc@).len() implies valid_basis(
                                    q,
                                    #[trigger] terms_of(acc@)[y].0,
                                ) by {
                                    let z = terms_of(acc@)[y].0;
                                    assert(has_key(terms_of(acc@), z));
                                    if has_key(before, z) {
                                        let jj = choose|jj: int| 0 <= jj < before.len() && #[trigger] before[jj].0 == z;
                                        assert(valid_basis(q, before[jj].0));
                                    }
                                }
                                if loop_vertex_named(q, e) {
                                    lemma_derivative_basis_ends(q, w, idx as int);
                                    assert forall|y: int| 0 <= y < terms_of(acc@).len() implies #[trigger] term_ends(
                                        q,
                                        terms_of(acc@)[y].0,
                                    ) == (q.target_node(e), q.source_node(e)) by {
                                        let z = terms_of(acc@)[y].0;
                                        assert(has_key(terms_of(acc@), z));
                                        if has_key(before, z) {
                                            let jj = choose|jj: int| 0 <= jj < before.len() && #[trigger] before[jj].0 == z;
                                            assert(term_ends(q, before[jj].0) == (q.target_node(e), q.source_node(e)));
                                        }
                                    }
                                }
                            }
                        } else {
                            proof {
                                assert(pre + occurrences(q, w, e, c, n as int, idx as int) =~= done);
                            }
                        }
                        p = idx;
                    }
                    proof {
                        assert(term_derivative(q, t_i, e) == occurrences(q, w, e, c, n as int, 0));
                    }
                },
            }
            i = i + 1;
        }
        proof {
            assert(a.take(a.len() as int) =~= a);
        }
        self.linear_combination_paths = acc;
    }
}


/// The self-loop chosen at each vertex: for each loop label in order, the
/// vertex it leaves is mapped to it (a later loop at the same vertex wins).
pub open spec fn loop_map(q: Quiver, loops: Seq<Seq<char>>) -> Map<Seq<char>, Seq<char>>
    decreases loops.len(),
{
    if loops.len() == 0 {
        Map::empty()
    } else {
        loop_map(q, loops.drop_last()).insert(q.nodes()[q.source_node(loops.last())], loops.last())
    }
}

/// The path `x y z` with coefficient `c` where its arrows compose; no term otherwise.
pub open spec fn path3_term<C>(q: Quiver, x: Seq<char>, y: Seq<char>, z: Seq<char>, c: C) -> Seq<
    (BasisView, C),
> {
    if q.spec_composable(x, y) && q.spec_composable(y, z) {
        seq![((false, seq![x, y, z]), c)]
    } else {
        Seq::empty()
    }
}

/// The terms of the Ginzburg cubic potential built from the adjoint pairs
/// `pairs` and the self-loops `loops`: for each pair `(a, a*)` in turn,
/// `w(t(a*)) a a* - w(t(a)) a* a` is added, where `w(v)` is the loop at `v`.
/// In `kQ` each term is the product of three coefficients `one`, so its
/// coefficient is `one * one`.
pub open spec fn ginzburg_terms<C: Ring>(
    q: Quiver,
    op: bool,
    pairs: Seq<(Seq<char>, Seq<char>)>,
    loops: Map<Seq<char>, Seq<char>>,
    one: C,
) -> Seq<(BasisView, C)>
    decreases pairs.len(),
{
    if pairs.len() == 0 {
        Seq::empty()
    } else {
        let a = pairs.last().0;
        let ad = pairs.last().1;
        let c = if op {
            one
        } else {
            one.mul_spec(one)
        };
        let w1 = loops[q.nodes()[q.target_node(ad)]];
        let w2 = loops[q.nodes()[q.target_node(a)]];
        add_terms(
            ginzburg_terms(q, op, pairs.drop_last(), loops, one),
            add_terms(path3_term(q, w1, a, ad, c), path3_term(q, w2, ad, a, c), true),
            false,
        )
    }
}

/// The arrows and self-loops the Ginzburg cubic is built from are present,
/// and there is a self-loop at the target of each arrow of each pair.
pub open spec fn ginzburg_inputs(q: Quiver, pairs: Seq<(Seq<char>, Seq<char>)>, loops: Seq<Seq<char>>) -> bool {
    &&& forall|k: int| 0 <= k < loops.len() ==> q.has_arrow(#[trigger] loops[k])
    &&& forall|k: int|
        0 <= k < pairs.len() ==> q.has_arrow((#[trigger] pairs[k]).0) && q.has_arrow(pairs[k].1)
            && loop_map(q, loops).contains_key(q.nodes()[q.target_node(pairs[k].0)])
            && loop_map(q, loops).contains_key(q.nodes()[q.target_node(pairs[k].1)])
}

/// The loops the loop map chooses are among the loops given.
proof fn lemma_loop_map_values(q: Quiver, loops: Seq<Seq<char>>)
    ensures
        forall|v: Seq<char>| #[trigger]
            loop_map(q, loops).contains_key(v) ==> loops.contains(loop_map(q, loops)[v]),
    decreases loops.len(),
{
    if loops.len() > 0 {
        lemma_loop_map_values(q, loops.drop_last());
        assert forall|v: Seq<char>| #[trigger] loop_map(q, loops).contains_key(v) implies loops.contains(
            loop_map(q, loops)[v],
        ) by {
            if v == q.nodes()[q.source_node(loops.last())] {
                assert(loops[loops.len() - 1] == loops.last());
            } else {
                let x = loop_map(q, loops.drop_last())[v];
                assert(loops.drop_last().contains(x));
                let j = choose|j: int| 0 <= j < loops.drop_last().len() && loops.drop_last()[j] == x;
                assert(loops[j] == x);
            }
        }
    }
}

/// Multiplying at most one term by a basis element on the right gives the
/// product term, or nothing where the product is zero.
proof fn lemma_basis_product_single<C: Ring>(q: Quiver, op: bool, s: Seq<(BasisView, C)>, x: BasisView)
    requires
        s.len() <= 1,
    ensures
        add_terms(Seq::empty(), basis_products(q, op, s, x, true), false) == (if s.len() == 0 {
            Seq::<(BasisView, C)>::empty()
        } else {
            match q.spec_multiply(op, s[0].0, x) {
                Some(k) => seq![(k, s[0].1)],
                None => Seq::empty(),
            }
        }),
{
    let e = Seq::<(BasisView, C)>::empty();
    if s.len() == 1 {
        assert(s.drop_last() =~= e);
        assert(s.last() == s[0]);
        assert(basis_products(q, op, e, x, true) =~= e);
        match q.spec_multiply(op, s[0].0, x) {
            Some(k) => {
                let item = (k, s[0].1);
                assert(basis_products(q, op, s, x, true) =~= seq![item]);
                assert(seq![item].drop_last() =~= e);
                assert(seq![item].last() == item);
                assert(add_terms(e, e, false) == e);
                assert(!has_key(e, k));
                assert(add_term(e, k, s[0].1, false) =~= seq![item]);
                assert(add_terms(e, seq![item], false) == add_term(add_terms(e, e, false), k, item.1, false));
            },
            None => {
                assert(basis_products(q, op, s, x, true) =~= e);
                assert(add_terms(e, e, false) == e);
            },
        }
    } else {
        assert(basis_products(q, op, s, x, true) =~= e);
        assert(add_terms(e, e, false) == e);
    }
}

/// Multiplying at most one term by a single term gives the product term with
/// the product coefficient, or nothing where the product is zero.
proof fn lemma_product_single<C: Ring>(q: Quiver, op: bool, s: Seq<(BasisView, C)>, u: (BasisView, C))
    requires
        s.len() <= 1,
    ensures
        add_terms(Seq::empty(), all_products(q, op, s, seq![u]), false) == (if s.len() == 0 {
            Seq::<(BasisView, C)>::empty()
        } else {
            match q.spec_multiply(op, s[0].0, u.0) {
                Some(k) => seq![(k, s[0].1.mul_spec(u.1))],
                None => Seq::empty(),
            }
        }),
{
    let e = Seq::<(BasisView, C)>::empty();
    if s.len() == 1 {
        assert(s.drop_last() =~= e);
        assert(s.last() == s[0]);
        assert(all_products(q, op, e, seq![u]) =~= e);
        assert(seq![u].drop_last() =~= e);
        assert(seq![u].last() == u);
        assert(row_products(q, op, s[0], e) =~= e);
        match q.spec_multiply(op, s[0].0, u.0) {
            Some(k) => {
                let item = (k, s[0].1.mul_spec(u.1));
                assert(row_products(q, op, s[0], seq![u]) =~= seq![item]);
                assert(all_products(q, op, s, seq![u]) =~= seq![item]);
                assert(seq![item].drop_last() =~= e);
                assert(seq![item].last() == item);
                assert(add_terms(e, e, false) == e);
                assert(!has_key(e, k));
                assert(add_term(e, k, item.1, false) =~= seq![item]);
                assert(add_terms(e, seq![item], false) == add_term(add_terms(e, e, false), k, item.1, false));
            },
            None => {
                assert(row_products(q, op, s[0], seq![u]) =~= e);
                assert(all_products(q, op, s, seq![u]) =~= e);
                assert(add_terms(e, e, false) == e);
            },
        }
    } else {
        assert(all_products(q, op, s, seq![u]) =~= e);
        assert(add_terms(e, e, false) == e);
    }
}

impl<Coeffs: Ring + Copy, const OP_ALG: bool> PathAlgebra<Coeffs, OP_ALG> {
    /// The single-arrow path `[a]`.
    fn arrow(a: &String) -> (r: BasisElt)
        ensures
            r@ == (false, seq![a@]),
    {
        BasisElt::Path(word_singleton(a.clone()))
    }

    /// The product of the three single-arrow paths `x y z`, with coefficient
    /// `one` (times `one` twice in `kQ`), built by the multiplications of the
    /// algebra: `(x * y) * z` in `kQ^op`, and `(z * y) * x` in `kQ`.
    fn path3(quiver: &Arc<Quiver>, x: &String, y: &String, z: &String, one: Coeffs) -> (r: Self)
        requires
            quiver.wf(),
            quiver.has_arrow(x@),
            quiver.has_arrow(y@),
            quiver.has_arrow(z@),
            ring_ops_total::<Coeffs>(),
        ensures
            r.wf(),
            r.spec_quiver() == **quiver,
            obeys_ring_spec::<Coeffs>() ==> r.terms() == path3_term(
                **quiver,
                x@,
                y@,
                z@,
                if OP_ALG {
                    one
                } else {
                    one.mul_spec(one)
                },
            ),
    {
        let ghost q = quiver_of(quiver);
        let bx = Self::arrow(x);
        let by = Self::arrow(y);
        let bz = Self::arrow(z);
        assert(valid_basis(q, bx@));
        assert(valid_basis(q, by@));
        assert(valid_basis(q, bz@));
        if OP_ALG {
            let mut t = Self::singleton(arc_clone(quiver), bx, one);
            let ghost s0 = t.terms();
            t.mul_assign_basis(by);
            let ghost s1 = t.terms();
            t.mul_assign_basis(bz);
            proof {
                if obeys_ring_spec::<Coeffs>() {
                    lemma_basis_product_single(q, true, s0, (false, seq![y@]));
                    assert(seq![x@] + seq![y@] =~= seq![x@, y@]);
                    assert(s1.len() <= 1);
                    lemma_basis_product_single(q, true, s1, (false, seq![z@]));
                    assert(seq![x@, y@] + seq![z@] =~= seq![x@, y@, z@]);
                    assert(seq![x@, y@].last() == y@);
                    assert(t.terms() =~= path3_term(q, x@, y@, z@, one));
                }
            }
            t
        } else {
            let mut t = Self::singleton(arc_clone(quiver), bz, one);
            let ghost s0 = t.terms();
            t.mul_assign_basis(by);
            let ghost s1 = t.terms();
            let w = Self::singleton(arc_clone(quiver), bx, one);
            t.mul_assign(w);
            proof {
                if obeys_ring_spec::<Coeffs>() {
                    lemma_basis_product_single(q, false, s0, (false, seq![y@]));
                    assert(seq![y@] + seq![z@] =~= seq![y@, z@]);
                    assert(s1.len() <= 1);
                    lemma_product_single(q, false, s1, ((false, seq![x@]), one));
                    assert(seq![x@] + seq![y@, z@] =~= seq![x@, y@, z@]);
                    assert(t.terms() =~= path3_term(q, x@, y@, z@, one.mul_spec(one)));
                }
            }
            t
        }
    }

    /// The Ginzburg cubic potential
    /// `W = sum over (a, a*) of w(t(a*)) a a* - w(t(a)) a* a`
    /// in the path algebra of the Ginzburg quiver `quiver`, where
    /// `arrows_and_daggers` are the pairs `(a, a*)` of an arrow of the original
    /// quiver and its reverse, `self_loops` the loops added at the vertices,
    /// and `w(v)` the loop at `v`. `one` is the unit of the coefficients.
    pub fn create_ginzburg_cubic(
        quiver: Arc<Quiver>,
        arrows_and_daggers: Vec<(String, String)>,
        self_loops: Vec<String>,
        one: Coeffs,
    ) -> (r: Self)
        requires
            quiver.wf(),
            ring_ops_total::<Coeffs>(),
            ginzburg_inputs(
                *quiver,
                arrows_and_daggers@.map_values(|p: (String, String)| (p.0@, p.1@)),
                self_loops.deep_view(),
            ),
        ensures
            r.wf(),
            r.spec_quiver() == *quiver,
            obeys_ring_spec::<Coeffs>() ==> r.terms() == ginzburg_terms(
                *quiver,
                OP_ALG,
                arrows_and_daggers@.map_values(|p: (String, String)| (p.0@, p.1@)),
                loop_map(*quiver, self_loops.deep_view()),
                one,
            ),
    {
        let ghost q = quiver_of(&quiver);
        let ghost pairs = arrows_and_daggers@.map_values(|p: (String, String)| (p.0@, p.1@));
        let ghost loops = self_loops.deep_view();
        let mut places: StringHashMap<String> = StringHashMap::new();
        let mut k: usize = 0;
        assert(loops.take(0) =~= Seq::<Seq<char>>::empty());
        while k < self_loops.len()
            invariant
                q.wf(),
                *quiver == q,
                loops == self_loops.deep_view(),
                forall|j: int| 0 <= j < loops.len() ==> q.has_arrow(#[trigger] loops[j]),
                k <= loops.len(),
                forall|v: Seq<char>| #[trigger]
                    places@.contains_key(v) <==> loop_map(q, loops.take(k as int)).contains_key(v),
                forall|v: Seq<char>| #[trigger]
                    places@.contains_key(v) ==> places@[v]@ == loop_map(q, loops.take(k as int))[v],
            decreases loops.len() - k,
        {
            let l = &self_loops[k];
            assert(loops[k as int] == l@);
            assert(q.has_arrow(loops[k as int]));
            let (src, _) = match quiver.edge_endpoint_labels(l) {
                Some(p) => p,
                None => {
                    assert(false);
                    return Self::zero(quiver);
                },
            };
            places.insert(src, l.clone());
            proof {
                assert(loops.take(k + 1).drop_last() =~= loops.take(k as int));
                assert(loops.take(k + 1).last() == l@);
            }
            k = k + 1;
        }
        assert(loops.take(loops.len() as int) =~= loops);
        let ghost lm = loop_map(q, loops);
        let mut cubic = Self::zero(arc_clone(&quiver));
        let mut i: usize = 0;
        assert(pairs.take(0) =~= Seq::<(Seq<char>, Seq<char>)>::empty());
        while i < arrows_and_daggers.len()
            invariant
                q.wf(),
                *quiver == q,
                ring_ops_total::<Coeffs>(),
                pairs == arrows_and_daggers@.map_values(|p: (String, String)| (p.0@, p.1@)),
                ginzburg_inputs(q, pairs, loops),
                lm == loop_map(q, loops),
                forall|v: Seq<char>| #[trigger] places@.contains_key(v) <==> lm.contains_key(v),
                forall|v: Seq<char>| #[trigger] places@.contains_key(v) ==> places@[v]@ == lm[v],
                i <= pairs.len(),
                cubic.wf(),
                cubic.spec_quiver() == q,
                obeys_ring_spec::<Coeffs>() ==> cubic.terms() == ginzburg_terms(
                    q,
                    OP_ALG,
                    pairs.take(i as int),
                    lm,
                    one,
                ),
            decreases pairs.len() - i,
        {
            let a = &arrows_and_daggers[i].0;
            let ad = &arrows_and_daggers[i].1;
            assert(pairs[i as int] == (a@, ad@));
            let (_, a_tgt) = match quiver.edge_endpoint_labels(a) {
                Some(p) => p,
                None => {
                    assert(false);
                    return cubic;
                },
            };
            let (_, ad_tgt) = match quiver.edge_endpoint_labels(ad) {
                Some(p) => p,
                None => {
                    assert(false);
                    return cubic;
                },
            };
            let w1 = match places.get(ad_tgt.as_str()) {
                Some(w) => w.clone(),
                None => {
                    assert(false);
                    return cubic;
                },
            };
            let w2 = match places.get(a_tgt.as_str()) {
                Some(w) => w.clone(),
                None => {
                    assert(false);
                    return cubic;
                },
            };
            proof {
                lemma_loop_map_values(q, loops);
                assert(loops.contains(lm[ad_tgt@]));
                assert(loops.contains(lm[a_tgt@]));
            }
            let mut diff = Self::path3(&quiver, &w1, a, ad, one);
            let second = Self::path3(&quiver, &w2, ad, a, one);
            diff.sub_assign(second);
            let ghost before = cubic.terms();
            cubic.add_assign(diff);
            proof {
                assert(pairs.take(i + 1).drop_last() =~= pairs.take(i as int));
                assert(pairs.take(i + 1).last() == pairs[i as int]);
            }
            i = i + 1;
        }
        assert(pairs.take(pairs.len() as int) =~= pairs);
        cubic
    }
}


/// The position of the first term of `s` with basis element `k` (meaningful where `has_key`).
pub open spec fn first_key_index<C>(s: Seq<(BasisView, C)>, k: BasisView) -> int {
    choose|j: int| 0 <= j < s.len() && s[j].0 == k && forall|m: int| 0 <= m < j ==> #[trigger] s[m].0 != k
}

/// `a` and `b` have as many terms, and each term of `a` has its basis element
/// in `b`, where the first such term of `b` has an equal coefficient.
pub open spec fn same_terms<C: PartialEq>(a: Seq<(BasisView, C)>, b: Seq<(BasisView, C)>) -> bool {
    &&& a.len() == b.len()
    &&& forall|i: int|
        0 <= i < a.len() ==> has_key(b, #[trigger] a[i].0) && a[i].1.eq_spec(&b[first_key_index(b, a[i].0)].1)
}

/// The first term with basis element `k` is at the first position holding it.
proof fn lemma_first_key_index<C>(b: Seq<(BasisView, C)>, k: BasisView, j: int)
    requires
        0 <= j < b.len(),
        b[j].0 == k,
        forall|m: int| 0 <= m < j ==> #[trigger] b[m].0 != k,
    ensures
        has_key(b, k),
        first_key_index(b, k) == j,
{
    let c = first_key_index(b, k);
    assert(0 <= c < b.len() && b[c].0 == k && forall|m: int| 0 <= m < c ==> #[trigger] b[m].0 != k);
    if c < j {
        assert(b[c].0 != k);
    }
    if c > j {
        assert(b[j].0 != k);
    }
}

impl<Coeffs: Ring + Copy, const OP_ALG: bool> Clone for PathAlgebra<Coeffs, OP_ALG> {
    fn clone(&self) -> (r: Self)
        ensures
            r.spec_quiver() == self.spec_quiver(),
            r.terms() == self.terms(),
    {
        PathAlgebra { quiver: arc_clone(&self.quiver), linear_combination_paths: self.copy_terms() }
    }
}

/// A coefficient is zero when it equals its difference with itself.
pub open spec fn is_zero_coeff<C: Ring + PartialEq>(c: C) -> bool {
    c.eq_spec(&c.sub_spec(c))
}

/// The terms of `s` with a nonzero coefficient, in order.
pub open spec fn nonzero_terms<C: Ring + PartialEq>(s: Seq<(BasisView, C)>) -> Seq<(BasisView, C)>
    decreases s.len(),
{
    if s.len() == 0 {
        s
    } else {
        let prev = nonzero_terms(s.drop_last());
        if is_zero_coeff(s.last().1) {
            prev
        } else {
            prev.push(s.last())
        }
    }
}

impl<Coeffs: Ring + Copy + PartialEq, const OP_ALG: bool> PathAlgebra<Coeffs, OP_ALG> {
    /// Drop the terms whose coefficient is zero (equal to its difference with itself).
    pub fn simplify_default(&mut self)
        requires
            old(self).wf(),
            ring_ops_total::<Coeffs>(),
        ensures
            final(self).wf(),
            final(self).spec_quiver() == old(self).spec_quiver(),
            Coeffs::obeys_eq_spec() && Coeffs::obeys_sub_spec() ==> final(self).terms() == nonzero_terms(
                old(self).terms(),
            ),
    {
        let ghost t = self.terms();
        let ghost q = self.spec_quiver();
        let mut out: Vec<(BasisElt, Coeffs)> = Vec::new();
        let ghost mut idx: Seq<int> = Seq::empty();
        let mut i: usize = 0;
        while i < self.linear_combination_paths.len()
            invariant
                ring_ops_total::<Coeffs>(),
                t == self.terms(),
                q == self.spec_quiver(),
                self.wf(),
                i <= t.len(),
                idx.len() == out@.len(),
                forall|k: int| 0 <= k < idx.len() ==> 0 <= #[trigger] idx[k] < i,
                forall|k: int, l: int| 0 <= k < l < idx.len() ==> #[trigger] idx[k] < #[trigger] idx[l],
                forall|k: int| 0 <= k < idx.len() ==> #[trigger] terms_of(out@)[k] == t[idx[k]],
                Coeffs::obeys_eq_spec() && Coeffs::obeys_sub_spec() ==> terms_of(out@) == nonzero_terms(
                    t.take(i as int),
                ),
            decreases t.len() - i,
        {
            let c = self.linear_combination_paths[i].1;
            let d = c - c;
            let zero = c == d;
            assert(t.take(i + 1).drop_last() =~= t.take(i as int));
            assert(t[i as int].1 == c);
            if !zero {
                let k = self.linear_combination_paths[i].0.clone();
                assert(k@ == t[i as int].0);
                let ghost before = out@;
                out.push((k, c));
                proof {
                    idx = idx.push(i as int);
                    assert(terms_of(out@) =~= terms_of(before).push((k@, c)));
                    assert(t.take(i + 1).last() == t[i as int]);
                }
            }
            i = i + 1;
        }
        assert(t.take(t.len() as int) =~= t);
        let ghost old_lc = self.linear_combination_paths@;
        self.linear_combination_paths = out;
        proof {
            assert forall|a: int, b: int| 0 <= a < b < self.terms().len() implies #[trigger] self.terms()[a].0
                != #[trigger] self.terms()[b].0 by {
                assert(self.terms()[a] == t[idx[a]] && self.terms()[b] == t[idx[b]]);
            }
            assert forall|j: int| 0 <= j < self.terms().len() implies valid_basis(q, #[trigger] self.terms()[j].0) by {
                assert(self.terms()[j] == t[idx[j]]);
            }
        }
    }

    /// Whether the first term of `other` with the basis element of the `i`-th
    /// term of `self` exists and has an equal coefficient.
    fn term_matches(&self, other: &Self, i: usize) -> (r: bool)
        requires
            i < self.terms().len(),
        ensures
            Coeffs::obeys_eq_spec() ==> r == (has_key(other.terms(), self.terms()[i as int].0)
                && self.terms()[i as int].1.eq_spec(
                &other.terms()[first_key_index(other.terms(), self.terms()[i as int].0)].1,
            )),
    {
        let ghost b = other.terms();
        let ghost k = self.terms()[i as int].0;
        let key = &self.linear_combination_paths[i].0;
        assert(key@ == k);
        let mut j: usize = 0;
        while j < other.linear_combination_paths.len()
            invariant
                b == other.terms(),
                key@ == k,
                i < self.terms().len(),
                k == self.terms()[i as int].0,
                j <= b.len(),
                forall|m: int| 0 <= m < j ==> #[trigger] b[m].0 != k,
            decreases b.len() - j,
        {
            assert(b[j as int].0 == other.linear_combination_paths@[j as int].0@);
            if other.linear_combination_paths[j].0 == *key {
                proof {
                    lemma_first_key_index(b, k, j as int);
                }
                let x = self.linear_combination_paths[i].1;
                let y = other.linear_combination_paths[j].1;
                assert(self.terms()[i as int].1 == x);
                assert(b[j as int].1 == y);
                let r = x.eq(&y);
                return r;
            }
            j = j + 1;
        }
        proof {
            if has_key(b, k) {
                let m = choose|m: int| 0 <= m < b.len() && #[trigger] b[m].0 == k;
                assert(b[m].0 != k);
            }
        }
        false
    }
}

impl<Coeffs: Ring + Copy + PartialEq, const OP_ALG: bool> PartialEq for PathAlgebra<Coeffs, OP_ALG> {
    fn eq(&self, other: &Self) -> (r: bool) {
        if self.linear_combination_paths.len() != other.linear_combination_paths.len() {
            return false;
        }
        let mut i: usize = 0;
        while i < self.linear_combination_paths.len()
            invariant
                i <= self.terms().len(),
                self.terms().len() == other.terms().len(),
                Coeffs::obeys_eq_spec() ==> forall|m: int|
                    0 <= m < i ==> has_key(other.terms(), #[trigger] self.terms()[m].0)
                        && self.terms()[m].1.eq_spec(
                        &other.terms()[first_key_index(other.terms(), self.terms()[m].0)].1,
                    ),
            decreases self.terms().len() - i,
        {
            if !self.term_matches(other, i) {
                return false;
            }
            i = i + 1;
        }
        true
    }
}

impl<Coeffs: Ring + Copy + PartialEq, const OP_ALG: bool> PartialEqSpecImpl for PathAlgebra<Coeffs, OP_ALG> {
    open spec fn obeys_eq_spec() -> bool {
        Coeffs::obeys_eq_spec()
    }

    open spec fn eq_spec(&self, other: &Self) -> bool {
        same_terms(self.terms(), other.terms())
    }
}

/// The inputs of a binary operation of the path algebra: well-formed
/// elements over the same quiver, with total coefficient operations.
pub open spec fn operands_ok<Coeffs: Ring + Copy, const OP_ALG: bool>(
    a: PathAlgebra<Coeffs, OP_ALG>,
    b: PathAlgebra<Coeffs, OP_ALG>,
) -> bool {
    &&& a.wf()
    &&& b.wf()
    &&& a.spec_quiver() == b.spec_quiver()
    &&& ring_ops_total::<Coeffs>()
}

impl<Coeffs: Ring + Copy, const OP_ALG: bool> Add for PathAlgebra<Coeffs, OP_ALG> {
    type Output = Self;

    /// `self + rhs`.
    fn add(self, rhs: Self) -> (r: Self)
        ensures
            r.wf(),
            r.spec_quiver() == self.spec_quiver(),
            obeys_ring_spec::<Coeffs>() ==> r.terms() == add_terms(self.terms(), rhs.terms(), false),
    {
        let mut s = self;
        s.add_assign(rhs);
        s
    }
}

impl<Coeffs: Ring + Copy, const OP_ALG: bool> AddSpecImpl for PathAlgebra<Coeffs, OP_ALG> {
    open spec fn obeys_add_spec() -> bool {
        false
    }

    open spec fn add_req(self, rhs: Self) -> bool {
        operands_ok(self, rhs)
    }

    open spec fn add_spec(self, rhs: Self) -> Self {
        choose|r: Self|
            r.spec_quiver() == self.spec_quiver() && r.terms() == add_terms(self.terms(), rhs.terms(), false)
    }
}

impl<Coeffs: Ring + Copy, const OP_ALG: bool> Sub for PathAlgebra<Coeffs, OP_ALG> {
    type Output = Self;

    /// `self - rhs`.
    fn sub(self, rhs: Self) -> (r: Self)
        ensures
            r.wf(),
            r.spec_quiver() == self.spec_quiver(),
            obeys_ring_spec::<Coeffs>() ==> r.terms() == add_terms(self.terms(), rhs.terms(), true),
    {
        let mut s = self;
        s.sub_assign(rhs);
        s
    }
}

impl<Coeffs: Ring + Copy, const OP_ALG: bool> SubSpecImpl for PathAlgebra<Coeffs, OP_ALG> {
    open spec fn obeys_sub_spec() -> bool {
        false
    }

    open spec fn sub_req(self, rhs: Self) -> bool {
        operands_ok(self, rhs)
    }

    open spec fn sub_spec(self, rhs: Self) -> Self {
        choose|r: Self|
            r.spec_quiver() == self.spec_quiver() && r.terms() == add_terms(self.terms(), rhs.terms(), true)
    }
}

impl<Coeffs: Ring + Copy, const OP_ALG: bool> Mul for PathAlgebra<Coeffs, OP_ALG> {
    type Output = Self;

    /// `self * rhs`.
    fn mul(self, rhs: Self) -> (r: Self)
        ensures
            r.wf(),
            r.spec_quiver() == self.spec_quiver(),
            obeys_ring_spec::<Coeffs>() ==> r.terms() == add_terms(
                Seq::empty(),
                all_products(self.spec_quiver(), OP_ALG, self.terms(), rhs.terms()),
                false,
            ),
    {
        let mut s = self;
        s.mul_assign(rhs);
        s
    }
}

impl<Coeffs: Ring + Copy, const OP_ALG: bool> MulSpecImpl for PathAlgebra<Coeffs, OP_ALG> {
    open spec fn obeys_mul_spec() -> bool {
        false
    }

    open spec fn mul_req(self, rhs: Self) -> bool {
        operands_ok(self, rhs)
    }

    open spec fn mul_spec(self, rhs: Self) -> Self {
        choose|r: Self|
            r.spec_quiver() == self.spec_quiver() && r.terms() == add_terms(
                Seq::empty(),
                all_products(self.spec_quiver(), OP_ALG, self.terms(), rhs.terms()),
                false,
            )
    }
}

impl<Coeffs: Ring + Copy, const OP_ALG: bool> Mul<BasisElt> for PathAlgebra<Coeffs, OP_ALG> {
    type Output = Self;

    /// `self * x` for a basis element `x`.
    fn mul(self, x: BasisElt) -> (r: Self)
        ensures
            r.wf(),
            r.spec_quiver() == self.spec_quiver(),
            obeys_ring_spec::<Coeffs>() ==> r.terms() == add_terms(
                Seq::empty(),
                basis_products(self.spec_quiver(), OP_ALG, self.terms(), x@, true),
                false,
            ),
    {
        let mut s = self;
        s.mul_assign_basis(x);
        s
    }
}

impl<Coeffs: Ring + Copy, const OP_ALG: bool> MulSpecImpl<BasisElt> for PathAlgebra<Coeffs, OP_ALG> {
    open spec fn obeys_mul_spec() -> bool {
        false
    }

    open spec fn mul_req(self, x: BasisElt) -> bool {
        &&& self.wf()
        &&& valid_basis(self.spec_quiver(), x@)
        &&& ring_ops_total::<Coeffs>()
    }

    open spec fn mul_spec(self, x: BasisElt) -> Self {
        choose|r: Self|
            r.spec_quiver() == self.spec_quiver() && r.terms() == add_terms(
                Seq::empty(),
                basis_products(self.spec_quiver(), OP_ALG, self.terms(), x@, true),
                false,
            )
    }
}

impl<Coeffs: Ring + Copy, const OP_ALG: bool> Mul<PathAlgebra<Coeffs, OP_ALG>> for BasisElt {
    type Output = PathAlgebra<Coeffs, OP_ALG>;

    /// `x * rhs` for a basis element `x`.
    fn mul(self, rhs: PathAlgebra<Coeffs, OP_ALG>) -> (r: PathAlgebra<Coeffs, OP_ALG>)
        ensures
            r.wf(),
            r.spec_quiver() == rhs.spec_quiver(),
            obeys_ring_spec::<Coeffs>() ==> r.terms() == add_terms(
                Seq::empty(),
                basis_products(rhs.spec_quiver(), OP_ALG, rhs.terms(), self@, false),
                false,
            ),
    {
        PathAlgebra::basis_mul(self, rhs)
    }
}

impl<Coeffs: Ring + Copy, const OP_ALG: bool> MulSpecImpl<PathAlgebra<Coeffs, OP_ALG>> for BasisElt {
    open spec fn obeys_mul_spec() -> bool {
        false
    }

    open spec fn mul_req(self, rhs: PathAlgebra<Coeffs, OP_ALG>) -> bool {
        &&& rhs.wf()
        &&& valid_basis(rhs.spec_quiver(), self@)
        &&& ring_ops_total::<Coeffs>()
    }

    open spec fn mul_spec(self, rhs: PathAlgebra<Coeffs, OP_ALG>) -> PathAlgebra<Coeffs, OP_ALG> {
        choose|r: PathAlgebra<Coeffs, OP_ALG>|
            r.spec_quiver() == rhs.spec_quiver() && r.terms() == add_terms(
                Seq::empty(),
                basis_products(rhs.spec_quiver(), OP_ALG, rhs.terms(), self@, false),
                false,
            )
    }
}

impl<Coeffs: Ring + Copy, const OP_ALG: bool> Mul<Coeffs> for PathAlgebra<Coeffs, OP_ALG> {
    type Output = Self;

    /// `self * c`: every coefficient multiplied by `c` on the right.
    fn mul(self, c: Coeffs) -> (r: Self)
        ensures
            r.wf(),
            r.spec_quiver() == self.spec_quiver(),
            keys_of(r.terms()) == keys_of(self.terms()),
            obeys_ring_spec::<Coeffs>() ==> forall|i: int|
                0 <= i < r.terms().len() ==> #[trigger] r.terms()[i].1 == self.terms()[i].1.mul_spec(c),
    {
        let mut s = self;
        s.scale_assign(c);
        s
    }
}

impl<Coeffs: Ring + Copy, const OP_ALG: bool> MulSpecImpl<Coeffs> for PathAlgebra<Coeffs, OP_ALG> {
    open spec fn obeys_mul_spec() -> bool {
        false
    }

    open spec fn mul_req(self, c: Coeffs) -> bool {
        self.wf() && ring_ops_total::<Coeffs>()
    }

    open spec fn mul_spec(self, c: Coeffs) -> Self {
        choose|r: Self|
            r.spec_quiver() == self.spec_quiver() && keys_of(r.terms()) == keys_of(self.terms()) && forall|
                i: int,
            |
                0 <= i < r.terms().len() ==> #[trigger] r.terms()[i].1 == self.terms()[i].1.mul_spec(c)
    }
}

impl<Coeffs: Ring + Copy, const OP_ALG: bool> Neg for PathAlgebra<Coeffs, OP_ALG> {
    type Output = Self;

    /// `-self`: every coefficient negated.
    fn neg(self) -> (r: Self)
        ensures
            r.wf(),
            r.spec_quiver() == self.spec_quiver(),
            keys_of(r.terms()) == keys_of(self.terms()),
            obeys_ring_spec::<Coeffs>() ==> forall|i: int|
                0 <= i < r.terms().len() ==> #[trigger] r.terms()[i].1 == self.terms()[i].1.neg_spec(),
    {
        let mut s = self;
        s.negate();
        s
    }
}

impl<Coeffs: Ring + Copy, const OP_ALG: bool> NegSpecImpl for PathAlgebra<Coeffs, OP_ALG> {
    open spec fn obeys_neg_spec() -> bool {
        false
    }

    open spec fn neg_req(self) -> bool {
        self.wf() && ring_ops_total::<Coeffs>()
    }

    open spec fn neg_spec(self) -> Self {
        choose|r: Self|
            r.spec_quiver() == self.spec_quiver() && keys_of(r.terms()) == keys_of(self.terms()) && forall|
                i: int,
            |
                0 <= i < r.terms().len() ==> #[trigger] r.terms()[i].1 == self.terms()[i].1.neg_spec()
    }
}


/// The entries of `t` below `n` whose flag in `keep` is set, in order.
pub open spec fn kept_upto<T>(t: Seq<T>, keep: Seq<bool>, n: int) -> Seq<T>
    decreases n,
{
    if n <= 0 {
        Seq::empty()
    } else if keep[n - 1] {
        kept_upto(t, keep, n - 1).push(t[n - 1])
    } else {
        kept_upto(t, keep, n - 1)
    }
}

/// `s` is `t` without the terms whose coefficient `is_zero` judged zero.
pub open spec fn simplified_by<C, F: Fn(&C) -> bool>(is_zero: F, t: Seq<(BasisView, C)>, s: Seq<(BasisView, C)>) -> bool {
    exists|keep: Seq<bool>|
        #![trigger kept_upto(t, keep, t.len() as int)]
        keep.len() == t.len() && (forall|i: int| 0 <= i < t.len() ==> call_ensures(is_zero, (&t[i].1,), !#[trigger] keep[i]))
            && s == kept_upto(t, keep, t.len() as int)
}

/// Keeping entries in order keeps distinct basis elements distinct.
proof fn lemma_kept_distinct<C>(t: Seq<(BasisView, C)>, keep: Seq<bool>, n: int)
    requires
        0 <= n <= t.len(),
        keep.len() == t.len(),
        keys_distinct(t),
    ensures
        keys_distinct(kept_upto(t, keep, n)),
        forall|i: int|
            #![trigger kept_upto(t, keep, n)[i]]
            0 <= i < kept_upto(t, keep, n).len() ==> exists|j: int|
                #![trigger t[j]]
                0 <= j < n && t[j] == kept_upto(t, keep, n)[i],
    decreases n,
{
    if n > 0 {
        lemma_kept_distinct(t, keep, n - 1);
        let prev = kept_upto(t, keep, n - 1);
        if keep[n - 1] {
            let s = prev.push(t[n - 1]);
            assert forall|i: int| #![trigger s[i]] 0 <= i < s.len() implies exists|j: int|
                #![trigger t[j]]
                0 <= j < n && t[j] == s[i] by {
                if i < prev.len() {
                    let j = choose|j: int| #![trigger t[j]] 0 <= j < n - 1 && t[j] == prev[i];
                    assert(t[j] == s[i]);
                } else {
                    assert(t[n - 1] == s[i]);
                }
            }
            assert forall|a: int, b: int| 0 <= a < b < s.len() implies #[trigger] s[a].0 != #[trigger] s[b].0 by {
                if b < prev.len() {
                    assert(s[a] == prev[a] && s[b] == prev[b]);
                } else {
                    assert(s[a] == prev[a]);
                    let j = choose|j: int| #![trigger t[j]] 0 <= j < n - 1 && t[j] == prev[a];
                    assert(t[j].0 != t[n - 1].0);
                }
            }
        } else {
            assert forall|i: int| #![trigger prev[i]] 0 <= i < prev.len() implies exists|j: int|
                #![trigger t[j]]
                0 <= j < n && t[j] == prev[i] by {
                let j = choose|j: int| #![trigger t[j]] 0 <= j < n - 1 && t[j] == prev[i];
                assert(t[j] == prev[i]);
            }
        }
    }
}

impl<Coeffs: Ring + Copy, const OP_ALG: bool> PathAlgebra<Coeffs, OP_ALG> {
    /// Drop the terms whose coefficient `is_zero` judges zero.
    pub fn simplify<F: Fn(&Coeffs) -> bool>(&mut self, is_zero: F)
        requires
            old(self).wf(),
            forall|c: &Coeffs| #[trigger] call_requires(is_zero, (c,)),
        ensures
            final(self).wf(),
            final(self).spec_quiver() == old(self).spec_quiver(),
            simplified_by(is_zero, old(self).terms(), final(self).terms()),
    {
        self.simplify_with(&is_zero);
    }

    /// Drop the terms whose coefficient `is_zero` judges zero.
    pub(crate) fn simplify_with<F: Fn(&Coeffs) -> bool>(&mut self, is_zero: &F)
        requires
            old(self).wf(),
            forall|c: &Coeffs| #[trigger] call_requires(*is_zero, (c,)),
        ensures
            final(self).wf(),
            final(self).spec_quiver() == old(self).spec_quiver(),
            simplified_by(*is_zero, old(self).terms(), final(self).terms()),
    {
        let ghost t = self.terms();
        let mut kept: Vec<(BasisElt, Coeffs)> = Vec::new();
        let ghost mut keep: Seq<bool> = Seq::empty();
        let mut i: usize = 0;
        while i < self.linear_combination_paths.len()
            invariant
                t == self.terms(),
                t == terms_of(self.linear_combination_paths@),
                forall|c: &Coeffs| #[trigger] call_requires(*is_zero, (c,)),
                i <= t.len(),
                keep.len() == i,
                forall|j: int| 0 <= j < i ==> call_ensures(*is_zero, (&t[j].1,), !#[trigger] keep[j]),
                terms_of(kept@) == kept_upto(t, keep, i as int),
            decreases t.len() - i,
        {
            let c = self.linear_combination_paths[i].1;
            assert(t[i as int].1 == c);
            let z = is_zero(&c);
            let ghost keep0 = keep;
            proof {
                keep = keep.push(!z);
                assert forall|j: int| 0 <= j < i implies kept_upto(t, keep, j) == kept_upto(t, keep0, j) by {
                    lemma_kept_prefix(t, keep0, keep, j);
                }
                lemma_kept_prefix(t, keep0, keep, i as int);
            }
            if !z {
                let b = self.linear_combination_paths[i].0.clone();
                let ghost before = kept@;
                kept.push((b, c));
                assert(terms_of(kept@) =~= terms_of(before).push((t[i as int].0, c)));
            }
            i = i + 1;
        }
        proof {
            lemma_kept_distinct(t, keep, t.len() as int);
        }
        self.linear_combination_paths = kept;
        proof {
            assert forall|k: int| 0 <= k < self.terms().len() implies valid_basis(
                self.spec_quiver(),
                #[trigger] self.terms()[k].0,
            ) by {
                let j = choose|j: int| #![trigger t[j]] 0 <= j < t.len() && t[j] == self.terms()[k];
            }
            assert(simplified_by(*is_zero, t, self.terms()));
        }
    }
}

/// The terms left by a simplification are terms of the original.
pub(crate) proof fn lemma_simplified_from<C, F: Fn(&C) -> bool>(f: F, t: Seq<(BasisView, C)>, s: Seq<(BasisView, C)>)
    requires
        simplified_by(f, t, s),
        keys_distinct(t),
    ensures
        forall|k: int|
            #![trigger s[k]]
            0 <= k < s.len() ==> exists|m: int| #![trigger t[m]] 0 <= m < t.len() && t[m] == s[k],
{
    let keep = choose|keep: Seq<bool>|
        #![trigger kept_upto(t, keep, t.len() as int)]
        keep.len() == t.len() && (forall|i: int| 0 <= i < t.len() ==> call_ensures(f, (&t[i].1,), !#[trigger] keep[i]))
            && s == kept_upto(t, keep, t.len() as int);
    lemma_kept_distinct(t, keep, t.len() as int);
}

/// Kept entries below `n` depend only on the flags below `n`.
proof fn lemma_kept_prefix<T>(t: Seq<T>, a: Seq<bool>, b: Seq<bool>, n: int)
    requires
        0 <= n <= a.len(),
        n <= b.len(),
        forall|j: int| 0 <= j < n ==> a[j] == b[j],
    ensures
        kept_upto(t, a, n) == kept_upto(t, b, n),
    decreases n,
{
    if n > 0 {
        lemma_kept_prefix(t, a, b, n - 1);
    }
}

} // verus!

//! Elements of the Peirce pieces `e_left M e_right` of a bimodule over a
//! quiver algebra, as coordinate vectors, and the ways a bimodule can fail
//! its axioms.
use crate::checked_arith::{Field, ring_ops_total};
use crate::quiver_with_mon_rels::NonMonomialIdeal;
use vstd::prelude::*;
use vstd::std_specs::cmp::PartialEqSpec;
use vstd::std_specs::ops::{AddSpec, MulSpec};

verus! {

/// An element of the Peirce piece `e_left M e_right`, expressed as coordinates
/// in an ordered basis of that piece: `coords[i]` is the coefficient of the
/// `i`-th basis element.
#[derive(Clone, Debug, PartialEq)]
pub struct PeirceElement<V, Coeffs> {
    pub left: V,
    pub right: V,
    pub coords: Vec<Coeffs>,
}

impl<V, Coeffs: Field + Copy> PeirceElement<V, Coeffs> {
    /// Zero element of `e_left M e_right` in a piece of dimension `dim`.
    pub fn zero(left: V, right: V, dim: usize) -> (r: Self)
        ensures
            r.left == left,
            r.right == right,
            r.coords@ == Seq::new(dim as nat, |i: int| Coeffs::spec_zero()),
    {
        let mut coords: Vec<Coeffs> = Vec::new();
        let mut k: usize = 0;
        while k < dim
            invariant
                k <= dim,
                coords@ == Seq::new(k as nat, |i: int| Coeffs::spec_zero()),
            decreases dim - k,
        {
            coords.push(Coeffs::zero());
            k = k + 1;
            assert(coords@ =~= Seq::new(k as nat, |i: int| Coeffs::spec_zero()));
        }
        PeirceElement { left, right, coords }
    }

    /// The `i`-th standard basis vector of `e_left M e_right` in a piece of
    /// dimension `dim`.
    pub fn basis_vec(left: V, right: V, dim: usize, i: usize) -> (r: Self)
        requires
            i < dim,
        ensures
            r.left == left,
            r.right == right,
            r.coords@ == Seq::new(
                dim as nat,
                |j: int|
                    if j == i {
                        Coeffs::spec_one()
                    } else {
                        Coeffs::spec_zero()
                    },
            ),
    {
        let mut r = Self::zero(left, right, dim);
        r.coords.set(i, Coeffs::one());
        assert(r.coords@ =~= Seq::new(
            dim as nat,
            |j: int|
                if j == i {
                    Coeffs::spec_one()
                } else {
                    Coeffs::spec_zero()
                },
        ));
        r
    }

    /// True iff all coordinates are zero.
    pub fn is_zero(&self) -> (r: bool)
        ensures
            Coeffs::obeys_eq_spec() ==> (r <==> forall|j: int|
                0 <= j < self.coords@.len() ==> #[trigger] self.coords@[j].eq_spec(&Coeffs::spec_zero())),
    {
        let mut k: usize = 0;
        while k < self.coords.len()
            invariant
                k <= self.coords@.len(),
                Coeffs::obeys_eq_spec() ==> forall|j: int|
                    0 <= j < k ==> #[trigger] self.coords@[j].eq_spec(&Coeffs::spec_zero()),
            decreases self.coords@.len() - k,
        {
            if !self.coords[k].is_zero() {
                return false;
            }
            k = k + 1;
        }
        true
    }

    /// `self += other` coordinate-wise; both must have the same dimension.
    pub fn add_assign(&mut self, other: &Self)
        requires
            old(self).coords@.len() == other.coords@.len(),
            ring_ops_total::<Coeffs>(),
        ensures
            final(self).left == old(self).left,
            final(self).right == old(self).right,
            final(self).coords@.len() == old(self).coords@.len(),
            Coeffs::obeys_add_spec() ==> forall|j: int|
                0 <= j < final(self).coords@.len() ==> #[trigger] final(self).coords@[j]
                    == old(self).coords@[j].add_spec(other.coords@[j]),
    {
        let ghost c0 = self.coords@;
        let mut k: usize = 0;
        while k < self.coords.len()
            invariant
                ring_ops_total::<Coeffs>(),
                self.left == old(self).left,
                self.right == old(self).right,
                c0 == old(self).coords@,
                self.coords@.len() == c0.len(),
                c0.len() == other.coords@.len(),
                k <= c0.len(),
                forall|j: int| k <= j < c0.len() ==> #[trigger] self.coords@[j] == c0[j],
                Coeffs::obeys_add_spec() ==> forall|j: int|
                    0 <= j < k ==> #[trigger] self.coords@[j] == c0[j].add_spec(other.coords@[j]),
            decreases c0.len() - k,
        {
            let s = self.coords[k];
            let o = other.coords[k];
            self.coords.set(k, s.add(o));
            k = k + 1;
        }
    }

    /// Multiply every coordinate by `c` (on the right).
    pub fn scale_assign(&mut self, c: &Coeffs)
        requires
            ring_ops_total::<Coeffs>(),
        ensures
            final(self).left == old(self).left,
            final(self).right == old(self).right,
            final(self).coords@.len() == old(self).coords@.len(),
            Coeffs::obeys_mul_spec() ==> forall|j: int|
                0 <= j < final(self).coords@.len() ==> #[trigger] final(self).coords@[j]
                    == old(self).coords@[j].mul_spec(*c),
    {
        let ghost c0 = self.coords@;
        let mut k: usize = 0;
        while k < self.coords.len()
            invariant
                ring_ops_total::<Coeffs>(),
                self.left == old(self).left,
                self.right == old(self).right,
                c0 == old(self).coords@,
                self.coords@.len() == c0.len(),
                k <= c0.len(),
                forall|j: int| k <= j < c0.len() ==> #[trigger] self.coords@[j] == c0[j],
                Coeffs::obeys_mul_spec() ==> forall|j: int|
                    0 <= j < k ==> #[trigger] self.coords@[j] == c0[j].mul_spec(*c),
            decreases c0.len() - k,
        {
            let s = self.coords[k];
            self.coords.set(k, s.mul(*c));
            k = k + 1;
        }
    }
}

/// How a candidate bimodule structure fails the bimodule axioms.
#[derive(Debug, Clone, PartialEq)]
pub enum BimoduleAxiomViolation<V, E> {
    /// Left multiplication by `algebra.relations()[relation_index]` does not
    /// act as zero on the Peirce component with right index `right_vertex`, so
    /// the action does not descend to the quotient by this relation.
    LeftRelationFails { relation_index: usize, right_vertex: V },
    /// Right multiplication by `algebra.relations()[relation_index]` does not
    /// act as zero on the Peirce component with left index `left_vertex`.
    RightRelationFails { relation_index: usize, left_vertex: V },
    /// The left action of `left_arrow` and the right action of `right_arrow`
    /// do not commute on some basis element of the relevant Peirce piece.
    CommutativityFails { left_arrow: E, right_arrow: E },
}

/// Why the diagonal bimodule of a quiver algebra could not be built.
#[derive(Debug, Clone, PartialEq)]
pub enum DiagonalBimoduleError {
    /// The algebra has non-monomial relations; path enumeration requires a
    /// monomial ideal.
    NonMonomialRelations(NonMonomialIdeal),
    /// Admissible-path enumeration exceeded the caller-supplied bound.
    TooManyPaths { max_paths: usize },
}

} // verus!

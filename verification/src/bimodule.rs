//! Bimodules over a quiver algebra `A = kQ^op / I`, accessed through their
//! Peirce decomposition: the arrow actions, the actions of basis elements of
//! the algebra, and the check of the bimodule axioms.
use crate::checked_arith::{Field, ring_ops_total};
use crate::path_algebra::{PathAlgebra, term_ends, terms_of, terms_parallel, valid_basis};
use crate::quiver::{BasisElt, BasisView, Quiver};
use crate::quiver_bimodule::{BimoduleAxiomViolation, PeirceElement};
use crate::quiver_with_rels::{QuiverWithRelations, relation_ok};
use crate::words::word_to_vec;
use std::sync::Arc;
use vstd::prelude::*;
use vstd::std_specs::cmp::PartialEqSpec;
use vstd::std_specs::ops::{AddSpec, MulSpec};

verus! {

/// The vertex an arrow leaves.
pub open spec fn arrow_source(q: Quiver, a: Seq<char>) -> Seq<char> {
    q.nodes()[q.source_node(a)]
}

/// The vertex an arrow enters.
pub open spec fn arrow_target(q: Quiver, a: Seq<char>) -> Seq<char> {
    q.nodes()[q.target_node(a)]
}

/// The element `e` lies in a Peirce piece of `q`: its two indices are vertices.
pub open spec fn indexed_by_vertices<Coeffs>(q: Quiver, e: PeirceElement<String, Coeffs>) -> bool {
    q.has_vertex(e.left@) && q.has_vertex(e.right@)
}

/// A basis element of the path algebra begins and ends at vertices, the
/// ends of its nodes.
proof fn lemma_basis_ends_are_vertices(q: Quiver, b: BasisView)
    requires
        q.wf(),
        valid_basis(q, b),
    ensures
        q.spec_basis_ends(b) == Some((q.nodes()[term_ends(q, b).0], q.nodes()[term_ends(q, b).1])),
        q.has_vertex(q.nodes()[term_ends(q, b).0]),
        q.has_vertex(q.nodes()[term_ends(q, b).1]),
{
    if b.0 {
        assert(q.nodes().contains_key(q.vertex_index()[b.1[0]] as nat));
    } else {
        assert(q.has_arrow(b.1[0]));
        assert(q.has_arrow(b.1[b.1.len() - 1]));
        assert(q.edges().contains_key(q.arrow_index()[b.1[0]] as nat));
        assert(q.edges().contains_key(q.arrow_index()[b.1.last()] as nat));
    }
}

/// The vertices an arrow joins.
proof fn lemma_arrow_ends_are_vertices(q: Quiver, a: Seq<char>)
    requires
        q.wf(),
        q.has_arrow(a),
    ensures
        q.has_vertex(arrow_source(q, a)),
        q.has_vertex(arrow_target(q, a)),
{
    assert(q.edges().contains_key(q.arrow_index()[a] as nat));
}

/// A copy of a Peirce element.
fn copy_element<Coeffs: Copy>(e: &PeirceElement<String, Coeffs>) -> (r: PeirceElement<String, Coeffs>)
    ensures
        r.left@ == e.left@,
        r.right@ == e.right@,
        r.coords@ == e.coords@,
{
    let mut coords: Vec<Coeffs> = Vec::new();
    let mut k: usize = 0;
    while k < e.coords.len()
        invariant
            k <= e.coords@.len(),
            coords@ == e.coords@.take(k as int),
        decreases e.coords@.len() - k,
    {
        coords.push(e.coords[k]);
        assert(coords@ =~= e.coords@.take(k + 1));
        k = k + 1;
    }
    assert(e.coords@.take(k as int) =~= e.coords@);
    PeirceElement { left: e.left.clone(), right: e.right.clone(), coords }
}

/// The two elements have the same indices and coordinates.
fn same_element<Coeffs: PartialEq>(a: &PeirceElement<String, Coeffs>, b: &PeirceElement<String, Coeffs>) -> (r: bool)
    ensures
        Coeffs::obeys_eq_spec() ==> (r <==> a.left@ == b.left@ && a.right@ == b.right@ && a.coords@.len()
            == b.coords@.len() && forall|j: int| 0 <= j < a.coords@.len() ==> #[trigger] a.coords@[j].eq_spec(&b.coords@[j])),
{
    if !(a.left == b.left) || !(a.right == b.right) || a.coords.len() != b.coords.len() {
        return false;
    }
    let mut k: usize = 0;
    while k < a.coords.len()
        invariant
            a.coords@.len() == b.coords@.len(),
            k <= a.coords@.len(),
            Coeffs::obeys_eq_spec() ==> forall|j: int| 0 <= j < k ==> #[trigger] a.coords@[j].eq_spec(&b.coords@[j]),
        decreases a.coords@.len() - k,
    {
        if !(a.coords[k] == b.coords[k]) {
            return false;
        }
        k = k + 1;
    }
    true
}

/// What a bimodule over a quiver algebra is, in specifications: its algebra,
/// the dimensions of its Peirce pieces and the coordinates of the arrow
/// actions.
pub trait BimoduleActions<Coeffs: Field + Copy, const OP_ALG: bool> {
    /// The algebra the bimodule is over.
    spec fn spec_algebra(&self) -> QuiverWithRelations<Coeffs, OP_ALG>;

    /// The dimension of the Peirce piece `(v, w)`.
    spec fn spec_dim(&self, v: Seq<char>, w: Seq<char>) -> nat;

    /// The coordinates of the left action of the arrow `alpha` on the element
    /// with coordinates `coords` of the piece `(left, right)`.
    spec fn spec_left_act(&self, alpha: Seq<char>, left: Seq<char>, right: Seq<char>, coords: Seq<Coeffs>) -> Seq<Coeffs>;

    /// The coordinates of the right action of the arrow `beta` on the element
    /// with coordinates `coords` of the piece `(left, right)`.
    spec fn spec_right_act(&self, beta: Seq<char>, left: Seq<char>, right: Seq<char>, coords: Seq<Coeffs>) -> Seq<Coeffs>;
}

/// The coefficients' `+`, `*` and `==` compute exactly `add_spec`,
/// `mul_spec` and `eq_spec`.
pub open spec fn exact_coeffs<C: Field>() -> bool {
    C::obeys_add_spec() && C::obeys_mul_spec() && C::obeys_eq_spec()
}

/// The zero coordinates of a piece of dimension `dim`.
pub open spec fn zero_coords<C: Field>(dim: nat) -> Seq<C> {
    Seq::new(dim, |j: int| C::spec_zero())
}

/// The coordinates of the `i`-th basis vector of a piece of dimension `dim`.
pub open spec fn unit_coords<C: Field>(dim: nat, i: int) -> Seq<C> {
    Seq::new(dim, |j: int| if j == i { C::spec_one() } else { C::spec_zero() })
}

/// Coordinate-wise sum.
pub open spec fn add_coords<C: Field>(a: Seq<C>, b: Seq<C>) -> Seq<C> {
    Seq::new(a.len(), |j: int| a[j].add_spec(b[j]))
}

/// Every coordinate multiplied by `c` on the right.
pub open spec fn scale_coords<C: Field>(a: Seq<C>, c: C) -> Seq<C> {
    Seq::new(a.len(), |j: int| a[j].mul_spec(c))
}

/// Every coordinate is zero.
pub open spec fn all_zero<C: Field>(a: Seq<C>) -> bool {
    forall|j: int| 0 <= j < a.len() ==> #[trigger] a[j].eq_spec(&C::spec_zero())
}

/// The two coordinate vectors have the same length and equal entries.
pub open spec fn same_coords<C: Field>(a: Seq<C>, b: Seq<C>) -> bool {
    a.len() == b.len() && forall|j: int| 0 <= j < a.len() ==> #[trigger] a[j].eq_spec(&b[j])
}

/// The coordinates of the left action of the word `w = [a_1, ..., a_n]` on
/// the element with coordinates `coords` of the piece `(left, right)`: the
/// left action of `a_n`, then of `a_{n-1}`, down to `a_1`.
pub open spec fn left_word_act<Coeffs: Field + Copy, const OP_ALG: bool, M: BimoduleActions<Coeffs, OP_ALG>>(
    m: &M,
    w: Seq<Seq<char>>,
    left: Seq<char>,
    right: Seq<char>,
    coords: Seq<Coeffs>,
) -> Seq<Coeffs>
    decreases w.len(),
{
    if w.len() == 0 {
        coords
    } else {
        left_word_act(
            m,
            w.drop_last(),
            arrow_source(m.spec_algebra().spec_quiver(), w.last()),
            right,
            m.spec_left_act(w.last(), left, right, coords),
        )
    }
}

/// The coordinates of the right action of the word `w = [a_1, ..., a_n]` on
/// the element with coordinates `coords` of the piece `(left, right)`: the
/// right action of `a_1`, then of `a_2`, up to `a_n`.
pub open spec fn right_word_act<Coeffs: Field + Copy, const OP_ALG: bool, M: BimoduleActions<Coeffs, OP_ALG>>(
    m: &M,
    w: Seq<Seq<char>>,
    left: Seq<char>,
    right: Seq<char>,
    coords: Seq<Coeffs>,
) -> Seq<Coeffs>
    decreases w.len(),
{
    if w.len() == 0 {
        coords
    } else {
        right_word_act(
            m,
            w.drop_first(),
            left,
            arrow_target(m.spec_algebra().spec_quiver(), w[0]),
            m.spec_right_act(w[0], left, right, coords),
        )
    }
}

/// The coordinates of the left action of the basis element `b` of the
/// algebra on the element with coordinates `coords` of the piece `(left, right)`.
pub open spec fn left_basis_act<Coeffs: Field + Copy, const OP_ALG: bool, M: BimoduleActions<Coeffs, OP_ALG>>(
    m: &M,
    b: BasisView,
    left: Seq<char>,
    right: Seq<char>,
    coords: Seq<Coeffs>,
) -> Seq<Coeffs> {
    if b.0 {
        if left == b.1[0] {
            coords
        } else {
            zero_coords(m.spec_dim(b.1[0], right))
        }
    } else {
        left_word_act(m, b.1, left, right, coords)
    }
}

/// The coordinates of the right action of the basis element `b` of the
/// algebra on the element with coordinates `coords` of the piece `(left, right)`.
pub open spec fn right_basis_act<Coeffs: Field + Copy, const OP_ALG: bool, M: BimoduleActions<Coeffs, OP_ALG>>(
    m: &M,
    b: BasisView,
    left: Seq<char>,
    right: Seq<char>,
    coords: Seq<Coeffs>,
) -> Seq<Coeffs> {
    if b.0 {
        if right == b.1[0] {
            coords
        } else {
            zero_coords(m.spec_dim(left, b.1[0]))
        }
    } else {
        right_word_act(m, b.1, left, right, coords)
    }
}

/// The coordinates of the left action of the first `n` terms of `t` with a
/// nonzero coefficient on the element with coordinates `coords` of the piece
/// `(left, right)`: the sum of each coefficient times the action of its basis
/// element, starting from zero in a piece of dimension `dim`.
pub open spec fn left_relation_sum<Coeffs: Field + Copy, const OP_ALG: bool, M: BimoduleActions<Coeffs, OP_ALG>>(
    m: &M,
    t: Seq<(BasisView, Coeffs)>,
    n: int,
    left: Seq<char>,
    right: Seq<char>,
    coords: Seq<Coeffs>,
    dim: nat,
) -> Seq<Coeffs>
    decreases n,
{
    if n <= 0 {
        zero_coords(dim)
    } else {
        let prev = left_relation_sum(m, t, n - 1, left, right, coords, dim);
        if t[n - 1].1.eq_spec(&Coeffs::spec_zero()) {
            prev
        } else {
            add_coords(prev, scale_coords(left_basis_act(m, t[n - 1].0, left, right, coords), t[n - 1].1))
        }
    }
}

/// As [`left_relation_sum`], for the right action.
pub open spec fn right_relation_sum<Coeffs: Field + Copy, const OP_ALG: bool, M: BimoduleActions<Coeffs, OP_ALG>>(
    m: &M,
    t: Seq<(BasisView, Coeffs)>,
    n: int,
    left: Seq<char>,
    right: Seq<char>,
    coords: Seq<Coeffs>,
    dim: nat,
) -> Seq<Coeffs>
    decreases n,
{
    if n <= 0 {
        zero_coords(dim)
    } else {
        let prev = right_relation_sum(m, t, n - 1, left, right, coords, dim);
        if t[n - 1].1.eq_spec(&Coeffs::spec_zero()) {
            prev
        } else {
            add_coords(prev, scale_coords(right_basis_act(m, t[n - 1].0, left, right, coords), t[n - 1].1))
        }
    }
}

/// The relation with terms `t`, running from `src` to `tgt`, acts as zero on
/// the left of every basis element of the piece `(tgt, w)`.
pub open spec fn left_vanishes<Coeffs: Field + Copy, const OP_ALG: bool, M: BimoduleActions<Coeffs, OP_ALG>>(
    m: &M,
    t: Seq<(BasisView, Coeffs)>,
    src: Seq<char>,
    tgt: Seq<char>,
    w: Seq<char>,
) -> bool {
    forall|i: int|
        0 <= i < m.spec_dim(tgt, w) ==> all_zero(
            #[trigger] left_relation_sum(m, t, t.len() as int, tgt, w, unit_coords(m.spec_dim(tgt, w), i), m.spec_dim(src, w)),
        )
}

/// The relation with terms `t`, running from `src` to `tgt`, acts as zero on
/// the right of every basis element of the piece `(v, src)`.
pub open spec fn right_vanishes<Coeffs: Field + Copy, const OP_ALG: bool, M: BimoduleActions<Coeffs, OP_ALG>>(
    m: &M,
    t: Seq<(BasisView, Coeffs)>,
    src: Seq<char>,
    tgt: Seq<char>,
    v: Seq<char>,
) -> bool {
    forall|i: int|
        0 <= i < m.spec_dim(v, src) ==> all_zero(
            #[trigger] right_relation_sum(m, t, t.len() as int, v, src, unit_coords(m.spec_dim(v, src), i), m.spec_dim(v, tgt)),
        )
}

/// On the `i`-th basis element `b` of the piece `(t(alpha), s(beta))`,
/// `alpha (b beta)` and `(alpha b) beta` have the same coordinates.
pub open spec fn commute_at<Coeffs: Field + Copy, const OP_ALG: bool, M: BimoduleActions<Coeffs, OP_ALG>>(
    m: &M,
    alpha: Seq<char>,
    beta: Seq<char>,
    i: int,
) -> bool {
    let q = m.spec_algebra().spec_quiver();
    let ta = arrow_target(q, alpha);
    let sb = arrow_source(q, beta);
    let b = unit_coords(m.spec_dim(ta, sb), i);
    same_coords(
        m.spec_left_act(alpha, ta, arrow_target(q, beta), m.spec_right_act(beta, ta, sb, b)),
        m.spec_right_act(beta, arrow_source(q, alpha), sb, m.spec_left_act(alpha, ta, sb, b)),
    )
}

/// The left action of `alpha` and the right action of `beta` commute on
/// every basis element of the piece `(t(alpha), s(beta))`.
pub open spec fn arrows_commute_spec<Coeffs: Field + Copy, const OP_ALG: bool, M: BimoduleActions<Coeffs, OP_ALG>>(
    m: &M,
    alpha: Seq<char>,
    beta: Seq<char>,
) -> bool {
    let q = m.spec_algebra().spec_quiver();
    forall|i: int|
        0 <= i < m.spec_dim(arrow_target(q, alpha), arrow_source(q, beta)) ==> #[trigger] commute_at(m, alpha, beta, i)
}

/// An `(A, A)`-bimodule over `A = kQ^op / I` (or `kQ / I`), accessed through
/// its Peirce decomposition: the piece `(v, w)` has an ordered basis of
/// `BasisLabel`s, and the arrows act on the left and on the right.
///
/// Indexing: `peirce_basis(v, w)` and a [`PeirceElement`] with `left == v`
/// and `right == w` describe the piece whose left index is the source and
/// whose right index is the target in `Q`. The left action of an arrow `α`
/// takes the piece `(t(α), w)` to `(s(α), w)`; the right action of `β` takes
/// `(v, s(β))` to `(v, t(β))`.
pub trait QuiverBimodule<Coeffs: Field + Copy, BasisLabel, const OP_ALG: bool>: BimoduleActions<Coeffs, OP_ALG> + Sized {

    /// The algebra `A`.
    fn algebra(&self) -> (r: &Arc<QuiverWithRelations<Coeffs, OP_ALG>>)
        ensures
            **r == self.spec_algebra(),
    ;

    /// The ordered basis of the Peirce piece `(v, w)`; empty where the piece
    /// is zero or `v` or `w` is not a vertex.
    fn peirce_basis(&self, v: &String, w: &String) -> (r: &[BasisLabel])
        ensures
            r@.len() == self.spec_dim(v@, w@),
    ;

    /// The dimension of the Peirce piece `(v, w)`.
    fn peirce_dim(&self, v: &String, w: &String) -> (r: usize)
        ensures
            r == self.spec_dim(v@, w@),
    {
        self.peirce_basis(v, w).len()
    }

    /// The left action of the arrow `alpha` on `elt`, an element of a piece
    /// `(t(alpha), w)` (zero where `elt` lies in another piece): an element of
    /// the piece `(s(alpha), w)`.
    fn left_act(&self, alpha: &String, elt: &PeirceElement<String, Coeffs>) -> (r: PeirceElement<String, Coeffs>)
        requires
            self.spec_algebra().wf(),
            ring_ops_total::<Coeffs>(),
            self.spec_algebra().spec_quiver().has_arrow(alpha@),
            indexed_by_vertices(self.spec_algebra().spec_quiver(), *elt),
            elt.coords@.len() == self.spec_dim(elt.left@, elt.right@),
        ensures
            r.left@ == arrow_source(self.spec_algebra().spec_quiver(), alpha@),
            r.right@ == elt.right@,
            r.coords@.len() == self.spec_dim(r.left@, r.right@),
            exact_coeffs::<Coeffs>() ==> r.coords@ == self.spec_left_act(alpha@, elt.left@, elt.right@, elt.coords@),
    ;

    /// The right action of the arrow `beta` on `elt`, an element of a piece
    /// `(v, s(beta))` (zero where `elt` lies in another piece): an element of
    /// the piece `(v, t(beta))`.
    fn right_act(&self, beta: &String, elt: &PeirceElement<String, Coeffs>) -> (r: PeirceElement<String, Coeffs>)
        requires
            self.spec_algebra().wf(),
            ring_ops_total::<Coeffs>(),
            self.spec_algebra().spec_quiver().has_arrow(beta@),
            indexed_by_vertices(self.spec_algebra().spec_quiver(), *elt),
            elt.coords@.len() == self.spec_dim(elt.left@, elt.right@),
        ensures
            r.left@ == elt.left@,
            r.right@ == arrow_target(self.spec_algebra().spec_quiver(), beta@),
            r.coords@.len() == self.spec_dim(r.left@, r.right@),
            exact_coeffs::<Coeffs>() ==> r.coords@ == self.spec_right_act(beta@, elt.left@, elt.right@, elt.coords@),
    ;

    /// The left action of the basis element `b` of the algebra on `elt`: for
    /// the idempotent `e_v`, `elt` itself where `elt.left == v` and zero in
    /// the piece `(v, elt.right)` otherwise; for a path `[a_1, ..., a_n]`, the
    /// left actions of `a_n`, then `a_{n-1}`, down to `a_1`. The result lies in
    /// the piece whose left index is the source of `b`.
    fn left_act_algebra_elt(&self, b: &BasisElt, elt: &PeirceElement<String, Coeffs>) -> (r: PeirceElement<
        String,
        Coeffs,
    >)
        requires
            self.spec_algebra().wf(),
            ring_ops_total::<Coeffs>(),
            valid_basis(self.spec_algebra().spec_quiver(), b@),
            indexed_by_vertices(self.spec_algebra().spec_quiver(), *elt),
            elt.coords@.len() == self.spec_dim(elt.left@, elt.right@),
        ensures
            self.spec_algebra().spec_quiver().spec_basis_ends(b@) matches Some((s, _)) && r.left@ == s,
            r.right@ == elt.right@,
            r.coords@.len() == self.spec_dim(r.left@, r.right@),
            exact_coeffs::<Coeffs>() ==> r.coords@ == left_basis_act(self, b@, elt.left@, elt.right@, elt.coords@),
    {
        let ghost q = self.spec_algebra().spec_quiver();
        proof {
            lemma_basis_ends_are_vertices(q, b@);
        }
        match b {
            BasisElt::Idempotent(v) => {
                if elt.left == *v {
                    copy_element(elt)
                } else {
                    let dim = self.peirce_dim(v, &elt.right);
                    PeirceElement::zero(v.clone(), elt.right.clone(), dim)
                }
            },
            BasisElt::Path(word) => {
                let arrows = word_to_vec(word);
                let ghost w = arrows.deep_view();
                let mut m = copy_element(elt);
                let mut k: usize = arrows.len();
                assert(w.take(w.len() as int) =~= w);
                while k > 0
                    invariant
                        self.spec_algebra().wf(),
                        ring_ops_total::<Coeffs>(),
                        q == self.spec_algebra().spec_quiver(),
                        w == arrows.deep_view(),
                        w == b@.1,
                        !b@.0,
                        valid_basis(q, b@),
                        k <= w.len(),
                        indexed_by_vertices(q, m),
                        m.right@ == elt.right@,
                        m.coords@.len() == self.spec_dim(m.left@, m.right@),
                        k < w.len() ==> m.left@ == arrow_source(q, w[k as int]),
                        exact_coeffs::<Coeffs>() ==> left_word_act(self, w, elt.left@, elt.right@, elt.coords@)
                            == left_word_act(self, w.take(k as int), m.left@, m.right@, m.coords@),
                    decreases k,
                {
                    k = k - 1;
                    assert(q.has_arrow(w[k as int]));
                    proof {
                        lemma_arrow_ends_are_vertices(q, w[k as int]);
                        assert(w.take(k + 1).drop_last() =~= w.take(k as int));
                        assert(w.take(k + 1).last() == w[k as int]);
                    }
                    assert(arrows@[k as int]@ == w[k as int]);
                    m = self.left_act(&arrows[k], &m);
                }
                assert(w.len() >= 1);
                assert(w.take(0) =~= Seq::<Seq<char>>::empty());
                m
            },
        }
    }

    /// The right action of the basis element `b` of the algebra on `elt`:
    /// for the idempotent `e_v`, `elt` itself where `elt.right == v` and zero
    /// in the piece `(elt.left, v)` otherwise; for a path `[a_1, ..., a_n]`,
    /// the right actions of `a_1`, then `a_2`, up to `a_n`. The result lies in
    /// the piece whose right index is the target of `b`.
    fn right_act_algebra_elt(&self, b: &BasisElt, elt: &PeirceElement<String, Coeffs>) -> (r: PeirceElement<
        String,
        Coeffs,
    >)
        requires
            self.spec_algebra().wf(),
            ring_ops_total::<Coeffs>(),
            valid_basis(self.spec_algebra().spec_quiver(), b@),
            indexed_by_vertices(self.spec_algebra().spec_quiver(), *elt),
            elt.coords@.len() == self.spec_dim(elt.left@, elt.right@),
        ensures
            self.spec_algebra().spec_quiver().spec_basis_ends(b@) matches Some((_, t)) && r.right@ == t,
            r.left@ == elt.left@,
            r.coords@.len() == self.spec_dim(r.left@, r.right@),
            exact_coeffs::<Coeffs>() ==> r.coords@ == right_basis_act(self, b@, elt.left@, elt.right@, elt.coords@),
    {
        let ghost q = self.spec_algebra().spec_quiver();
        proof {
            lemma_basis_ends_are_vertices(q, b@);
        }
        match b {
            BasisElt::Idempotent(v) => {
                if elt.right == *v {
                    copy_element(elt)
                } else {
                    let dim = self.peirce_dim(&elt.left, v);
                    PeirceElement::zero(elt.left.clone(), v.clone(), dim)
                }
            },
            BasisElt::Path(word) => {
                let arrows = word_to_vec(word);
                let ghost w = arrows.deep_view();
                let mut m = copy_element(elt);
                let mut k: usize = 0;
                assert(w.skip(0) =~= w);
                while k < arrows.len()
                    invariant
                        self.spec_algebra().wf(),
                        ring_ops_total::<Coeffs>(),
                        q == self.spec_algebra().spec_quiver(),
                        w == arrows.deep_view(),
                        w == b@.1,
                        !b@.0,
                        valid_basis(q, b@),
                        k <= w.len(),
                        indexed_by_vertices(q, m),
                        m.left@ == elt.left@,
                        m.coords@.len() == self.spec_dim(m.left@, m.right@),
                        k > 0 ==> m.right@ == arrow_target(q, w[k - 1]),
                        exact_coeffs::<Coeffs>() ==> right_word_act(self, w, elt.left@, elt.right@, elt.coords@)
                            == right_word_act(self, w.skip(k as int), m.left@, m.right@, m.coords@),
                    decreases w.len() - k,
                {
                    assert(q.has_arrow(w[k as int]));
                    proof {
                        lemma_arrow_ends_are_vertices(q, w[k as int]);
                        assert(w.skip(k as int).drop_first() =~= w.skip(k + 1));
                        assert(w.skip(k as int)[0] == w[k as int]);
                    }
                    assert(arrows@[k as int]@ == w[k as int]);
                    m = self.right_act(&arrows[k], &m);
                    k = k + 1;
                }
                assert(w.len() >= 1);
                assert(w.skip(w.len() as int) =~= Seq::<Seq<char>>::empty());
                m
            },
        }
    }

    /// Whether the relation `rel`, whose terms run from `src` to `tgt`, acts
    /// as zero on the left of every basis element of the piece `(tgt, w)`: the
    /// sum over its terms with nonzero coefficient of the coefficient times the
    /// left action of the term is zero each time.
    fn left_relation_vanishes(&self, rel: &PathAlgebra<Coeffs, OP_ALG>, src: &String, tgt: &String, w: &String) -> (r: bool)
        requires
            self.spec_algebra().wf(),
            ring_ops_total::<Coeffs>(),
            rel.wf(),
            rel.spec_quiver() == self.spec_algebra().spec_quiver(),
            relation_ok(self.spec_algebra().spec_quiver(), rel.terms()),
            src@ == self.spec_algebra().spec_quiver().nodes()[term_ends(self.spec_algebra().spec_quiver(), rel.terms()[0].0).0],
            tgt@ == self.spec_algebra().spec_quiver().nodes()[term_ends(self.spec_algebra().spec_quiver(), rel.terms()[0].0).1],
            self.spec_algebra().spec_quiver().has_vertex(w@),
        ensures
            exact_coeffs::<Coeffs>() ==> (r <==> left_vanishes(self, rel.terms(), src@, tgt@, w@)),
    {
        let ghost q = self.spec_algebra().spec_quiver();
        let ghost t = rel.terms();
        proof {
            lemma_basis_ends_are_vertices(q, t[0].0);
        }
        let dim_in = self.peirce_dim(tgt, w);
        let dim_out = self.peirce_dim(src, w);
        let terms = rel.iter();
        let mut i: usize = 0;
        while i < dim_in
            invariant
                self.spec_algebra().wf(),
                ring_ops_total::<Coeffs>(),
                q == self.spec_algebra().spec_quiver(),
                t == rel.terms(),
                terms_of(terms@) == t,
                relation_ok(q, t),
                q.has_vertex(src@),
                q.has_vertex(tgt@),
                q.has_vertex(w@),
                src@ == q.nodes()[term_ends(q, t[0].0).0],
                tgt@ == q.nodes()[term_ends(q, t[0].0).1],
                dim_in == self.spec_dim(tgt@, w@),
                dim_out == self.spec_dim(src@, w@),
                i <= dim_in,
                exact_coeffs::<Coeffs>() ==> forall|j: int|
                    0 <= j < i ==> all_zero(
                        #[trigger] left_relation_sum(self, t, t.len() as int, tgt@, w@, unit_coords(self.spec_dim(tgt@, w@), j), self.spec_dim(src@, w@)),
                    ),
            decreases dim_in - i,
        {
            let ei = PeirceElement::basis_vec(tgt.clone(), w.clone(), dim_in, i);
            let mut sum = PeirceElement::zero(src.clone(), w.clone(), dim_out);
            let mut k: usize = 0;
            assert(sum.coords@ =~= left_relation_sum(self, t, 0, tgt@, w@, ei.coords@, dim_out as nat));
            while k < terms.len()
                invariant
                    k <= terms@.len(),
                    ei.left@ == tgt@,
                    ei.coords@ == unit_coords::<Coeffs>(dim_in as nat, i as int),
                    exact_coeffs::<Coeffs>() ==> sum.coords@ == left_relation_sum(self, t, k as int, tgt@, w@, ei.coords@, dim_out as nat),
                    self.spec_algebra().wf(),
                    ring_ops_total::<Coeffs>(),
                    q == self.spec_algebra().spec_quiver(),
                    terms_of(terms@) == t,
                    relation_ok(q, t),
                    src@ == q.nodes()[term_ends(q, t[0].0).0],
                    indexed_by_vertices(q, ei),
                    ei.coords@.len() == self.spec_dim(ei.left@, ei.right@),
                    ei.right@ == w@,
                    sum.coords@.len() == dim_out,
                    dim_out == self.spec_dim(src@, w@),
                decreases terms@.len() - k,
            {
                let basis_elt = &terms[k].0;
                let coeff = terms[k].1;
                assert(t[k as int].0 == basis_elt@);
                if !coeff.is_zero() {
                    proof {
                        lemma_basis_ends_are_vertices(q, t[k as int].0);
                        assert(term_ends(q, t[k as int].0) == term_ends(q, t[0].0));
                    }
                    let mut term = self.left_act_algebra_elt(basis_elt, &ei);
                    let ghost acted = term.coords@;
                    let ghost prev = sum.coords@;
                    term.scale_assign(&coeff);
                    let ghost scaled = term.coords@;
                    sum.add_assign(&term);
                    proof {
                        if exact_coeffs::<Coeffs>() {
                            assert(scaled =~= scale_coords(acted, coeff));
                            assert(sum.coords@ =~= add_coords(prev, scaled));
                        }
                    }
                }
                k = k + 1;
            }
            if !sum.is_zero() {
                proof {
                    if exact_coeffs::<Coeffs>() {
                        assert(k == t.len());
                        assert(!all_zero(left_relation_sum(self, t, t.len() as int, tgt@, w@, ei.coords@, dim_out as nat)));
                    }
                }
                return false;
            }
            i = i + 1;
        }
        true
    }

    /// Whether the relation `rel`, whose terms run from `src` to `tgt`, acts
    /// as zero on the right of every basis element of the piece `(v, src)`.
    fn right_relation_vanishes(&self, rel: &PathAlgebra<Coeffs, OP_ALG>, src: &String, tgt: &String, v: &String) -> (r: bool)
        requires
            self.spec_algebra().wf(),
            ring_ops_total::<Coeffs>(),
            rel.wf(),
            rel.spec_quiver() == self.spec_algebra().spec_quiver(),
            relation_ok(self.spec_algebra().spec_quiver(), rel.terms()),
            src@ == self.spec_algebra().spec_quiver().nodes()[term_ends(self.spec_algebra().spec_quiver(), rel.terms()[0].0).0],
            tgt@ == self.spec_algebra().spec_quiver().nodes()[term_ends(self.spec_algebra().spec_quiver(), rel.terms()[0].0).1],
            self.spec_algebra().spec_quiver().has_vertex(v@),
        ensures
            exact_coeffs::<Coeffs>() ==> (r <==> right_vanishes(self, rel.terms(), src@, tgt@, v@)),
    {
        let ghost q = self.spec_algebra().spec_quiver();
        let ghost t = rel.terms();
        proof {
            lemma_basis_ends_are_vertices(q, t[0].0);
        }
        let dim_in = self.peirce_dim(v, src);
        let dim_out = self.peirce_dim(v, tgt);
        let terms = rel.iter();
        let mut i: usize = 0;
        while i < dim_in
            invariant
                self.spec_algebra().wf(),
                ring_ops_total::<Coeffs>(),
                q == self.spec_algebra().spec_quiver(),
                t == rel.terms(),
                terms_of(terms@) == t,
                relation_ok(q, t),
                q.has_vertex(src@),
                q.has_vertex(tgt@),
                q.has_vertex(v@),
                src@ == q.nodes()[term_ends(q, t[0].0).0],
                tgt@ == q.nodes()[term_ends(q, t[0].0).1],
                dim_in == self.spec_dim(v@, src@),
                dim_out == self.spec_dim(v@, tgt@),
                i <= dim_in,
                exact_coeffs::<Coeffs>() ==> forall|j: int|
                    0 <= j < i ==> all_zero(
                        #[trigger] right_relation_sum(self, t, t.len() as int, v@, src@, unit_coords(self.spec_dim(v@, src@), j), self.spec_dim(v@, tgt@)),
                    ),
            decreases dim_in - i,
        {
            let ei = PeirceElement::basis_vec(v.clone(), src.clone(), dim_in, i);
            let mut sum = PeirceElement::zero(v.clone(), tgt.clone(), dim_out);
            let mut k: usize = 0;
            assert(sum.coords@ =~= right_relation_sum(self, t, 0, v@, src@, ei.coords@, dim_out as nat));
            while k < terms.len()
                invariant
                    k <= terms@.len(),
                    ei.right@ == src@,
                    ei.left@ == v@,
                    ei.coords@ == unit_coords::<Coeffs>(dim_in as nat, i as int),
                    exact_coeffs::<Coeffs>() ==> sum.coords@ == right_relation_sum(self, t, k as int, v@, src@, ei.coords@, dim_out as nat),
                    self.spec_algebra().wf(),
                    ring_ops_total::<Coeffs>(),
                    q == self.spec_algebra().spec_quiver(),
                    terms_of(terms@) == t,
                    relation_ok(q, t),
                    tgt@ == q.nodes()[term_ends(q, t[0].0).1],
                    indexed_by_vertices(q, ei),
                    ei.coords@.len() == self.spec_dim(ei.left@, ei.right@),
                    ei.left@ == v@,
                    sum.coords@.len() == dim_out,
                    dim_out == self.spec_dim(v@, tgt@),
                decreases terms@.len() - k,
            {
                let basis_elt = &terms[k].0;
                let coeff = terms[k].1;
                assert(t[k as int].0 == basis_elt@);
                if !coeff.is_zero() {
                    proof {
                        lemma_basis_ends_are_vertices(q, t[k as int].0);
                        assert(term_ends(q, t[k as int].0) == term_ends(q, t[0].0));
                    }
                    let mut term = self.right_act_algebra_elt(basis_elt, &ei);
                    let ghost acted = term.coords@;
                    let ghost prev = sum.coords@;
                    term.scale_assign(&coeff);
                    let ghost scaled = term.coords@;
                    sum.add_assign(&term);
                    proof {
                        if exact_coeffs::<Coeffs>() {
                            assert(scaled =~= scale_coords(acted, coeff));
                            assert(sum.coords@ =~= add_coords(prev, scaled));
                        }
                    }
                }
                k = k + 1;
            }
            if !sum.is_zero() {
                proof {
                    if exact_coeffs::<Coeffs>() {
                        assert(k == t.len());
                        assert(!all_zero(right_relation_sum(self, t, t.len() as int, v@, src@, ei.coords@, dim_out as nat)));
                    }
                }
                return false;
            }
            i = i + 1;
        }
        true
    }

    /// Whether the left action of `alpha` and the right action of `beta`
    /// commute on every basis element of the piece `(t(alpha), s(beta))`.
    fn arrows_commute(&self, alpha: &String, beta: &String) -> (r: bool)
        requires
            self.spec_algebra().wf(),
            ring_ops_total::<Coeffs>(),
            self.spec_algebra().spec_quiver().has_arrow(alpha@),
            self.spec_algebra().spec_quiver().has_arrow(beta@),
        ensures
            exact_coeffs::<Coeffs>() ==> (r <==> arrows_commute_spec(self, alpha@, beta@)),
    {
        let ghost q = self.spec_algebra().spec_quiver();
        let quiver = self.algebra().quiver();
        proof {
            lemma_arrow_ends_are_vertices(q, alpha@);
            lemma_arrow_ends_are_vertices(q, beta@);
        }
        let tgt_a = match quiver.edge_endpoint_labels(alpha) {
            Some((_, t)) => t,
            None => {
                return true;
            },
        };
        let src_b = match quiver.edge_endpoint_labels(beta) {
            Some((s, _)) => s,
            None => {
                return true;
            },
        };
        let dim = self.peirce_dim(&tgt_a, &src_b);
        let mut i: usize = 0;
        while i < dim
            invariant
                self.spec_algebra().wf(),
                ring_ops_total::<Coeffs>(),
                q == self.spec_algebra().spec_quiver(),
                q.has_arrow(alpha@),
                q.has_arrow(beta@),
                q.has_vertex(tgt_a@),
                q.has_vertex(src_b@),
                q.has_vertex(arrow_source(q, alpha@)),
                q.has_vertex(arrow_target(q, beta@)),
                dim == self.spec_dim(tgt_a@, src_b@),
                tgt_a@ == arrow_target(q, alpha@),
                src_b@ == arrow_source(q, beta@),
                i <= dim,
                exact_coeffs::<Coeffs>() ==> forall|j: int| 0 <= j < i ==> #[trigger] commute_at(self, alpha@, beta@, j),
            decreases dim - i,
        {
            let b = PeirceElement::basis_vec(tgt_a.clone(), src_b.clone(), dim, i);
            let b_beta = self.right_act(beta, &b);
            let lhs = self.left_act(alpha, &b_beta);
            let alpha_b = self.left_act(alpha, &b);
            let rhs = self.right_act(beta, &alpha_b);
            let same = same_element(&lhs, &rhs);
            proof {
                if exact_coeffs::<Coeffs>() {
                    assert(b.coords@ == unit_coords::<Coeffs>(dim as nat, i as int));
                    assert(same <==> commute_at(self, alpha@, beta@, i as int));
                }
            }
            if !same {
                return false;
            }
            i = i + 1;
        }
        true
    }

    /// Check the three bimodule axioms; the violations found, empty where all
    /// hold:
    /// 1. each relation acts as zero on the left of every element of each
    ///    piece `(t(rel), w)` (one violation per relation and vertex `w`);
    /// 2. each relation acts as zero on the right of every element of each
    ///    piece `(v, s(rel))` (one violation per relation and vertex `v`);
    /// 3. for all arrows `alpha`, `beta` the two actions commute on every
    ///    basis element of the piece `(t(alpha), s(beta))`:
    ///    `alpha (b beta) = (alpha b) beta` (one violation per pair).
    ///
    /// Each failing relation and vertex, and each failing pair of arrows, is
    /// reported exactly once.
    fn check_bimodule_axioms(&self) -> (r: Vec<BimoduleAxiomViolation<String, String>>)
        requires
            self.spec_algebra().wf(),
            ring_ops_total::<Coeffs>(),
        ensures
            forall|k: int| 0 <= k < r@.len() ==> violation_in(self.spec_algebra(), #[trigger] r@[k]),
            exact_coeffs::<Coeffs>() ==> forall|k: int| 0 <= k < r@.len() ==> violation_holds(self, #[trigger] r@[k]),
            exact_coeffs::<Coeffs>() ==> forall|i: int, w: Seq<char>|
                #[trigger] left_fails(self, i, w) ==> listed_left(r@, i, w),
            exact_coeffs::<Coeffs>() ==> forall|i: int, v: Seq<char>|
                #[trigger] right_fails(self, i, v) ==> listed_right(r@, i, v),
            exact_coeffs::<Coeffs>() ==> forall|x: Seq<char>, y: Seq<char>|
                #[trigger] commute_fails(self, x, y) ==> listed_commute(r@, x, y),
            distinct_violations(r@),
    {
        let ghost q = self.spec_algebra().spec_quiver();
        let ghost rels = self.spec_algebra().rels();
        let mut violations: Vec<BimoduleAxiomViolation<String, String>> = Vec::new();
        let algebra = self.algebra();
        let quiver = algebra.quiver();
        let vertices = quiver.vertex_labels();
        let edges = quiver.edge_labels();
        let relations = algebra.relations();
        proof {
            assert(relations@.len() == self.spec_algebra().rels().len());
        }
        let mut side: usize = 0;
        while side < 2
            invariant
                self.spec_algebra().wf(),
                ring_ops_total::<Coeffs>(),
                q == self.spec_algebra().spec_quiver(),
                rels == self.spec_algebra().rels(),
                **algebra == self.spec_algebra(),
                **quiver == q,
                side <= 2,
                forall|a: Seq<char>| #[trigger] vertices.deep_view().contains(a) <==> q.has_vertex(a),
                crate::quiver_with_rels::relation_terms(relations@) == self.spec_algebra().rels(),
                forall|i: int|
                    0 <= i < relations@.len() ==> (#[trigger] relations@[i]).wf() && relations@[i].spec_quiver() == q,
                forall|k: int| 0 <= k < violations@.len() ==> violation_in(self.spec_algebra(), #[trigger] violations@[k]),
                exact_coeffs::<Coeffs>() ==> forall|k: int|
                    0 <= k < violations@.len() ==> violation_holds(self, #[trigger] violations@[k]),
                exact_coeffs::<Coeffs>() && side >= 1 ==> forall|i: int, w: Seq<char>|
                    #[trigger] left_fails(self, i, w) ==> listed_left(violations@, i, w),
                exact_coeffs::<Coeffs>() && side >= 2 ==> forall|i: int, w: Seq<char>|
                    #[trigger] right_fails(self, i, w) ==> listed_right(violations@, i, w),
                vertices.deep_view().no_duplicates(),
                distinct_violations(violations@),
                forall|k: int|
                    0 <= k < violations@.len() ==> relation_phase_entry(
                        #[trigger] violations@[k],
                        side as int,
                        0,
                        Seq::<Seq<char>>::empty(),
                    ),
            decreases 2 - side,
        {
            let mut rel_idx: usize = 0;
            while rel_idx < relations.len()
                invariant
                    self.spec_algebra().wf(),
                    ring_ops_total::<Coeffs>(),
                    q == self.spec_algebra().spec_quiver(),
                    rels == self.spec_algebra().rels(),
                    side < 2,
                    forall|a: Seq<char>| #[trigger] vertices.deep_view().contains(a) <==> q.has_vertex(a),
                    crate::quiver_with_rels::relation_terms(relations@) == self.spec_algebra().rels(),
                    forall|i: int|
                        0 <= i < relations@.len() ==> (#[trigger] relations@[i]).wf() && relations@[i].spec_quiver() == q,
                    rel_idx <= relations@.len(),
                    relations@.len() == rels.len(),
                    forall|k: int|
                        0 <= k < violations@.len() ==> violation_in(self.spec_algebra(), #[trigger] violations@[k]),
                    exact_coeffs::<Coeffs>() ==> forall|k: int|
                        0 <= k < violations@.len() ==> violation_holds(self, #[trigger] violations@[k]),
                    exact_coeffs::<Coeffs>() && side >= 1 ==> forall|i: int, w: Seq<char>|
                        #[trigger] left_fails(self, i, w) ==> listed_left(violations@, i, w),
                    exact_coeffs::<Coeffs>() && side == 0 ==> forall|i: int, w: Seq<char>|
                        #[trigger] left_fails(self, i, w) && i < rel_idx ==> listed_left(violations@, i, w),
                    exact_coeffs::<Coeffs>() && side == 1 ==> forall|i: int, w: Seq<char>|
                        #[trigger] right_fails(self, i, w) && i < rel_idx ==> listed_right(violations@, i, w),
                    vertices.deep_view().no_duplicates(),
                    distinct_violations(violations@),
                    forall|k: int|
                        0 <= k < violations@.len() ==> relation_phase_entry(
                            #[trigger] violations@[k],
                            side as int,
                            rel_idx as int,
                            Seq::<Seq<char>>::empty(),
                        ),
                decreases relations@.len() - rel_idx,
            {
                let rel = &relations[rel_idx];
                assert(self.spec_algebra().rels()[rel_idx as int] == rel.terms());
                assert(relation_ok(q, self.spec_algebra().rels()[rel_idx as int]));
                match rel.all_parallel() {
                    Ok(Some((src_rel, tgt_rel))) => {
                        let mut vi: usize = 0;
                        assert(vertices.deep_view().take(0) =~= Seq::<Seq<char>>::empty());
                        while vi < vertices.len()
                            invariant
                                self.spec_algebra().wf(),
                                ring_ops_total::<Coeffs>(),
                                q == self.spec_algebra().spec_quiver(),
                                rels == self.spec_algebra().rels(),
                                side < 2,
                                forall|a: Seq<char>| #[trigger] vertices.deep_view().contains(a) <==> q.has_vertex(a),
                                rel.wf(),
                                rel.spec_quiver() == q,
                                rel.terms() == rels[rel_idx as int],
                                relation_ok(q, rel.terms()),
                                rel_idx < self.spec_algebra().rels().len(),
                                src_rel@ == relation_source(q, rel.terms()),
                                tgt_rel@ == relation_target(q, rel.terms()),
                                vi <= vertices@.len(),
                                forall|k: int|
                                    0 <= k < violations@.len() ==> violation_in(
                                        self.spec_algebra(),
                                        #[trigger] violations@[k],
                                    ),
                                exact_coeffs::<Coeffs>() ==> forall|k: int|
                                    0 <= k < violations@.len() ==> violation_holds(self, #[trigger] violations@[k]),
                                exact_coeffs::<Coeffs>() && side >= 1 ==> forall|i: int, w: Seq<char>|
                                    #[trigger] left_fails(self, i, w) ==> listed_left(violations@, i, w),
                                exact_coeffs::<Coeffs>() && side == 0 ==> forall|i: int, w: Seq<char>|
                                    #[trigger] left_fails(self, i, w) && i < rel_idx ==> listed_left(violations@, i, w),
                                exact_coeffs::<Coeffs>() && side == 1 ==> forall|i: int, w: Seq<char>|
                                    #[trigger] right_fails(self, i, w) && i < rel_idx ==> listed_right(violations@, i, w),
                                exact_coeffs::<Coeffs>() && side == 0 ==> forall|j: int|
                                    0 <= j < vi && left_fails(self, rel_idx as int, #[trigger] vertices.deep_view()[j])
                                        ==> listed_left(violations@, rel_idx as int, vertices.deep_view()[j]),
                                exact_coeffs::<Coeffs>() && side == 1 ==> forall|j: int|
                                    0 <= j < vi && right_fails(self, rel_idx as int, #[trigger] vertices.deep_view()[j])
                                        ==> listed_right(violations@, rel_idx as int, vertices.deep_view()[j]),
                                vertices.deep_view().no_duplicates(),
                                distinct_violations(violations@),
                                forall|k: int|
                                    0 <= k < violations@.len() ==> relation_phase_entry(
                                        #[trigger] violations@[k],
                                        side as int,
                                        rel_idx as int,
                                        vertices.deep_view().take(vi as int),
                                    ),
                            decreases vertices@.len() - vi,
                        {
                            let w = &vertices[vi];
                            assert(vertices.deep_view()[vi as int] == w@);
                            assert(vertices.deep_view().contains(w@));
                            let ghost before = violations@;
                            proof {
                                let ghost wv: String = *w;
                                let ghost xg = if side == 0 {
                                    BimoduleAxiomViolation::LeftRelationFails { relation_index: rel_idx, right_vertex: wv }
                                } else {
                                    BimoduleAxiomViolation::RightRelationFails { relation_index: rel_idx, left_vertex: wv }
                                };
                                lemma_relation_phase_step(before, side as int, rel_idx as int, vertices.deep_view(), vi as int, xg);
                            }
                            if side == 0 {
                                if !self.left_relation_vanishes(rel, &src_rel, &tgt_rel, w) {
                                    let x = BimoduleAxiomViolation::LeftRelationFails {
                                        relation_index: rel_idx,
                                        right_vertex: w.clone(),
                                    };
                                    proof {
                                        lemma_listed_push(before, x);
                                        assert(is_left_at(x, rel_idx as int, w@));
                                        lemma_relation_phase_step(before, side as int, rel_idx as int, vertices.deep_view(), vi as int, x);
                                    }
                                    violations.push(x);
                                }
                            } else {
                                if !self.right_relation_vanishes(rel, &src_rel, &tgt_rel, w) {
                                    let x = BimoduleAxiomViolation::RightRelationFails {
                                        relation_index: rel_idx,
                                        left_vertex: w.clone(),
                                    };
                                    proof {
                                        lemma_listed_push(before, x);
                                        assert(is_right_at(x, rel_idx as int, w@));
                                        lemma_relation_phase_step(before, side as int, rel_idx as int, vertices.deep_view(), vi as int, x);
                                    }
                                    violations.push(x);
                                }
                            }
                            vi = vi + 1;
                        }
                        proof {
                            assert(vertices.deep_view().take(vi as int) =~= vertices.deep_view());
                            assert forall|k: int| 0 <= k < violations@.len() implies relation_phase_entry(
                                #[trigger] violations@[k],
                                side as int,
                                rel_idx + 1,
                                Seq::<Seq<char>>::empty(),
                            ) by {
                                assert(relation_phase_entry(violations@[k], side as int, rel_idx as int, vertices.deep_view().take(vi as int)));
                            }
                            if exact_coeffs::<Coeffs>() && side == 0 {
                                assert forall|i: int, w: Seq<char>|
                                    #[trigger] left_fails(self, i, w) && i < rel_idx + 1 implies listed_left(violations@, i, w) by {
                                    if i == rel_idx {
                                        assert(vertices.deep_view().contains(w));
                                        let j = choose|j: int| 0 <= j < vertices.deep_view().len() && vertices.deep_view()[j] == w;
                                    }
                                }
                            }
                            if exact_coeffs::<Coeffs>() && side == 1 {
                                assert forall|i: int, w: Seq<char>|
                                    #[trigger] right_fails(self, i, w) && i < rel_idx + 1 implies listed_right(violations@, i, w) by {
                                    if i == rel_idx {
                                        assert(vertices.deep_view().contains(w));
                                        let j = choose|j: int| 0 <= j < vertices.deep_view().len() && vertices.deep_view()[j] == w;
                                    }
                                }
                            }
                        }
                    },
                    _ => {
                        assert(false);
                    },
                }
                rel_idx = rel_idx + 1;
            }
            proof {
                assert forall|k: int| 0 <= k < violations@.len() implies relation_phase_entry(
                    #[trigger] violations@[k],
                    side + 1,
                    0,
                    Seq::<Seq<char>>::empty(),
                ) by {
                    assert(relation_phase_entry(violations@[k], side as int, rel_idx as int, Seq::<Seq<char>>::empty()));
                }
            }
            side = side + 1;
        }
        proof {
            assert(edges.deep_view().take(0) =~= Seq::<Seq<char>>::empty());
            assert forall|k: int| 0 <= k < violations@.len() implies commute_phase_entry(
                #[trigger] violations@[k],
                edges.deep_view().take(0),
                Seq::<char>::empty(),
                Seq::<Seq<char>>::empty(),
            ) by {
                assert(relation_phase_entry(violations@[k], 2, 0, Seq::<Seq<char>>::empty()));
            }
        }
        let mut ai: usize = 0;
        while ai < edges.len()
            invariant
                self.spec_algebra().wf(),
                ring_ops_total::<Coeffs>(),
                q == self.spec_algebra().spec_quiver(),
                **quiver == q,
                forall|a: Seq<char>| #[trigger] edges.deep_view().contains(a) <==> q.has_arrow(a),
                ai <= edges@.len(),
                forall|k: int| 0 <= k < violations@.len() ==> violation_in(self.spec_algebra(), #[trigger] violations@[k]),
                exact_coeffs::<Coeffs>() ==> forall|k: int|
                    0 <= k < violations@.len() ==> violation_holds(self, #[trigger] violations@[k]),
                exact_coeffs::<Coeffs>() ==> forall|i: int, w: Seq<char>|
                    #[trigger] left_fails(self, i, w) ==> listed_left(violations@, i, w),
                exact_coeffs::<Coeffs>() ==> forall|i: int, w: Seq<char>|
                    #[trigger] right_fails(self, i, w) ==> listed_right(violations@, i, w),
                exact_coeffs::<Coeffs>() ==> forall|j: int, y: Seq<char>|
                    0 <= j < ai && #[trigger] commute_fails(self, edges.deep_view()[j], y) ==> listed_commute(
                        violations@,
                        edges.deep_view()[j],
                        y,
                    ),
                edges.deep_view().no_duplicates(),
                distinct_violations(violations@),
                forall|k: int|
                    0 <= k < violations@.len() ==> commute_phase_entry(
                        #[trigger] violations@[k],
                        edges.deep_view().take(ai as int),
                        Seq::<char>::empty(),
                        Seq::<Seq<char>>::empty(),
                    ),
            decreases edges@.len() - ai,
        {
            let alpha = &edges[ai];
            assert(edges.deep_view()[ai as int] == alpha@);
            assert(edges.deep_view().contains(alpha@));
            let mut bi: usize = 0;
            proof {
                assert(edges.deep_view().take(0) =~= Seq::<Seq<char>>::empty());
                assert(!edges.deep_view().take(ai as int).contains(alpha@)) by {
                    if edges.deep_view().take(ai as int).contains(alpha@) {
                        let j = choose|j: int| 0 <= j < ai && edges.deep_view().take(ai as int)[j] == alpha@;
                        assert(edges.deep_view()[j] == edges.deep_view()[ai as int]);
                    }
                }
                assert forall|k: int| 0 <= k < violations@.len() implies commute_phase_entry(
                    #[trigger] violations@[k],
                    edges.deep_view().take(ai as int),
                    alpha@,
                    edges.deep_view().take(0),
                ) by {
                    assert(commute_phase_entry(violations@[k], edges.deep_view().take(ai as int), Seq::<char>::empty(), Seq::<Seq<char>>::empty()));
                }
            }
            while bi < edges.len()
                invariant
                    self.spec_algebra().wf(),
                    ring_ops_total::<Coeffs>(),
                    q == self.spec_algebra().spec_quiver(),
                    **quiver == q,
                    forall|a: Seq<char>| #[trigger] edges.deep_view().contains(a) <==> q.has_arrow(a),
                    q.has_arrow(alpha@),
                    ai < edges@.len(),
                    edges.deep_view()[ai as int] == alpha@,
                    bi <= edges@.len(),
                    forall|k: int|
                        0 <= k < violations@.len() ==> violation_in(self.spec_algebra(), #[trigger] violations@[k]),
                    exact_coeffs::<Coeffs>() ==> forall|k: int|
                        0 <= k < violations@.len() ==> violation_holds(self, #[trigger] violations@[k]),
                    exact_coeffs::<Coeffs>() ==> forall|i: int, w: Seq<char>|
                        #[trigger] left_fails(self, i, w) ==> listed_left(violations@, i, w),
                    exact_coeffs::<Coeffs>() ==> forall|i: int, w: Seq<char>|
                        #[trigger] right_fails(self, i, w) ==> listed_right(violations@, i, w),
                    exact_coeffs::<Coeffs>() ==> forall|j: int, y: Seq<char>|
                        0 <= j < ai && #[trigger] commute_fails(self, edges.deep_view()[j], y) ==> listed_commute(
                            violations@,
                            edges.deep_view()[j],
                            y,
                        ),
                    exact_coeffs::<Coeffs>() ==> forall|j: int|
                        0 <= j < bi && commute_fails(self, alpha@, #[trigger] edges.deep_view()[j]) ==> listed_commute(
                            violations@,
                            alpha@,
                            edges.deep_view()[j],
                        ),
                    edges.deep_view().no_duplicates(),
                    !edges.deep_view().take(ai as int).contains(alpha@),
                    distinct_violations(violations@),
                    forall|k: int|
                        0 <= k < violations@.len() ==> commute_phase_entry(
                            #[trigger] violations@[k],
                            edges.deep_view().take(ai as int),
                            alpha@,
                            edges.deep_view().take(bi as int),
                        ),
                decreases edges@.len() - bi,
            {
                let beta = &edges[bi];
                assert(edges.deep_view()[bi as int] == beta@);
                assert(edges.deep_view().contains(beta@));
                let ghost before = violations@;
                proof {
                    let ghost xg = BimoduleAxiomViolation::CommutativityFails { left_arrow: *alpha, right_arrow: *beta };
                    lemma_commute_phase_step(before, edges.deep_view().take(ai as int), alpha@, edges.deep_view(), bi as int, xg);
                }
                if !self.arrows_commute(alpha, beta) {
                    let x = BimoduleAxiomViolation::CommutativityFails { left_arrow: alpha.clone(), right_arrow: beta.clone() };
                    proof {
                        lemma_listed_push(before, x);
                        assert(is_commute_at(x, alpha@, beta@));
                        lemma_commute_phase_step(before, edges.deep_view().take(ai as int), alpha@, edges.deep_view(), bi as int, x);
                    }
                    violations.push(x);
                }
                bi = bi + 1;
            }
            proof {
                assert(edges.deep_view().take(bi as int) =~= edges.deep_view());
                assert(edges.deep_view().take(ai + 1)[ai as int] == alpha@);
                assert forall|k: int| 0 <= k < violations@.len() implies commute_phase_entry(
                    #[trigger] violations@[k],
                    edges.deep_view().take(ai + 1),
                    Seq::<char>::empty(),
                    Seq::<Seq<char>>::empty(),
                ) by {
                    assert(commute_phase_entry(violations@[k], edges.deep_view().take(ai as int), alpha@, edges.deep_view().take(bi as int)));
                    assert forall|v: Seq<char>| edges.deep_view().take(ai as int).contains(v) implies edges.deep_view().take(ai + 1).contains(v) by {
                        let j = choose|j: int| 0 <= j < ai && edges.deep_view().take(ai as int)[j] == v;
                        assert(edges.deep_view().take(ai + 1)[j] == v);
                    }
                }
                if exact_coeffs::<Coeffs>() {
                    assert forall|j: int, y: Seq<char>|
                        0 <= j < ai + 1 && #[trigger] commute_fails(self, edges.deep_view()[j], y) implies listed_commute(
                            violations@,
                            edges.deep_view()[j],
                            y,
                        ) by {
                        if j == ai {
                            assert(edges.deep_view().contains(y));
                            let l = choose|l: int| 0 <= l < edges.deep_view().len() && edges.deep_view()[l] == y;
                        }
                    }
                }
            }
            ai = ai + 1;
        }
        proof {
            if exact_coeffs::<Coeffs>() {
                assert forall|x: Seq<char>, y: Seq<char>|
                    #[trigger] commute_fails(self, x, y) implies listed_commute(violations@, x, y) by {
                    assert(edges.deep_view().contains(x));
                    let j = choose|j: int| 0 <= j < edges.deep_view().len() && edges.deep_view()[j] == x;
                }
            }
        }
        violations
    }
}


/// The first vertex of the relation with terms `t`.
pub open spec fn relation_source<C>(q: Quiver, t: Seq<(BasisView, C)>) -> Seq<char> {
    q.nodes()[term_ends(q, t[0].0).0]
}

/// The last vertex of the relation with terms `t`.
pub open spec fn relation_target<C>(q: Quiver, t: Seq<(BasisView, C)>) -> Seq<char> {
    q.nodes()[term_ends(q, t[0].0).1]
}

/// The `i`-th relation does not act as zero on the left of the pieces with
/// right index the vertex `w`.
pub open spec fn left_fails<Coeffs: Field + Copy, const OP_ALG: bool, M: BimoduleActions<Coeffs, OP_ALG>>(m: &M, i: int, w: Seq<char>) -> bool {
    let a = m.spec_algebra();
    let q = a.spec_quiver();
    let t = a.rels()[i];
    &&& 0 <= i < a.rels().len()
    &&& q.has_vertex(w)
    &&& !left_vanishes(m, t, relation_source(q, t), relation_target(q, t), w)
}

/// The `i`-th relation does not act as zero on the right of the pieces with
/// left index the vertex `v`.
pub open spec fn right_fails<Coeffs: Field + Copy, const OP_ALG: bool, M: BimoduleActions<Coeffs, OP_ALG>>(m: &M, i: int, v: Seq<char>) -> bool {
    let a = m.spec_algebra();
    let q = a.spec_quiver();
    let t = a.rels()[i];
    &&& 0 <= i < a.rels().len()
    &&& q.has_vertex(v)
    &&& !right_vanishes(m, t, relation_source(q, t), relation_target(q, t), v)
}

/// The arrows `x` and `y` are arrows whose actions do not commute.
pub open spec fn commute_fails<Coeffs: Field + Copy, const OP_ALG: bool, M: BimoduleActions<Coeffs, OP_ALG>>(m: &M, x: Seq<char>, y: Seq<char>) -> bool {
    let q = m.spec_algebra().spec_quiver();
    q.has_arrow(x) && q.has_arrow(y) && !arrows_commute_spec(m, x, y)
}

/// The axiom that the violation `v` reports does fail.
pub open spec fn violation_holds<Coeffs: Field + Copy, const OP_ALG: bool, M: BimoduleActions<Coeffs, OP_ALG>>(m: &M, v: BimoduleAxiomViolation<String, String>) -> bool {
    match v {
        BimoduleAxiomViolation::LeftRelationFails { relation_index, right_vertex } => left_fails(
            m,
            relation_index as int,
            right_vertex@,
        ),
        BimoduleAxiomViolation::RightRelationFails { relation_index, left_vertex } => right_fails(
            m,
            relation_index as int,
            left_vertex@,
        ),
        BimoduleAxiomViolation::CommutativityFails { left_arrow, right_arrow } => commute_fails(
            m,
            left_arrow@,
            right_arrow@,
        ),
    }
}

/// `v` reports the failure of relation `i` on the left at the vertex `w`.
pub open spec fn is_left_at(v: BimoduleAxiomViolation<String, String>, i: int, w: Seq<char>) -> bool {
    v matches BimoduleAxiomViolation::LeftRelationFails { relation_index, right_vertex } && relation_index == i
        && right_vertex@ == w
}

/// `v` reports the failure of relation `i` on the right at the vertex `w`.
pub open spec fn is_right_at(v: BimoduleAxiomViolation<String, String>, i: int, w: Seq<char>) -> bool {
    v matches BimoduleAxiomViolation::RightRelationFails { relation_index, left_vertex } && relation_index == i
        && left_vertex@ == w
}

/// `v` reports that the arrows `x` and `y` do not commute.
pub open spec fn is_commute_at(v: BimoduleAxiomViolation<String, String>, x: Seq<char>, y: Seq<char>) -> bool {
    v matches BimoduleAxiomViolation::CommutativityFails { left_arrow, right_arrow } && left_arrow@ == x
        && right_arrow@ == y
}

/// `vs` reports the failure of relation `i` on the left at `w`.
pub open spec fn listed_left(vs: Seq<BimoduleAxiomViolation<String, String>>, i: int, w: Seq<char>) -> bool {
    exists|k: int| 0 <= k < vs.len() && #[trigger] is_left_at(vs[k], i, w)
}

/// `vs` reports the failure of relation `i` on the right at `w`.
pub open spec fn listed_right(vs: Seq<BimoduleAxiomViolation<String, String>>, i: int, w: Seq<char>) -> bool {
    exists|k: int| 0 <= k < vs.len() && #[trigger] is_right_at(vs[k], i, w)
}

/// `vs` reports that `x` and `y` do not commute.
pub open spec fn listed_commute(vs: Seq<BimoduleAxiomViolation<String, String>>, x: Seq<char>, y: Seq<char>) -> bool {
    exists|k: int| 0 <= k < vs.len() && #[trigger] is_commute_at(vs[k], x, y)
}

/// Appending a violation keeps every violation already reported, and reports
/// the appended one.
proof fn lemma_listed_push(vs: Seq<BimoduleAxiomViolation<String, String>>, x: BimoduleAxiomViolation<String, String>)
    ensures
        forall|i: int, w: Seq<char>| #[trigger] listed_left(vs, i, w) ==> listed_left(vs.push(x), i, w),
        forall|i: int, w: Seq<char>| #[trigger] listed_right(vs, i, w) ==> listed_right(vs.push(x), i, w),
        forall|a: Seq<char>, b: Seq<char>| #[trigger] listed_commute(vs, a, b) ==> listed_commute(vs.push(x), a, b),
        forall|i: int, w: Seq<char>| is_left_at(x, i, w) ==> #[trigger] listed_left(vs.push(x), i, w),
        forall|i: int, w: Seq<char>| is_right_at(x, i, w) ==> #[trigger] listed_right(vs.push(x), i, w),
        forall|a: Seq<char>, b: Seq<char>| is_commute_at(x, a, b) ==> #[trigger] listed_commute(vs.push(x), a, b),
{
    let n = vs.len() as int;
    assert forall|i: int, w: Seq<char>| #[trigger] listed_left(vs, i, w) implies listed_left(vs.push(x), i, w) by {
        let k = choose|k: int| 0 <= k < vs.len() && #[trigger] is_left_at(vs[k], i, w);
        assert(vs.push(x)[k] == vs[k]);
    }
    assert forall|i: int, w: Seq<char>| #[trigger] listed_right(vs, i, w) implies listed_right(vs.push(x), i, w) by {
        let k = choose|k: int| 0 <= k < vs.len() && #[trigger] is_right_at(vs[k], i, w);
        assert(vs.push(x)[k] == vs[k]);
    }
    assert forall|a: Seq<char>, b: Seq<char>| #[trigger] listed_commute(vs, a, b) implies listed_commute(vs.push(x), a, b) by {
        let k = choose|k: int| 0 <= k < vs.len() && #[trigger] is_commute_at(vs[k], a, b);
        assert(vs.push(x)[k] == vs[k]);
    }
    assert forall|i: int, w: Seq<char>| is_left_at(x, i, w) implies #[trigger] listed_left(vs.push(x), i, w) by {
        assert(vs.push(x)[n] == x);
        assert(is_left_at(vs.push(x)[n], i, w));
    }
    assert forall|i: int, w: Seq<char>| is_right_at(x, i, w) implies #[trigger] listed_right(vs.push(x), i, w) by {
        assert(vs.push(x)[n] == x);
        assert(is_right_at(vs.push(x)[n], i, w));
    }
    assert forall|a: Seq<char>, b: Seq<char>| is_commute_at(x, a, b) implies #[trigger] listed_commute(vs.push(x), a, b) by {
        assert(vs.push(x)[n] == x);
        assert(is_commute_at(vs.push(x)[n], a, b));
    }
}

/// The two violations report the same failure.
pub open spec fn same_violation(a: BimoduleAxiomViolation<String, String>, b: BimoduleAxiomViolation<String, String>) -> bool {
    match a {
        BimoduleAxiomViolation::LeftRelationFails { relation_index, right_vertex } => is_left_at(
            b,
            relation_index as int,
            right_vertex@,
        ),
        BimoduleAxiomViolation::RightRelationFails { relation_index, left_vertex } => is_right_at(
            b,
            relation_index as int,
            left_vertex@,
        ),
        BimoduleAxiomViolation::CommutativityFails { left_arrow, right_arrow } => is_commute_at(
            b,
            left_arrow@,
            right_arrow@,
        ),
    }
}

/// No failure is reported twice in `vs`.
pub open spec fn distinct_violations(vs: Seq<BimoduleAxiomViolation<String, String>>) -> bool {
    forall|j: int, k: int| #![trigger vs[j], vs[k]] 0 <= j < k < vs.len() ==> !same_violation(vs[j], vs[k])
}

/// While the relations are checked (left side first, then right): `v` is a
/// left violation from an earlier side, relation or vertex in `seen`, or the
/// same for the right side.
spec fn relation_phase_entry(v: BimoduleAxiomViolation<String, String>, side: int, rel: int, seen: Seq<Seq<char>>) -> bool {
    match v {
        BimoduleAxiomViolation::LeftRelationFails { relation_index, right_vertex } => side > 0 || relation_index
            < rel || (relation_index == rel && seen.contains(right_vertex@)),
        BimoduleAxiomViolation::RightRelationFails { relation_index, left_vertex } => side > 1 || (side == 1 && (
        relation_index < rel || (relation_index == rel && seen.contains(left_vertex@)))),
        BimoduleAxiomViolation::CommutativityFails { .. } => false,
    }
}

/// While the arrow pairs are checked: a commutativity violation names a left
/// arrow in `done`, or `alpha` and a right arrow in `seen`.
spec fn commute_phase_entry(
    v: BimoduleAxiomViolation<String, String>,
    done: Seq<Seq<char>>,
    alpha: Seq<char>,
    seen: Seq<Seq<char>>,
) -> bool {
    match v {
        BimoduleAxiomViolation::CommutativityFails { left_arrow, right_arrow } => done.contains(left_arrow@) || (
        left_arrow@ == alpha && seen.contains(right_arrow@)),
        _ => true,
    }
}

/// Checking one more vertex keeps the entries of the relation phase valid,
/// and a violation reported at that vertex is new.
proof fn lemma_relation_phase_step(
    vs: Seq<BimoduleAxiomViolation<String, String>>,
    side: int,
    rel: int,
    names: Seq<Seq<char>>,
    vi: int,
    x: BimoduleAxiomViolation<String, String>,
)
    requires
        distinct_violations(vs),
        0 <= vi < names.len(),
        names.no_duplicates(),
        forall|k: int| 0 <= k < vs.len() ==> relation_phase_entry(#[trigger] vs[k], side, rel, names.take(vi)),
        (side == 0 && is_left_at(x, rel, names[vi])) || (side == 1 && is_right_at(x, rel, names[vi])),
    ensures
        forall|k: int| 0 <= k < vs.len() ==> relation_phase_entry(#[trigger] vs[k], side, rel, names.take(vi + 1)),
        distinct_violations(vs.push(x)),
        forall|k: int|
            0 <= k < vs.push(x).len() ==> relation_phase_entry(#[trigger] vs.push(x)[k], side, rel, names.take(vi + 1)),
{
    assert forall|v: Seq<char>| names.take(vi).contains(v) implies names.take(vi + 1).contains(v) by {
        let j = choose|j: int| 0 <= j < vi && names.take(vi)[j] == v;
        assert(names.take(vi + 1)[j] == v);
    }
    assert(names.take(vi + 1)[vi] == names[vi]);
    assert(!names.take(vi).contains(names[vi])) by {
        if names.take(vi).contains(names[vi]) {
            let j = choose|j: int| 0 <= j < vi && names.take(vi)[j] == names[vi];
            assert(names[j] == names[vi]);
        }
    }
    let ws = vs.push(x);
    assert forall|j: int, k: int| #![trigger ws[j], ws[k]] 0 <= j < k < ws.len() implies !same_violation(ws[j], ws[k]) by {
        if k == vs.len() {
            assert(ws[j] == vs[j]);
            assert(relation_phase_entry(vs[j], side, rel, names.take(vi)));
        } else {
            assert(ws[j] == vs[j] && ws[k] == vs[k]);
        }
    }
    assert forall|k: int| 0 <= k < ws.len() implies relation_phase_entry(#[trigger] ws[k], side, rel, names.take(vi + 1)) by {
        if k < vs.len() {
            assert(ws[k] == vs[k]);
            assert(relation_phase_entry(vs[k], side, rel, names.take(vi)));
        }
    }
}

/// Checking one more right arrow keeps the entries of the commutativity
/// phase valid, and a violation reported for it is new.
proof fn lemma_commute_phase_step(
    vs: Seq<BimoduleAxiomViolation<String, String>>,
    done: Seq<Seq<char>>,
    alpha: Seq<char>,
    names: Seq<Seq<char>>,
    bi: int,
    x: BimoduleAxiomViolation<String, String>,
)
    requires
        distinct_violations(vs),
        0 <= bi < names.len(),
        names.no_duplicates(),
        !done.contains(alpha),
        forall|k: int| 0 <= k < vs.len() ==> commute_phase_entry(#[trigger] vs[k], done, alpha, names.take(bi)),
        is_commute_at(x, alpha, names[bi]),
    ensures
        forall|k: int| 0 <= k < vs.len() ==> commute_phase_entry(#[trigger] vs[k], done, alpha, names.take(bi + 1)),
        distinct_violations(vs.push(x)),
        forall|k: int|
            0 <= k < vs.push(x).len() ==> commute_phase_entry(#[trigger] vs.push(x)[k], done, alpha, names.take(bi + 1)),
{
    assert forall|v: Seq<char>| names.take(bi).contains(v) implies names.take(bi + 1).contains(v) by {
        let j = choose|j: int| 0 <= j < bi && names.take(bi)[j] == v;
        assert(names.take(bi + 1)[j] == v);
    }
    assert(names.take(bi + 1)[bi] == names[bi]);
    assert(!names.take(bi).contains(names[bi])) by {
        if names.take(bi).contains(names[bi]) {
            let j = choose|j: int| 0 <= j < bi && names.take(bi)[j] == names[bi];
            assert(names[j] == names[bi]);
        }
    }
    let ws = vs.push(x);
    assert forall|j: int, k: int| #![trigger ws[j], ws[k]] 0 <= j < k < ws.len() implies !same_violation(ws[j], ws[k]) by {
        if k == vs.len() {
            assert(ws[j] == vs[j]);
            assert(commute_phase_entry(vs[j], done, alpha, names.take(bi)));
        } else {
            assert(ws[j] == vs[j] && ws[k] == vs[k]);
        }
    }
    assert forall|k: int| 0 <= k < ws.len() implies commute_phase_entry(#[trigger] ws[k], done, alpha, names.take(bi + 1)) by {
        if k < vs.len() {
            assert(ws[k] == vs[k]);
            assert(commute_phase_entry(vs[k], done, alpha, names.take(bi)));
        }
    }
}

/// The violation `v` names a relation, vertices or arrows of `a`.
pub open spec fn violation_in<Coeffs: Field + Copy, const OP_ALG: bool>(
    a: QuiverWithRelations<Coeffs, OP_ALG>,
    v: BimoduleAxiomViolation<String, String>,
) -> bool {
    match v {
        BimoduleAxiomViolation::LeftRelationFails { relation_index, right_vertex } => relation_index
            < a.rels().len() && a.spec_quiver().has_vertex(right_vertex@),
        BimoduleAxiomViolation::RightRelationFails { relation_index, left_vertex } => relation_index
            < a.rels().len() && a.spec_quiver().has_vertex(left_vertex@),
        BimoduleAxiomViolation::CommutativityFails { left_arrow, right_arrow } => a.spec_quiver().has_arrow(left_arrow@)
            && a.spec_quiver().has_arrow(right_arrow@),
    }
}




} // verus!

//! Laws of the library: properties that relate several operations or hold
//! of every value, stated over the same spec functions as the operations'
//! contracts and proved here.
use crate::hochschild::lemma_dedup_subset;
use crate::homological_degree::adjoint_degree;
use crate::checked_arith::Ring;
use crate::path_algebra::{add_term, add_terms, all_products, has_key, key_index, keys_distinct, row_products, valid_basis};
use crate::quiver::{BasisView, Quiver};
use crate::quiver_with_mon_rels::{
    dedup_first, has_shorter_block, lemma_filter_no_dup, minimal_antichain_spec, minimal_pred, spec_algebra_product,
    zero_word,
};
use crate::toric_ideal::{
    Binomial, divides_exps, reduce_within, reduced, reduction_ends, reduction_pass, spec_smaller_larger,
};
use crate::utils::{is_subword, occurs_at};
use vstd::prelude::*;
use vstd::std_specs::ops::{AddSpec, MulSpec};

verus! {

/// The product of an optional first factor with `c` (zero stays zero).
pub open spec fn then_multiply(q: Quiver, x: Option<BasisView>, c: BasisView) -> Option<BasisView> {
    match x {
        Some(a) => q.spec_multiply_op(a, c),
        None => None,
    }
}

/// The product of `a` with an optional second factor (zero stays zero).
pub open spec fn multiply_then(q: Quiver, a: BasisView, y: Option<BasisView>) -> Option<BasisView> {
    match y {
        Some(b) => q.spec_multiply_op(a, b),
        None => None,
    }
}

/// The product in `kQ` of `l` and `r` is the product in `kQ^op` of `r` and `l`:
/// the two conventions of `multiply_basis` are mirror images.
pub proof fn law_regular_is_opposite(q: Quiver, l: BasisView, r: BasisView)
    ensures
        q.spec_multiply(false, l, r) == q.spec_multiply(true, r, l),
{
}

/// The product of two terms (zero where the basis elements do not compose),
/// as a list of at most one term.
pub open spec fn term_product<C: Ring>(q: Quiver, op: bool, x: (BasisView, C), y: (BasisView, C)) -> Seq<
    (BasisView, C),
> {
    match q.spec_multiply(op, x.0, y.0) {
        Some(k) => seq![(k, x.1.mul_spec(y.1))],
        None => Seq::empty(),
    }
}

/// The products of each term of `b`, in order, with the term `t` on its right.
pub open spec fn column_products<C: Ring>(q: Quiver, op: bool, b: Seq<(BasisView, C)>, t: (BasisView, C)) -> Seq<
    (BasisView, C),
>
    decreases b.len(),
{
    if b.len() == 0 {
        Seq::empty()
    } else {
        column_products(q, op, b.drop_last(), t) + term_product(q, op, b.last(), t)
    }
}

/// Multiplication of the coefficients is commutative.
pub open spec fn coeffs_commute<C: Ring>() -> bool {
    forall|x: C, y: C| #[trigger] x.mul_spec(y) == y.mul_spec(x)
}

/// With commuting coefficients, the products in `kQ^op` of `t` with each term
/// of `b` are the products in `kQ` of each term of `b` with `t`.
proof fn lemma_row_is_column<C: Ring>(q: Quiver, t: (BasisView, C), b: Seq<(BasisView, C)>)
    requires
        coeffs_commute::<C>(),
    ensures
        row_products(q, true, t, b) == column_products(q, false, b, t),
    decreases b.len(),
{
    if b.len() > 0 {
        lemma_row_is_column(q, t, b.drop_last());
        let y = b.last();
        law_regular_is_opposite(q, y.0, t.0);
        assert(t.1.mul_spec(y.1) == y.1.mul_spec(t.1));
        assert(term_product(q, true, t, y) == term_product(q, false, y, t));
    }
}

/// Products with no second factor are none.
proof fn lemma_products_with_nothing<C: Ring>(q: Quiver, op: bool, b: Seq<(BasisView, C)>)
    ensures
        all_products(q, op, b, Seq::<(BasisView, C)>::empty()) == Seq::<(BasisView, C)>::empty(),
    decreases b.len(),
{
    if b.len() > 0 {
        lemma_products_with_nothing(q, op, b.drop_last());
        assert(row_products(q, op, b.last(), Seq::<(BasisView, C)>::empty()) == Seq::<(BasisView, C)>::empty());
        assert(Seq::<(BasisView, C)>::empty() + Seq::<(BasisView, C)>::empty() =~= Seq::<(BasisView, C)>::empty());
    }
}

/// Taking the last term of the second factor out of all the products leaves
/// its column of products.
proof fn lemma_products_last_column<C: Ring>(q: Quiver, op: bool, b: Seq<(BasisView, C)>, a: Seq<(BasisView, C)>)
    requires
        a.len() > 0,
    ensures
        all_products(q, op, b, a).to_multiset() =~= all_products(q, op, b, a.drop_last()).to_multiset().add(
            column_products(q, op, b, a.last()).to_multiset(),
        ),
    decreases b.len(),
{
    broadcast use vstd::multiset::group_multiset_axioms;
    broadcast use vstd::seq_lib::lemma_multiset_commutative;

    if b.len() == 0 {
        assert(all_products(q, op, b, a) == Seq::<(BasisView, C)>::empty());
        assert(Seq::<(BasisView, C)>::empty().to_multiset() =~= vstd::multiset::Multiset::<(BasisView, C)>::empty()) by {
            broadcast use vstd::seq_lib::group_to_multiset_ensures;
        }
    } else {
        lemma_products_last_column(q, op, b.drop_last(), a);
        let bl = b.last();
        let ap_b1_a = all_products(q, op, b.drop_last(), a);
        let ap_b1_a1 = all_products(q, op, b.drop_last(), a.drop_last());
        let rp_a = row_products(q, op, bl, a);
        let rp_a1 = row_products(q, op, bl, a.drop_last());
        let cell = term_product(q, op, bl, a.last());
        let col1 = column_products(q, op, b.drop_last(), a.last());
        assert(rp_a == rp_a1 + cell);
        assert(all_products(q, op, b, a) == ap_b1_a + rp_a);
        assert(all_products(q, op, b, a.drop_last()) == ap_b1_a1 + rp_a1);
        assert(column_products(q, op, b, a.last()) == col1 + cell);
        assert(all_products(q, op, b, a).to_multiset() =~= ap_b1_a1.to_multiset().add(col1.to_multiset()).add(
            rp_a1.to_multiset().add(cell.to_multiset()),
        ));
    }
}

/// Where the coefficients commute, the terms that the product `a b` in
/// `kQ^op` sums (`mul_assign` with `OP_ALG`) are, counted with multiplicity,
/// the terms that the product `b a` in `kQ` sums.
pub proof fn law_opposite_product<C: Ring>(q: Quiver, a: Seq<(BasisView, C)>, b: Seq<(BasisView, C)>)
    requires
        coeffs_commute::<C>(),
    ensures
        all_products(q, true, a, b).to_multiset() =~= all_products(q, false, b, a).to_multiset(),
    decreases a.len(),
{
    broadcast use vstd::multiset::group_multiset_axioms;
    broadcast use vstd::seq_lib::lemma_multiset_commutative;

    if a.len() == 0 {
        lemma_products_with_nothing(q, false, b);
        assert(a =~= Seq::<(BasisView, C)>::empty());
        assert(all_products(q, true, a, b) == Seq::<(BasisView, C)>::empty());
        assert(all_products(q, false, b, a) == Seq::<(BasisView, C)>::empty());
    } else {
        law_opposite_product(q, a.drop_last(), b);
        lemma_row_is_column(q, a.last(), b);
        lemma_products_last_column(q, false, b, a);
        let first = all_products(q, true, a.drop_last(), b);
        let row = row_products(q, true, a.last(), b);
        assert(all_products(q, true, a, b) == first + row);
        assert((first + row).to_multiset() =~= first.to_multiset().add(row.to_multiset()));
        assert(row == column_products(q, false, b, a.last()));
    }
}

/// Addition of the coefficients is commutative and associative.
pub open spec fn adds_commute<C: Ring>() -> bool {
    &&& forall|x: C, y: C| #[trigger] x.add_spec(y) == y.add_spec(x)
    &&& forall|x: C, y: C, z: C| #[trigger] x.add_spec(y).add_spec(z) == x.add_spec(y.add_spec(z))
}

/// The running coefficient `o` of `k` after the term `x`.
pub open spec fn combine_coeff<C: Ring>(o: Option<C>, x: (BasisView, C), k: BasisView) -> Option<C> {
    if x.0 == k {
        match o {
            None => Some(x.1),
            Some(c) => Some(c.add_spec(x.1)),
        }
    } else {
        o
    }
}

/// The sum, from the left, of the coefficients of the terms of `s` with basis
/// element `k`; nothing where there is no such term.
pub open spec fn coefficient_of<C: Ring>(s: Seq<(BasisView, C)>, k: BasisView) -> Option<C>
    decreases s.len(),
{
    if s.len() == 0 {
        None
    } else {
        combine_coeff(coefficient_of(s.drop_last(), k), s.last(), k)
    }
}

/// The two linear combinations have the same basis elements with the same
/// coefficients, whatever their order.
pub open spec fn same_combination<C>(s: Seq<(BasisView, C)>, t: Seq<(BasisView, C)>) -> bool {
    forall|k: BasisView|
        #![trigger has_key(s, k)]
        #![trigger has_key(t, k)]
        (has_key(s, k) <==> has_key(t, k)) && (has_key(s, k) ==> s[key_index(s, k)].1 == t[key_index(t, k)].1)
}

proof fn lemma_combine_swap<C: Ring>(o: Option<C>, x: (BasisView, C), y: (BasisView, C), k: BasisView)
    requires
        adds_commute::<C>(),
    ensures
        combine_coeff(combine_coeff(o, x, k), y, k) == combine_coeff(combine_coeff(o, y, k), x, k),
{
    if x.0 == k && y.0 == k {
        match o {
            None => {
                assert(x.1.add_spec(y.1) == y.1.add_spec(x.1));
            },
            Some(c) => {
                assert(c.add_spec(x.1).add_spec(y.1) == c.add_spec(x.1.add_spec(y.1)));
                assert(c.add_spec(y.1).add_spec(x.1) == c.add_spec(y.1.add_spec(x.1)));
                assert(x.1.add_spec(y.1) == y.1.add_spec(x.1));
            },
        }
    }
}

proof fn lemma_coefficient_remove<C: Ring>(s: Seq<(BasisView, C)>, i: int, k: BasisView)
    requires
        adds_commute::<C>(),
        0 <= i < s.len(),
    ensures
        coefficient_of(s, k) == combine_coeff(coefficient_of(s.remove(i), k), s[i], k),
    decreases s.len(),
{
    if i == s.len() - 1 {
        assert(s.remove(i) =~= s.drop_last());
    } else {
        let s1 = s.drop_last();
        lemma_coefficient_remove(s1, i, k);
        assert(s.remove(i).drop_last() =~= s1.remove(i));
        assert(s.remove(i).last() == s.last());
        lemma_combine_swap(coefficient_of(s1.remove(i), k), s[i], s.last(), k);
    }
}

proof fn lemma_coefficient_permutation<C: Ring>(s: Seq<(BasisView, C)>, t: Seq<(BasisView, C)>, k: BasisView)
    requires
        adds_commute::<C>(),
        s.to_multiset() =~= t.to_multiset(),
    ensures
        coefficient_of(s, k) == coefficient_of(t, k),
    decreases s.len(),
{
    broadcast use vstd::seq_lib::group_to_multiset_ensures;
    broadcast use vstd::multiset::group_multiset_axioms;

    if s.len() == 0 {
        vstd::seq_lib::to_multiset_len(s);
        vstd::seq_lib::to_multiset_len(t);
        assert(t.len() == 0);
    } else {
        let x = s.last();
        assert(s =~= s.drop_last().push(x));
        assert(s.to_multiset().count(x) > 0);
        assert(t.contains(x));
        let i = choose|i: int| 0 <= i < t.len() && t[i] == x;
        vstd::seq_lib::to_multiset_remove(t, i);
        assert(s.drop_last().to_multiset() =~= s.to_multiset().remove(x));
        lemma_coefficient_permutation(s.drop_last(), t.remove(i), k);
        lemma_coefficient_remove(t, i, k);
    }
}

/// Every position holding `k` in a list without repeated basis elements is
/// the one `key_index` picks.
proof fn lemma_key_index_unique<C>(s: Seq<(BasisView, C)>, k: BasisView, j: int)
    requires
        keys_distinct(s),
        0 <= j < s.len(),
        s[j].0 == k,
    ensures
        has_key(s, k),
        key_index(s, k) == j,
{
    assert(has_key(s, k));
    let i = key_index(s, k);
    if i != j {
        if i < j {
            assert(s[i].0 != s[j].0);
        } else {
            assert(s[j].0 != s[i].0);
        }
    }
}

/// Adding the terms of `s` one after another to nothing gives each basis
/// element once, with the sum of its coefficients in `s`.
proof fn lemma_add_terms_coefficients<C: Ring>(s: Seq<(BasisView, C)>)
    ensures
        keys_distinct(add_terms(Seq::empty(), s, false)),
        forall|k: BasisView|
            #![trigger has_key(add_terms(Seq::empty(), s, false), k)]
            (has_key(add_terms(Seq::empty(), s, false), k) <==> coefficient_of(s, k) is Some) && (has_key(
                add_terms(Seq::empty(), s, false),
                k,
            ) ==> coefficient_of(s, k) == Some(
                add_terms(Seq::empty(), s, false)[key_index(add_terms(Seq::empty(), s, false), k)].1,
            )),
    decreases s.len(),
{
    if s.len() > 0 {
        lemma_add_terms_coefficients(s.drop_last());
        let r = add_terms(Seq::<(BasisView, C)>::empty(), s.drop_last(), false);
        let x = s.last();
        let r2 = add_terms(Seq::<(BasisView, C)>::empty(), s, false);
        assert(r2 == add_term(r, x.0, x.1, false));
        if has_key(r, x.0) {
            let i = key_index(r, x.0);
            assert(r2 == r.update(i, (x.0, r[i].1.add_spec(x.1))));
            assert forall|a: int, b: int| 0 <= a < b < r2.len() implies #[trigger] r2[a].0 != #[trigger] r2[b].0 by {
                assert(r2[a].0 == r[a].0 && r2[b].0 == r[b].0);
            }
            assert forall|k: BasisView| #[trigger] has_key(r2, k) implies (has_key(r2, k) <==> coefficient_of(s, k) is Some)
                && coefficient_of(s, k) == Some(r2[key_index(r2, k)].1) by {
                let j = key_index(r2, k);
                lemma_key_index_unique(r2, k, j);
                assert(r[j].0 == k);
                lemma_key_index_unique(r, k, j);
            }
            assert forall|k: BasisView| coefficient_of(s, k) is Some implies #[trigger] has_key(r2, k) by {
                if k == x.0 {
                    assert(r2[i].0 == k);
                } else {
                    assert(has_key(r, k));
                    let j = key_index(r, k);
                    assert(r2[j].0 == k);
                }
            }
        } else {
            assert(r2 == r.push((x.0, x.1)));
            assert forall|a: int, b: int| 0 <= a < b < r2.len() implies #[trigger] r2[a].0 != #[trigger] r2[b].0 by {
                if b == r.len() {
                    assert(r2[a].0 == r[a].0);
                    if r[a].0 == x.0 {
                        assert(has_key(r, x.0));
                    }
                } else {
                    assert(r2[a].0 == r[a].0 && r2[b].0 == r[b].0);
                }
            }
            assert forall|k: BasisView| #[trigger] has_key(r2, k) implies (has_key(r2, k) <==> coefficient_of(s, k) is Some)
                && coefficient_of(s, k) == Some(r2[key_index(r2, k)].1) by {
                let j = key_index(r2, k);
                lemma_key_index_unique(r2, k, j);
                if j < r.len() {
                    assert(r[j].0 == k);
                    lemma_key_index_unique(r, k, j);
                    assert(k != x.0);
                } else {
                    assert(k == x.0);
                    assert(coefficient_of(s.drop_last(), k) is None);
                }
            }
            assert forall|k: BasisView| coefficient_of(s, k) is Some implies #[trigger] has_key(r2, k) by {
                if k == x.0 {
                    assert(r2[r.len() as int].0 == k);
                } else {
                    assert(has_key(r, k));
                    let j = key_index(r, k);
                    assert(r2[j].0 == k);
                }
            }
        }
    }
}

/// Multiplication in `kQ^op` is multiplication in `kQ` with the factors
/// swapped: where the coefficients commute and their addition is
/// commutative and associative, the product `a b` in `kQ^op` and the product
/// `b a` in `kQ` (as `mul_assign` computes them) have the same basis
/// elements with the same coefficients.
pub proof fn law_opposite_product_same_element<C: Ring>(q: Quiver, a: Seq<(BasisView, C)>, b: Seq<(BasisView, C)>)
    requires
        coeffs_commute::<C>(),
        adds_commute::<C>(),
    ensures
        same_combination(
            add_terms(Seq::empty(), all_products(q, true, a, b), false),
            add_terms(Seq::empty(), all_products(q, false, b, a), false),
        ),
{
    let s1 = all_products(q, true, a, b);
    let s2 = all_products(q, false, b, a);
    law_opposite_product(q, a, b);
    lemma_add_terms_coefficients(s1);
    lemma_add_terms_coefficients(s2);
    let r1 = add_terms(Seq::<(BasisView, C)>::empty(), s1, false);
    let r2 = add_terms(Seq::<(BasisView, C)>::empty(), s2, false);
    assert forall|k: BasisView| (has_key(r1, k) <==> has_key(r2, k)) && (has_key(r1, k) ==> r1[key_index(r1, k)].1
        == r2[key_index(r2, k)].1) by {
        lemma_coefficient_permutation(s1, s2, k);
        if has_key(r1, k) {
            assert(coefficient_of(s1, k) is Some);
        }
        if has_key(r2, k) {
            assert(coefficient_of(s2, k) is Some);
        }
    }
}

/// In a well-formed quiver distinct vertices have distinct nodes.
proof fn lemma_node_of_injective(q: Quiver, v: Seq<char>, w: Seq<char>)
    requires
        q.wf(),
        q.has_vertex(v),
        q.has_vertex(w),
        q.node_of(v) == q.node_of(w),
    ensures
        v == w,
{
    assert(q.nodes()[q.vertex_index()[v] as nat] == v);
    assert(q.nodes()[q.vertex_index()[w] as nat] == w);
}

/// Multiplication of basis elements of the path algebra `kQ^op` is
/// associative: `(a b) c = a (b c)`, where a zero product stays zero.
pub proof fn law_basis_product_associative(q: Quiver, a: BasisView, b: BasisView, c: BasisView)
    requires
        q.wf(),
        valid_basis(q, a),
        valid_basis(q, b),
        valid_basis(q, c),
    ensures
        then_multiply(q, q.spec_multiply_op(a, b), c) == multiply_then(q, a, q.spec_multiply_op(b, c)),
{
    if !a.0 && !b.0 && !c.0 {
        assert((a.1 + b.1).last() == b.1.last());
        assert((b.1 + c.1)[0] == b.1[0]);
        assert(a.1 + b.1 + c.1 =~= a.1 + (b.1 + c.1));
    } else if !a.0 && !b.0 && c.0 {
        assert((a.1 + b.1).last() == b.1.last());
    } else if !a.0 && b.0 && !c.0 {
    } else if !a.0 && b.0 && c.0 {
        if q.spec_multiply_op(a, b) is Some && q.spec_multiply_op(a, c) is Some {
            lemma_node_of_injective(q, b.1[0], c.1[0]);
        }
    } else if a.0 && !b.0 && !c.0 {
        assert((b.1 + c.1)[0] == b.1[0]);
    } else if a.0 && !b.0 && c.0 {
    } else if a.0 && b.0 && !c.0 {
        if q.spec_multiply_op(b, c) is Some && q.spec_multiply_op(a, c) is Some {
            lemma_node_of_injective(q, a.1[0], b.1[0]);
        }
    } else {
    }
}

/// Multiplication of basis elements of `kQ` is associative too.
pub proof fn law_basis_product_associative_regular(q: Quiver, a: BasisView, b: BasisView, c: BasisView)
    requires
        q.wf(),
        valid_basis(q, a),
        valid_basis(q, b),
        valid_basis(q, c),
    ensures
        (match q.spec_multiply(false, a, b) {
            Some(ab) => q.spec_multiply(false, ab, c),
            None => None,
        }) == (match q.spec_multiply(false, b, c) {
            Some(bc) => q.spec_multiply(false, a, bc),
            None => None,
        }),
{
    law_basis_product_associative(q, c, b, a);
}

/// A block of a word stays a block when the word is extended on either side.
proof fn lemma_subword_extend(w: Seq<Seq<char>>, u: Seq<Seq<char>>, s: Seq<Seq<char>>)
    requires
        is_subword(w, s),
    ensures
        is_subword(w + u, s),
        is_subword(u + w, s),
{
    let start = choose|start: int| occurs_at(w, s, start);
    assert((w + u).subrange(start, start + s.len()) =~= w.subrange(start, start + s.len()));
    assert(occurs_at(w + u, s, start));
    assert((u + w).subrange(u.len() + start, u.len() + start + s.len()) =~= w.subrange(start, start + s.len()));
    assert(occurs_at(u + w, s, u.len() + start));
}

/// A word that is zero in the algebra stays zero when extended on either side.
proof fn lemma_zero_word_extend(q: Quiver, rels: Seq<Seq<Seq<char>>>, w: Seq<Seq<char>>, u: Seq<Seq<char>>)
    requires
        zero_word(q, rels, w),
    ensures
        zero_word(q, rels, w + u),
        zero_word(q, rels, u + w),
{
    if !q.is_path(w) {
        if exists|k: int| 0 <= k < w.len() && !q.has_arrow(#[trigger] w[k]) {
            let k = choose|k: int| 0 <= k < w.len() && !q.has_arrow(#[trigger] w[k]);
            assert((w + u)[k] == w[k]);
            assert((u + w)[u.len() + k] == w[k]);
        } else {
            let k = choose|k: int| 0 <= k < w.len() - 1 && !#[trigger] q.spec_composable(w[k], w[k + 1]);
            assert((w + u)[k] == w[k] && (w + u)[k + 1] == w[k + 1]);
            assert((u + w)[u.len() + k] == w[k] && (u + w)[u.len() + k + 1] == w[k + 1]);
        }
    } else {
        let k = choose|k: int| 0 <= k < rels.len() && is_subword(w, #[trigger] rels[k]);
        lemma_subword_extend(w, u, rels[k]);
    }
}

/// The product of an optional first factor with `c` in `kQ^op / I`.
pub open spec fn then_multiply_mod(
    q: Quiver,
    rels: Seq<Seq<Seq<char>>>,
    x: Option<BasisView>,
    c: BasisView,
) -> Option<BasisView> {
    match x {
        Some(a) => spec_algebra_product(q, rels, a, c),
        None => None,
    }
}

/// The product of `a` with an optional second factor in `kQ^op / I`.
pub open spec fn multiply_then_mod(
    q: Quiver,
    rels: Seq<Seq<Seq<char>>>,
    a: BasisView,
    y: Option<BasisView>,
) -> Option<BasisView> {
    match y {
        Some(b) => spec_algebra_product(q, rels, a, b),
        None => None,
    }
}

/// Multiplication of basis elements in a monomial quotient `kQ^op / I`
/// (`multiply_basis_elts`) is associative: `(a b) c = a (b c)`, a zero
/// product staying zero.
pub proof fn law_algebra_product_associative(
    q: Quiver,
    rels: Seq<Seq<Seq<char>>>,
    a: BasisView,
    b: BasisView,
    c: BasisView,
)
    requires
        q.wf(),
        valid_basis(q, a),
        valid_basis(q, b),
        valid_basis(q, c),
    ensures
        then_multiply_mod(q, rels, spec_algebra_product(q, rels, a, b), c) == multiply_then_mod(
            q,
            rels,
            a,
            spec_algebra_product(q, rels, b, c),
        ),
{
    law_basis_product_associative(q, a, b, c);
    if !a.0 && !b.0 && !c.0 {
        assert((a.1 + b.1).last() == b.1.last());
        assert((b.1 + c.1)[0] == b.1[0]);
        assert(a.1 + b.1 + c.1 =~= a.1 + (b.1 + c.1));
        if zero_word(q, rels, a.1 + b.1) {
            lemma_zero_word_extend(q, rels, a.1 + b.1, c.1);
        }
        if zero_word(q, rels, b.1 + c.1) {
            lemma_zero_word_extend(q, rels, b.1 + c.1, a.1);
        }
    } else if !a.0 && !b.0 && c.0 {
        assert((a.1 + b.1).last() == b.1.last());
    } else if !a.0 && b.0 && c.0 {
        if q.spec_multiply_op(a, b) is Some && q.spec_multiply_op(a, c) is Some {
            lemma_node_of_injective(q, b.1[0], c.1[0]);
        }
    } else if a.0 && !b.0 && !c.0 {
        assert((b.1 + c.1)[0] == b.1[0]);
    } else if a.0 && b.0 && !c.0 {
        if q.spec_multiply_op(b, c) is Some && q.spec_multiply_op(a, c) is Some {
            lemma_node_of_injective(q, a.1[0], b.1[0]);
        }
    }
}

/// The adjoint of an arrow of degree `z` has degree `-z - 1`, so that the
/// two degrees add up to `-1`; taking the adjoint degree twice gives `z` back.
pub proof fn law_adjoint_degree(z: i64)
    requires
        z != i64::MIN,
    ensures
        adjoint_degree(Some(z)) matches Some(w) && z + w == -1,
        adjoint_degree(adjoint_degree(Some(z))) == Some(z),
{
}


/// A block of a block of `w` is a block of `w`.
proof fn lemma_subword_trans(w: Seq<Seq<char>>, s: Seq<Seq<char>>, t: Seq<Seq<char>>)
    requires
        is_subword(w, s),
        is_subword(s, t),
    ensures
        is_subword(w, t),
{
    let i = choose|i: int| occurs_at(w, s, i);
    let j = choose|j: int| occurs_at(s, t, j);
    assert(w.subrange(i + j, i + j + t.len()) =~= s.subrange(j, j + t.len()));
    assert(occurs_at(w, t, i + j));
}

/// A block is no longer than the word, and one of the same length is the word.
proof fn lemma_subword_len(w: Seq<Seq<char>>, s: Seq<Seq<char>>)
    requires
        is_subword(w, s),
    ensures
        s.len() <= w.len(),
        s.len() == w.len() ==> s == w,
{
    let i = choose|i: int| occurs_at(w, s, i);
    if s.len() == w.len() {
        assert(w.subrange(0, w.len() as int) =~= w);
    }
}

/// Every word is a block of itself.
proof fn lemma_subword_refl(w: Seq<Seq<char>>)
    ensures
        is_subword(w, w),
{
    assert(w.subrange(0, w.len() as int) =~= w);
    assert(occurs_at(w, w, 0));
}

/// Removing repetitions keeps every entry.
proof fn lemma_dedup_contains<T>(s: Seq<T>, x: T)
    requires
        s.contains(x),
    ensures
        dedup_first(s).contains(x),
    decreases s.len(),
{
    let d = dedup_first(s.drop_last());
    if s.last() == x {
        if !d.contains(x) {
            assert(dedup_first(s) == d.push(x));
            assert(d.push(x)[d.len() as int] == x);
        }
    } else {
        let k = choose|k: int| 0 <= k < s.len() && s[k] == x;
        assert(s.drop_last()[k] == x);
        lemma_dedup_contains(s.drop_last(), x);
        let j = choose|j: int| 0 <= j < d.len() && d[j] == x;
        if !d.contains(s.last()) {
            assert(d.push(s.last())[j] == x);
        }
    }
}

/// Removing repetitions leaves each entry once.
proof fn lemma_dedup_no_duplicates<T>(s: Seq<T>)
    ensures
        dedup_first(s).no_duplicates(),
    decreases s.len(),
{
    if s.len() > 0 {
        lemma_dedup_no_duplicates(s.drop_last());
        let d = dedup_first(s.drop_last());
        if !d.contains(s.last()) {
            let r = d.push(s.last());
            assert forall|i: int, j: int| 0 <= i < r.len() && 0 <= j < r.len() && i != j implies r[i] != r[j] by {
                if i < d.len() && j < d.len() {
                } else if i == d.len() {
                    assert(r[j] == d[j]);
                } else {
                    assert(r[i] == d[i]);
                }
            }
        }
    }
}

/// The minimal generators are generators.
proof fn lemma_minimal_are_generators(gens: Seq<Seq<Seq<char>>>, m: Seq<Seq<char>>)
    requires
        minimal_antichain_spec(gens).contains(m),
    ensures
        gens.contains(m),
        !has_shorter_block(gens, m),
{
    let d = dedup_first(gens);
    d.lemma_filter_contains_rev(minimal_pred(gens), m);
    lemma_dedup_subset(gens);
    let k = choose|k: int| 0 <= k < d.filter(minimal_pred(gens)).len() && d.filter(minimal_pred(gens))[k] == m;
    d.lemma_filter_pred(minimal_pred(gens), k);
}

/// Every generator has a minimal generator as a block.
proof fn lemma_minimal_below(gens: Seq<Seq<Seq<char>>>, g: Seq<Seq<char>>)
    requires
        gens.contains(g),
    ensures
        exists|m: Seq<Seq<char>>| #[trigger] minimal_antichain_spec(gens).contains(m) && is_subword(g, m),
    decreases g.len(),
{
    if has_shorter_block(gens, g) {
        let j = choose|j: int| 0 <= j < gens.len() && (#[trigger] gens[j]).len() < g.len() && is_subword(g, gens[j]);
        lemma_minimal_below(gens, gens[j]);
        let m = choose|m: Seq<Seq<char>>| #[trigger] minimal_antichain_spec(gens).contains(m) && is_subword(gens[j], m);
        lemma_subword_trans(g, gens[j], m);
        assert(minimal_antichain_spec(gens).contains(m) && is_subword(g, m));
    } else {
        lemma_dedup_contains(gens, g);
        let d = dedup_first(gens);
        let i = choose|i: int| 0 <= i < d.len() && d[i] == g;
        assert(minimal_pred(gens)(d[i]));
        d.lemma_filter_contains(minimal_pred(gens), i);
        assert(d.filter(minimal_pred(gens)) == minimal_antichain_spec(gens));
        lemma_subword_refl(g);
        assert(minimal_antichain_spec(gens).contains(g) && is_subword(g, g));
    }
}

/// Keeping only the minimal generators does not change the ideal: a word
/// is zero modulo the minimal generators exactly when it is zero modulo all
/// the generators given to `QuiverWithMonomialRelations::new`.
pub proof fn law_minimal_generators_same_ideal(q: Quiver, gens: Seq<Seq<Seq<char>>>, w: Seq<Seq<char>>)
    ensures
        zero_word(q, minimal_antichain_spec(gens), w) <==> zero_word(q, gens, w),
{
    let m = minimal_antichain_spec(gens);
    if exists|k: int| 0 <= k < m.len() && is_subword(w, #[trigger] m[k]) {
        let k = choose|k: int| 0 <= k < m.len() && is_subword(w, #[trigger] m[k]);
        assert(m.contains(m[k]));
        lemma_minimal_are_generators(gens, m[k]);
        let j = choose|j: int| 0 <= j < gens.len() && gens[j] == m[k];
        assert(is_subword(w, gens[j]));
    }
    if exists|k: int| 0 <= k < gens.len() && is_subword(w, #[trigger] gens[k]) {
        let k = choose|k: int| 0 <= k < gens.len() && is_subword(w, #[trigger] gens[k]);
        assert(gens.contains(gens[k]));
        lemma_minimal_below(gens, gens[k]);
        let g = choose|g: Seq<Seq<char>>| #[trigger] m.contains(g) && is_subword(gens[k], g);
        lemma_subword_trans(w, gens[k], g);
        let j = choose|j: int| 0 <= j < m.len() && m[j] == g;
        assert(is_subword(w, m[j]));
    }
}

/// The minimal generators form an antichain: none is a block of another.
pub proof fn law_minimal_generators_antichain(gens: Seq<Seq<Seq<char>>>, i: int, j: int)
    requires
        0 <= i < minimal_antichain_spec(gens).len(),
        0 <= j < minimal_antichain_spec(gens).len(),
        i != j,
    ensures
        !is_subword(minimal_antichain_spec(gens)[j], minimal_antichain_spec(gens)[i]),
{
    let m = minimal_antichain_spec(gens);
    lemma_dedup_no_duplicates(gens);
    lemma_filter_no_dup(dedup_first(gens), minimal_pred(gens));
    if is_subword(m[j], m[i]) {
        lemma_subword_len(m[j], m[i]);
        assert(m[i] != m[j]);
        assert(m.contains(m[i]));
        assert(m.contains(m[j]));
        lemma_minimal_are_generators(gens, m[i]);
        lemma_minimal_are_generators(gens, m[j]);
        let k = choose|k: int| 0 <= k < gens.len() && gens[k] == m[i];
        assert(has_shorter_block(gens, m[j]));
    }
}


/// A pass in which no generator applied found no larger side dividing the monomial.
proof fn lemma_pass_none_applied<const N: usize>(gens: Seq<Binomial<N>>, m: Seq<u32>, n: nat)
    requires
        n <= gens.len(),
        !reduction_pass(gens, m, n).1,
    ensures
        forall|k: int| 0 <= k < n ==> !divides_exps(#[trigger] spec_smaller_larger(gens[k]).1.exponents@, m),
    decreases n,
{
    if n > 0 {
        let prev = reduction_pass(gens, m, (n - 1) as nat);
        let sl = spec_smaller_larger(gens[n - 1]);
        assert(!divides_exps(sl.1.exponents@, prev.0));
        lemma_pass_none_applied(gens, m, (n - 1) as nat);
        lemma_pass_keeps(gens, m, (n - 1) as nat);
    }
}

/// A pass in which no generator applied leaves the monomial as it was.
proof fn lemma_pass_keeps<const N: usize>(gens: Seq<Binomial<N>>, m: Seq<u32>, k: nat)
    ensures
        !reduction_pass(gens, m, k).1 ==> reduction_pass(gens, m, k).0 == m,
    decreases k,
{
    if k > 0 {
        lemma_pass_keeps(gens, m, (k - 1) as nat);
    }
}

/// A pass over a monomial that no larger side divides changes nothing.
proof fn lemma_pass_over_normal<const N: usize>(gens: Seq<Binomial<N>>, m: Seq<u32>, n: nat)
    requires
        n <= gens.len(),
        forall|k: int| 0 <= k < n ==> !divides_exps(#[trigger] spec_smaller_larger(gens[k]).1.exponents@, m),
    ensures
        reduction_pass(gens, m, n) == (m, false, true),
    decreases n,
{
    if n > 0 {
        lemma_pass_over_normal(gens, m, (n - 1) as nat);
        assert(!divides_exps(spec_smaller_larger(gens[n - 1]).1.exponents@, m));
    }
}

/// What the reduction returns is divisible by no larger side.
proof fn lemma_reduce_within_normal<const N: usize>(gens: Seq<Binomial<N>>, m: Seq<u32>, fuel: nat)
    requires
        reduce_within(gens, m, fuel) is Some,
    ensures
        forall|k: int|
            0 <= k < gens.len() ==> !divides_exps(
                #[trigger] spec_smaller_larger(gens[k]).1.exponents@,
                reduce_within(gens, m, fuel).unwrap(),
            ),
    decreases fuel,
{
    let p = reduction_pass(gens, m, gens.len());
    if !p.1 {
        lemma_pass_none_applied(gens, m, gens.len());
    } else {
        lemma_reduce_within_normal(gens, p.0, (fuel - 1) as nat);
    }
}

/// The reduced form of a monomial is a normal form: the larger side of no
/// generator divides it.
pub proof fn law_reduced_is_normal<const N: usize>(gens: Seq<Binomial<N>>, m: Seq<u32>, k: int)
    requires
        reduction_ends(gens, m),
        0 <= k < gens.len(),
    ensures
        !divides_exps(spec_smaller_larger(gens[k]).1.exponents@, reduced(gens, m)),
{
    let fuel = choose|fuel: nat| #[trigger] reduce_within(gens, m, fuel) is Some;
    lemma_reduce_within_normal(gens, m, fuel);
}

/// Reducing a reduced monomial changes nothing.
pub proof fn law_reduction_idempotent<const N: usize>(gens: Seq<Binomial<N>>, m: Seq<u32>)
    requires
        reduction_ends(gens, m),
    ensures
        reduction_ends(gens, reduced(gens, m)),
        reduced(gens, reduced(gens, m)) == reduced(gens, m),
{
    let r = reduced(gens, m);
    let fuel = choose|fuel: nat| #[trigger] reduce_within(gens, m, fuel) is Some;
    lemma_reduce_within_normal(gens, m, fuel);
    lemma_pass_over_normal(gens, r, gens.len());
    assert(reduce_within(gens, r, 1) == Some(r));
    assert(reduction_ends(gens, r));
    let f2 = choose|f: nat| #[trigger] reduce_within(gens, r, f) is Some;
    assert(f2 > 0);
}

} // verus!

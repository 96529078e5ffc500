//! A quiver with a generating set of relations of a two-sided ideal: the
//! quotient algebra `kQ^op / I` (or `kQ / I` where `OP_ALG` is false).
use crate::checked_arith::{
    ChainMultiplyable, CheckedAdd, CheckedAddAssign, CheckedMulAssign, Ring, chain_total, ring_ops_total,
};
use crate::path_algebra::{
    PathAlgebra, add_terms, has_key, keys_of, term_ends, derivative_contributions, keys_distinct, loop_vertex_named, obeys_ring_spec, paths_cyclic,
    runs_against, simplified_by, terms_parallel, valid_basis,
};
use crate::quiver::{BasisElt, BasisView, Quiver, fresh_renaming, renames_any};
use crate::quiver_rep::{QuiverRep, exact_matrices, source_label, target_label};
use std::ops::Mul;
use vstd::std_specs::ops::{MulSpec, NegSpec};
use std::sync::Arc;
use vstd::prelude::*;

verus! {

/// A quiver together with relations generating a two-sided ideal `I`; the
/// algebra is `kQ^op / I` (or `kQ / I` where `OP_ALG` is false).
pub struct QuiverWithRelations<Coeffs, const OP_ALG: bool> {
    quiver: Arc<Quiver>,
    relations: Vec<PathAlgebra<Coeffs, OP_ALG>>,
}

/// The terms of each of the elements `rs`.
pub open spec fn relation_terms<Coeffs: Ring + Copy, const OP_ALG: bool>(rs: Seq<PathAlgebra<Coeffs, OP_ALG>>) -> Seq<
    Seq<(BasisView, Coeffs)>,
> {
    rs.map_values(|r: PathAlgebra<Coeffs, OP_ALG>| r.terms())
}

/// The lists of terms with at least one term.
pub open spec fn nonempty_terms<Coeffs>(ts: Seq<Seq<(BasisView, Coeffs)>>) -> Seq<Seq<(BasisView, Coeffs)>> {
    ts.filter(|t: Seq<(BasisView, Coeffs)>| t.len() > 0)
}

/// The cyclic derivatives of the superpotential with terms `w` by each of
/// the arrows `arrows`, in order.
pub open spec fn jacobian_terms<C: Ring>(q: Quiver, w: Seq<(BasisView, C)>, arrows: Seq<Seq<char>>) -> Seq<
    Seq<(BasisView, C)>,
> {
    Seq::new(arrows.len(), |k: int| add_terms(Seq::empty(), derivative_contributions(q, w, arrows[k]), false))
}

/// What `QuiverWithRelations::new` keeps of the relations with terms `ts`:
/// the nonempty ones, after `is_zero` (where given) dropped terms.
pub open spec fn kept_relations<C, F: Fn(&C) -> bool>(
    is_zero: Option<F>,
    ts: Seq<Seq<(BasisView, C)>>,
    out: Seq<Seq<(BasisView, C)>>,
) -> bool {
    match is_zero {
        None => out == nonempty_terms(ts),
        Some(f) => exists|simp: Seq<Seq<(BasisView, C)>>|
            #![trigger nonempty_terms(simp)]
            simp.len() == ts.len() && (forall|i: int| 0 <= i < ts.len() ==> simplified_by(f, #[trigger] ts[i], simp[i]))
                && out == nonempty_terms(simp),
    }
}

/// Every arrow of `q` leaves and enters the nodes its end labels name.
pub open spec fn ends_named(q: Quiver) -> bool {
    forall|a: Seq<char>|
        #[trigger] q.has_arrow(a) ==> q.node_of(source_label(q, a)) == q.source_node(a) && q.node_of(
            target_label(q, a),
        ) == q.target_node(a)
}

/// `d` is `q` doubled by `dagger` with the adjoint pairs `pairs`: the same
/// vertices, each arrow `a` of `q` (listed once in `pairs`) kept, and a
/// reverse arrow `a* = dagger(a)` added.
pub open spec fn doubled_by<F: Fn(&String) -> String>(q: Quiver, dagger: F, pairs: Seq<(String, String)>, d: Quiver) -> bool {
    &&& d.wf()
    &&& d.nodes() == q.nodes()
    &&& d.vertex_index() == q.vertex_index()
    &&& pairs.len() == q.arrow_index().len()
    &&& forall|j: int, k: int| 0 <= j < k < pairs.len() ==> pairs[j].0@ != pairs[k].0@
    &&& forall|a: Seq<char>| #[trigger] q.has_arrow(a) <==> exists|k: int| 0 <= k < pairs.len() && pairs[k].0@ == a
    &&& forall|k: int| 0 <= k < pairs.len() ==> call_ensures(dagger, (&pairs[k].0,), #[trigger] pairs[k].1)
    &&& forall|x: Seq<char>|
        #[trigger] d.has_arrow(x) <==> q.has_arrow(x) || exists|k: int| 0 <= k < pairs.len() && pairs[k].1@ == x
    &&& forall|a: Seq<char>|
        #[trigger] q.has_arrow(a) ==> d.source_node(a) == q.source_node(a) && d.target_node(a) == q.target_node(a)
    &&& forall|k: int|
        0 <= k < pairs.len() ==> d.source_node(#[trigger] pairs[k].1@) == q.target_node(pairs[k].0@)
            && d.target_node(pairs[k].1@) == q.source_node(pairs[k].0@)
}

/// The vertices the first `n` arrows of `pairs` touch, in the order they are
/// first met (for each arrow its source, then its target).
pub open spec fn touched_order(q: Quiver, pairs: Seq<(String, String)>, n: int) -> Seq<Seq<char>>
    decreases n,
{
    if n <= 0 {
        Seq::empty()
    } else {
        let prev = touched_order(q, pairs, n - 1);
        let s = source_label(q, pairs[n - 1].0@);
        let t = target_label(q, pairs[n - 1].0@);
        let p1 = if prev.contains(s) {
            prev
        } else {
            prev.push(s)
        };
        if p1.contains(t) {
            p1
        } else {
            p1.push(t)
        }
    }
}

/// The terms of the preprojective relation at the vertex `v` from the first
/// `n` adjoint pairs: `a a*` with coefficient `one` for each arrow `a`
/// leaving `v`, and `a* a` with coefficient `-one` for each arrow `a` entering `v`.
pub open spec fn preprojective_terms<C: Ring>(
    q: Quiver,
    pairs: Seq<(String, String)>,
    one: C,
    v: Seq<char>,
    n: int,
) -> Set<(BasisView, C)> {
    Set::new(
        |t: (BasisView, C)|
            exists|k: int|
                0 <= k < n && ((source_label(q, pairs[k].0@) == v && t == ((false, seq![pairs[k].0@, pairs[k].1@]), one))
                    || (target_label(q, pairs[k].0@) == v && t == (
                    (false, seq![pairs[k].1@, pairs[k].0@]),
                    one.neg_spec(),
                ))),
    )
}

/// The relations are the preprojective relations of the vertices the arrows
/// touch, in the order they are first met; their terms are exact where the
/// ring operations follow their specifications.
pub open spec fn preprojective_relations<C: Ring>(
    q: Quiver,
    pairs: Seq<(String, String)>,
    one: C,
    rels: Seq<Seq<(BasisView, C)>>,
) -> bool {
    let order = touched_order(q, pairs, pairs.len() as int);
    &&& rels.len() == order.len()
    &&& obeys_ring_spec::<C>() ==> forall|i: int|
        0 <= i < rels.len() ==> (#[trigger] rels[i]).to_set() == preprojective_terms(q, pairs, one, order[i], pairs.len() as int)
}

impl Quiver {
    /// The preprojective algebra of the quiver: the quiver doubled by `dagger`
    /// (an arrow `a* = dagger(a): t(a) -> s(a)` for each arrow `a`), with at
    /// each vertex `v` the relation
    /// `sum over a leaving v of a a*  -  sum over a entering v of a* a`.
    /// Returns the doubled quiver and the quotient.
    #[verifier::rlimit(100)]
    pub fn preprojective_algebra<Coeffs: Ring + Copy, const OP_ALG: bool, F: Fn(&String) -> String>(
        self,
        dagger: F,
        one_coeffs: &Coeffs,
    ) -> (r: (Arc<Quiver>, QuiverWithRelations<Coeffs, OP_ALG>))
        requires
            self.wf(),
            renames_any(dagger),
            self.room_for_arrows(self.arrow_index().len()),
            fresh_renaming(self, dagger),
            ends_named(self),
            ring_ops_total::<Coeffs>(),
        ensures
            r.1.wf(),
            r.1.spec_quiver() == *r.0,
            exists|pairs: Seq<(String, String)>|
                #![trigger doubled_by(self, dagger, pairs, *r.0)]
                doubled_by(self, dagger, pairs, *r.0) && preprojective_relations(self, pairs, *one_coeffs, r.1.rels()),
    {
        let ghost q = self;
        let (doubled, adjoint_pairs) = self.double(dagger);
        let ghost d = doubled;
        let ghost pairs = adjoint_pairs@;
        let one = *one_coeffs;
        proof {
            assert forall|a: Seq<char>|
                #[trigger] q.has_arrow(a) implies d.source_node(a) == q.source_node(a) && d.target_node(a) == q.target_node(a) by {
                assert(q.edges().contains_key(q.arrow_index()[a] as nat));
            }
            assert forall|k: int|
                0 <= k < pairs.len() implies d.source_node(#[trigger] pairs[k].1@) == q.target_node(pairs[k].0@)
                    && d.target_node(pairs[k].1@) == q.source_node(pairs[k].0@) by {
                assert(q.has_arrow(pairs[k].0@));
            }
            assert(doubled_by(q, dagger, pairs, d));
        }
        let doubled_arc = Arc::new(doubled);
        let mut keys: Vec<String> = Vec::new();
        let mut vals: Vec<PathAlgebra<Coeffs, OP_ALG>> = Vec::new();
        let mut k: usize = 0;
        proof {
            assert(keys@.map_values(|x: String| x@) =~= touched_order(q, pairs, 0));
        }
        while k < adjoint_pairs.len()
            invariant
                *doubled_arc == d,
                doubled_by(q, dagger, pairs, d),
                q.wf(),
                ends_named(q),
                fresh_renaming(q, dagger),
                ring_ops_total::<Coeffs>(),
                pairs == adjoint_pairs@,
                one == *one_coeffs,
                k <= pairs.len(),
                keys@.len() == vals@.len(),
                keys@.map_values(|x: String| x@) == touched_order(q, pairs, k as int),
                entries_ok(d, keys@, vals@),
                obeys_ring_spec::<Coeffs>() ==> forall|i: int|
                    0 <= i < vals@.len() ==> (#[trigger] vals@[i]).terms().to_set() == preprojective_terms(
                        q,
                        pairs,
                        one,
                        keys@[i]@,
                        k as int,
                    ),
            decreases pairs.len() - k,
        {
            let a = &adjoint_pairs[k].0;
            let a_star = &adjoint_pairs[k].1;
            proof {
                assert(q.has_arrow(a@));
                assert(d.has_arrow(a_star@));
                lemma_touched_distinct(q, pairs, k as int);
            }
            let (src, tgt) = match doubled_arc.edge_endpoint_labels(a) {
                Some(p) => p,
                None => {
                    return vstd::pervasive::unreached();
                },
            };
            let aa_star_word = vec![a.clone(), a_star.clone()];
            let a_star_a_word = vec![a_star.clone(), a.clone()];
            let ghost aa_key: BasisView = (false, seq![a@, a_star@]);
            let ghost asa_key: BasisView = (false, seq![a_star@, a@]);
            let ghost neg_one = one.neg_spec();
            proof {
                assert(aa_star_word.deep_view() =~= seq![a@, a_star@]);
                assert(a_star_a_word.deep_view() =~= seq![a_star@, a@]);
                assert(src@ == source_label(q, a@) && tgt@ == target_label(q, a@));
                assert(d.spec_composable(a@, a_star@));
                assert(d.spec_composable(a_star@, a@));
                assert(seq![a@, a_star@].last() == a_star@);
                assert(seq![a_star@, a@].last() == a@);
                assert(term_ends(d, aa_key) == (d.node_of(src@), d.node_of(src@)));
                assert(term_ends(d, asa_key) == (d.node_of(tgt@), d.node_of(tgt@)));
                assert(aa_key != asa_key) by {
                    if aa_key == asa_key {
                        assert(aa_key.1[0] == asa_key.1[0]);
                    }
                }
            }
            let aa_basis = match BasisElt::create(aa_star_word.as_slice()) {
                Some(b) => b,
                None => {
                    return vstd::pervasive::unreached();
                },
            };
            let asa_basis = match BasisElt::create(a_star_a_word.as_slice()) {
                Some(b) => b,
                None => {
                    return vstd::pervasive::unreached();
                },
            };
            let aa_star = PathAlgebra::singleton(doubled_arc.clone(), aa_basis, one);
            let a_star_a = PathAlgebra::singleton(doubled_arc.clone(), asa_basis, one);
            let ghost keys0 = keys@;
            let ghost vals0 = vals@;
            let ghost base0 = |v: Seq<char>| preprojective_terms(q, pairs, one, v, k as int);
            proof {
                if !keys0.map_values(|x: String| x@).contains(src@) {
                    lemma_untouched_empty(q, pairs, one, k as int, src@);
                }
                if !keys0.map_values(|x: String| x@).contains(tgt@) {
                    lemma_untouched_empty(q, pairs, one, k as int, tgt@);
                }
                if obeys_ring_spec::<Coeffs>() {
                    assert forall|i: int| 0 <= i < vals0.len() implies !has_key((#[trigger] vals0[i]).terms(), aa_key)
                        && !has_key(vals0[i].terms(), asa_key) by {
                        lemma_new_keys_fresh(q, dagger, d, pairs, one, k as int, vals0[i].terms(), keys0[i]@);
                    }
                }
            }
            match find_label(&keys, &src) {
                Some(i) => {
                    let mut v = vals.remove(i);
                    let ghost old_v = v;
                    v.add_assign(aa_star);
                    proof {
                        if obeys_ring_spec::<Coeffs>() {
                            assert(old_v == vals0[i as int]);
                            assert(!has_key(old_v.terms(), aa_key));
                            assert(seq![(aa_key, one)].drop_last() =~= Seq::<(BasisView, Coeffs)>::empty());
                            assert(seq![(aa_key, one)].last() == (aa_key, one));
                            assert(add_terms(old_v.terms(), Seq::<(BasisView, Coeffs)>::empty(), false) == old_v.terms());
                            assert(add_terms(old_v.terms(), seq![(aa_key, one)], false) == old_v.terms().push((aa_key, one)));
                        }
                        assert forall|x: BasisView| #[trigger] has_key(v.terms(), x) <==> has_key(old_v.terms(), x) || x == aa_key by {
                            if has_key(seq![(aa_key, one)], x) {
                                let j = choose|j: int| 0 <= j < 1 && #[trigger] seq![(aa_key, one)][j].0 == x;
                            }
                            if x == aa_key {
                                assert(seq![(aa_key, one)][0].0 == x);
                            }
                        }
                    }
                    vals.insert(i, v);
                    proof {
                        assert(vals@ =~= vals0.update(i as int, v));
                        assert(keys0.map_values(|x: String| x@).contains(src@)) by {
                            assert(keys0.map_values(|x: String| x@)[i as int] == src@);
                        }
                        lemma_entry_gains(d, keys0, vals0, keys@, vals@, src@, aa_key, one, base0);
                    }
                },
                None => {
                    let label = src.clone();
                    keys.push(label);
                    vals.push(aa_star);
                    proof {
                        assert(keys@.drop_last() =~= keys0);
                        assert(vals@.drop_last() =~= vals0);
                        lemma_entry_gains(d, keys0, vals0, keys@, vals@, src@, aa_key, one, base0);
                    }
                },
            }
            let ghost keys1 = keys@;
            let ghost vals1 = vals@;
            proof {
                let mv0 = keys0.map_values(|x: String| x@);
                let mv1 = keys1.map_values(|x: String| x@);
                assert(mv1.contains(src@)) by {
                    if mv0.contains(src@) {
                    } else {
                        assert(mv1[mv0.len() as int] == src@);
                    }
                }
                if !mv1.contains(tgt@) {
                    assert(tgt@ != src@);
                    assert(!mv0.contains(tgt@)) by {
                        if mv0.contains(tgt@) {
                            let j = choose|j: int| 0 <= j < mv0.len() && mv0[j] == tgt@;
                            if !mv0.contains(src@) {
                                assert(mv1[j] == mv0.push(src@)[j]);
                            }
                        }
                    }
                }
            }
            let ghost base1 = |v: Seq<char>| if v == src@ {
                base0(v).insert((aa_key, one))
            } else {
                base0(v)
            };
            proof {
                if obeys_ring_spec::<Coeffs>() {
                    assert forall|i: int| 0 <= i < vals1.len() implies !has_key((#[trigger] vals1[i]).terms(), asa_key) by {
                        if has_key(vals1[i].terms(), asa_key) {
                            let y = choose|y: int| 0 <= y < vals1[i].terms().len() && #[trigger] vals1[i].terms()[y].0 == asa_key;
                            assert(vals1[i].terms().to_set().contains(vals1[i].terms()[y]));
                            if keys1[i]@ == src@ && vals1[i].terms()[y] == (aa_key, one) {
                            } else {
                                lemma_new_keys_fresh(q, dagger, d, pairs, one, k as int, vals1[i].terms(), keys1[i]@);
                                assert(preprojective_terms(q, pairs, one, keys1[i]@, k as int).contains(vals1[i].terms()[y]));
                                lemma_fresh_member(q, dagger, d, pairs, one, k as int, keys1[i]@, vals1[i].terms()[y]);
                            }
                        }
                    }
                }
            }
            match find_label(&keys, &tgt) {
                Some(i) => {
                    let mut v = vals.remove(i);
                    let ghost old_v = v;
                    v.sub_assign(a_star_a);
                    proof {
                        if obeys_ring_spec::<Coeffs>() {
                            assert(old_v == vals1[i as int]);
                            assert(!has_key(old_v.terms(), asa_key));
                            assert(seq![(asa_key, one)].drop_last() =~= Seq::<(BasisView, Coeffs)>::empty());
                            assert(seq![(asa_key, one)].last() == (asa_key, one));
                            assert(add_terms(old_v.terms(), Seq::<(BasisView, Coeffs)>::empty(), true) == old_v.terms());
                            assert(add_terms(old_v.terms(), seq![(asa_key, one)], true) == old_v.terms().push((asa_key, neg_one)));
                        }
                        assert forall|x: BasisView| #[trigger] has_key(v.terms(), x) <==> has_key(old_v.terms(), x) || x == asa_key by {
                            if has_key(seq![(asa_key, one)], x) {
                                let j = choose|j: int| 0 <= j < 1 && #[trigger] seq![(asa_key, one)][j].0 == x;
                            }
                            if x == asa_key {
                                assert(seq![(asa_key, one)][0].0 == x);
                            }
                        }
                    }
                    vals.insert(i, v);
                    proof {
                        assert(vals@ =~= vals1.update(i as int, v));
                        assert(keys1.map_values(|x: String| x@).contains(tgt@)) by {
                            assert(keys1.map_values(|x: String| x@)[i as int] == tgt@);
                        }
                        lemma_entry_gains(d, keys1, vals1, keys@, vals@, tgt@, asa_key, neg_one, base1);
                    }
                },
                None => {
                    let label = tgt.clone();
                    keys.push(label);
                    let mut negated = a_star_a;
                    negated.negate();
                    proof {
                        assert(keys_of(negated.terms()) == keys_of(seq![(asa_key, one)]));
                        assert(keys_of(negated.terms()).len() == 1);
                        assert(keys_of(negated.terms())[0] == asa_key);
                    }
                    vals.push(negated);
                    proof {
                        assert(keys@.drop_last() =~= keys1);
                        assert(vals@.drop_last() =~= vals1);
                        lemma_entry_gains(d, keys1, vals1, keys@, vals@, tgt@, asa_key, neg_one, base1);
                    }
                },
            }
            proof {
                lemma_step_sets(q, pairs, one, k as int);
                assert(keys@.map_values(|x: String| x@) =~= touched_order(q, pairs, k + 1));
            }
            k = k + 1;
        }
        let ghost rels = relation_terms(vals@);
        proof {
            assert forall|i: int|
                0 <= i < vals@.len() implies (#[trigger] vals@[i]).wf() && vals@[i].spec_quiver() == *doubled_arc
                    && terms_parallel(*doubled_arc, vals@[i].terms()) by {
                let t = vals@[i].terms();
                assert forall|y: int| 0 <= y < t.len() implies #[trigger] term_ends(d, t[y].0) == term_ends(d, t[0].0) by {
                }
            }

        }
        let qwr = QuiverWithRelations::from_nonzero_relations(doubled_arc.clone(), vals);
        proof {
            assert(qwr.rels() == rels);
            let order = touched_order(q, pairs, pairs.len() as int);
            assert(k == pairs.len());
            assert(keys@.map_values(|x: String| x@) == order);
            assert(rels.len() == order.len());
            if obeys_ring_spec::<Coeffs>() {
                assert forall|i: int| 0 <= i < rels.len() implies (#[trigger] rels[i]).to_set() == preprojective_terms(
                    q,
                    pairs,
                    one,
                    touched_order(q, pairs, pairs.len() as int)[i],
                    pairs.len() as int,
                ) by {
                    assert(rels[i] == vals@[i].terms());
                    assert(keys@.map_values(|x: String| x@)[i] == keys@[i]@);
                }
            }
            assert(*one_coeffs == one);
            assert(preprojective_relations(q, pairs, one, qwr.rels()));
            assert(doubled_by(q, dagger, pairs, *doubled_arc));
        }
        let r = (doubled_arc, qwr);
        proof {
            assert(doubled_by(q, dagger, pairs, *r.0));
            assert(preprojective_relations(q, pairs, *one_coeffs, r.1.rels()));
        }
        r
    }
}

/// Every relation is an element of the path algebra of `d` with at least
/// one term, all its terms running from the vertex of its label to itself.
pub open spec fn entries_ok<C: Ring + Copy, const OP_ALG: bool>(
    d: Quiver,
    keys: Seq<String>,
    vals: Seq<PathAlgebra<C, OP_ALG>>,
) -> bool {
    &&& keys.len() == vals.len()
    &&& forall|i: int|
        0 <= i < vals.len() ==> (#[trigger] vals[i]).wf() && vals[i].spec_quiver() == d && vals[i].terms().len() > 0
            && forall|y: int|
            0 <= y < vals[i].terms().len() ==> #[trigger] term_ends(d, vals[i].terms()[y].0) == (
                d.node_of(keys[i]@),
                d.node_of(keys[i]@),
            )
}

/// The vertices the arrows touch are listed once each.
proof fn lemma_touched_distinct(q: Quiver, pairs: Seq<(String, String)>, n: int)
    ensures
        touched_order(q, pairs, n).no_duplicates(),
    decreases n,
{
    if n > 0 {
        lemma_touched_distinct(q, pairs, n - 1);
    }
}

/// An element of the preprojective relation built from the first `k` pairs
/// has neither `a_k a_k*` nor `a_k* a_k` as basis element.
proof fn lemma_fresh_member<C: Ring, F: Fn(&String) -> String>(
    q: Quiver,
    dagger: F,
    d: Quiver,
    pairs: Seq<(String, String)>,
    one: C,
    k: int,
    v: Seq<char>,
    x: (BasisView, C),
)
    requires
        doubled_by(q, dagger, pairs, d),
        fresh_renaming(q, dagger),
        0 <= k < pairs.len(),
        preprojective_terms(q, pairs, one, v, k).contains(x),
    ensures
        x.0 != (false, seq![pairs[k].0@, pairs[k].1@]),
        x.0 != (false, seq![pairs[k].1@, pairs[k].0@]),
{
    let j = choose|j: int|
        0 <= j < k && ((source_label(q, pairs[j].0@) == v && x == ((false, seq![pairs[j].0@, pairs[j].1@]), one))
            || (target_label(q, pairs[j].0@) == v && x == ((false, seq![pairs[j].1@, pairs[j].0@]), one.neg_spec())));
    assert(q.has_arrow(pairs[k].0@));
    assert(q.has_arrow(pairs[j].0@));
    assert(call_ensures(dagger, (&pairs[k].0,), pairs[k].1));
    assert(call_ensures(dagger, (&pairs[j].0,), pairs[j].1));
    assert(!q.has_arrow(pairs[j].1@));
    assert(!q.has_arrow(pairs[k].1@));
    assert(pairs[j].0@ != pairs[k].0@);
    if x.0 == (false, seq![pairs[k].0@, pairs[k].1@]) {
        assert(x.0.1[0] == pairs[k].0@);
    }
    if x.0 == (false, seq![pairs[k].1@, pairs[k].0@]) {
        assert(x.0.1[0] == pairs[k].1@);
        assert(x.0.1[1] == pairs[k].0@);
    }
}

/// A relation whose terms are the preprojective terms from the first `k`
/// pairs has neither `a_k a_k*` nor `a_k* a_k` as basis element.
proof fn lemma_new_keys_fresh<C: Ring, F: Fn(&String) -> String>(
    q: Quiver,
    dagger: F,
    d: Quiver,
    pairs: Seq<(String, String)>,
    one: C,
    k: int,
    t: Seq<(BasisView, C)>,
    v: Seq<char>,
)
    requires
        doubled_by(q, dagger, pairs, d),
        fresh_renaming(q, dagger),
        0 <= k < pairs.len(),
        t.to_set() == preprojective_terms(q, pairs, one, v, k),
    ensures
        !has_key(t, (false, seq![pairs[k].0@, pairs[k].1@])),
        !has_key(t, (false, seq![pairs[k].1@, pairs[k].0@])),
{
    assert forall|y: int| 0 <= y < t.len() implies (#[trigger] t[y]).0 != (false, seq![pairs[k].0@, pairs[k].1@])
        && t[y].0 != (false, seq![pairs[k].1@, pairs[k].0@]) by {
        assert(t.to_set().contains(t[y]));
        lemma_fresh_member(q, dagger, d, pairs, one, k, v, t[y]);
    }
}

/// The preprojective terms from the first `k + 1` pairs: those from the first
/// `k`, with `a_k a_k*` at the source of `a_k` and `a_k* a_k` at its target.
proof fn lemma_step_sets<C: Ring>(q: Quiver, pairs: Seq<(String, String)>, one: C, k: int)
    requires
        0 <= k < pairs.len(),
    ensures
        forall|v: Seq<char>|
            #[trigger] preprojective_terms(q, pairs, one, v, k + 1) == {
                let b1 = if v == source_label(q, pairs[k].0@) {
                    preprojective_terms(q, pairs, one, v, k).insert(((false, seq![pairs[k].0@, pairs[k].1@]), one))
                } else {
                    preprojective_terms(q, pairs, one, v, k)
                };
                if v == target_label(q, pairs[k].0@) {
                    b1.insert(((false, seq![pairs[k].1@, pairs[k].0@]), one.neg_spec()))
                } else {
                    b1
                }
            },
{
    assert forall|v: Seq<char>|
        #[trigger] preprojective_terms(q, pairs, one, v, k + 1) == {
            let b1 = if v == source_label(q, pairs[k].0@) {
                preprojective_terms(q, pairs, one, v, k).insert(((false, seq![pairs[k].0@, pairs[k].1@]), one))
            } else {
                preprojective_terms(q, pairs, one, v, k)
            };
            if v == target_label(q, pairs[k].0@) {
                b1.insert(((false, seq![pairs[k].1@, pairs[k].0@]), one.neg_spec()))
            } else {
                b1
            }
        } by {
        let b1 = if v == source_label(q, pairs[k].0@) {
            preprojective_terms(q, pairs, one, v, k).insert(((false, seq![pairs[k].0@, pairs[k].1@]), one))
        } else {
            preprojective_terms(q, pairs, one, v, k)
        };
        let b2 = if v == target_label(q, pairs[k].0@) {
            b1.insert(((false, seq![pairs[k].1@, pairs[k].0@]), one.neg_spec()))
        } else {
            b1
        };
        assert forall|x: (BasisView, C)| preprojective_terms(q, pairs, one, v, k + 1).contains(x) <==> b2.contains(x) by {
            if preprojective_terms(q, pairs, one, v, k + 1).contains(x) {
                let j = choose|j: int|
                    0 <= j < k + 1 && ((source_label(q, pairs[j].0@) == v && x == (
                        (false, seq![pairs[j].0@, pairs[j].1@]),
                        one,
                    )) || (target_label(q, pairs[j].0@) == v && x == (
                        (false, seq![pairs[j].1@, pairs[j].0@]),
                        one.neg_spec(),
                    )));
                if j < k {
                    assert(preprojective_terms(q, pairs, one, v, k).contains(x));
                }
            }
            if b2.contains(x) {
                if preprojective_terms(q, pairs, one, v, k).contains(x) {
                    let j = choose|j: int|
                        0 <= j < k && ((source_label(q, pairs[j].0@) == v && x == (
                            (false, seq![pairs[j].0@, pairs[j].1@]),
                            one,
                        )) || (target_label(q, pairs[j].0@) == v && x == (
                            (false, seq![pairs[j].1@, pairs[j].0@]),
                            one.neg_spec(),
                        )));
                    assert(0 <= j < k + 1);
                }
            }
        }
        assert(preprojective_terms(q, pairs, one, v, k + 1) =~= b2);
    }
}

/// Adding the term `(key, c)` to the relation of the vertex `lab`, or
/// starting a relation for `lab` with it.
proof fn lemma_entry_gains<C: Ring + Copy, const OP_ALG: bool>(
    d: Quiver,
    keys0: Seq<String>,
    vals0: Seq<PathAlgebra<C, OP_ALG>>,
    keys1: Seq<String>,
    vals1: Seq<PathAlgebra<C, OP_ALG>>,
    lab: Seq<char>,
    key: BasisView,
    c: C,
    base: spec_fn(Seq<char>) -> Set<(BasisView, C)>,
)
    requires
        keys0.map_values(|x: String| x@).no_duplicates(),
        entries_ok(d, keys0, vals0),
        obeys_ring_spec::<C>() ==> forall|i: int|
            0 <= i < vals0.len() ==> (#[trigger] vals0[i]).terms().to_set() == base(keys0[i]@) && !has_key(
                vals0[i].terms(),
                key,
            ),
        term_ends(d, key) == (d.node_of(lab), d.node_of(lab)),
        !keys0.map_values(|x: String| x@).contains(lab) ==> base(lab) == Set::<(BasisView, C)>::empty(),
        (exists|i: int|
            0 <= i < keys0.len() && keys0[i]@ == lab && keys1 == keys0 && vals1 == vals0.update(i, vals1[i])
                && vals1[i].wf() && vals1[i].spec_quiver() == d && (forall|x: BasisView|
                #[trigger] has_key(vals1[i].terms(), x) <==> has_key(vals0[i].terms(), x) || x == key) && (
            obeys_ring_spec::<C>() ==> vals1[i].terms() == vals0[i].terms().push((key, c)))) || (
        !keys0.map_values(|x: String| x@).contains(lab) && keys1.len() == keys0.len() + 1 && keys1.drop_last()
            == keys0 && keys1.last()@ == lab && vals1.len() == vals0.len() + 1 && vals1.drop_last() == vals0
            && vals1.last().wf() && vals1.last().spec_quiver() == d && vals1.last().terms().len() == 1
            && vals1.last().terms()[0].0 == key && (obeys_ring_spec::<C>() ==> vals1.last().terms()[0].1 == c)),
    ensures
        keys1.map_values(|x: String| x@) == if keys0.map_values(|x: String| x@).contains(lab) {
            keys0.map_values(|x: String| x@)
        } else {
            keys0.map_values(|x: String| x@).push(lab)
        },
        entries_ok(d, keys1, vals1),
        obeys_ring_spec::<C>() ==> forall|i: int|
            0 <= i < vals1.len() ==> (#[trigger] vals1[i]).terms().to_set() == if keys1[i]@ == lab {
                base(keys1[i]@).insert((key, c))
            } else {
                base(keys1[i]@)
            },
{
    let mv0 = keys0.map_values(|x: String| x@);
    if exists|i: int|
        0 <= i < keys0.len() && keys0[i]@ == lab && keys1 == keys0 && vals1 == vals0.update(i, vals1[i])
            && vals1[i].wf() && vals1[i].spec_quiver() == d && (forall|x: BasisView|
            #[trigger] has_key(vals1[i].terms(), x) <==> has_key(vals0[i].terms(), x) || x == key) && (
        obeys_ring_spec::<C>() ==> vals1[i].terms() == vals0[i].terms().push((key, c))) {
        let i = choose|i: int|
            0 <= i < keys0.len() && keys0[i]@ == lab && keys1 == keys0 && vals1 == vals0.update(i, vals1[i])
                && vals1[i].wf() && vals1[i].spec_quiver() == d && (forall|x: BasisView|
                #[trigger] has_key(vals1[i].terms(), x) <==> has_key(vals0[i].terms(), x) || x == key) && (
            obeys_ring_spec::<C>() ==> vals1[i].terms() == vals0[i].terms().push((key, c)));
        assert(mv0[i] == lab);
        assert(mv0.contains(lab));
        assert forall|m: int| 0 <= m < vals1.len() implies (#[trigger] vals1[m]).wf() && vals1[m].spec_quiver() == d
            && vals1[m].terms().len() > 0 && forall|y: int|
            0 <= y < vals1[m].terms().len() ==> #[trigger] term_ends(d, vals1[m].terms()[y].0) == (
                d.node_of(keys1[m]@),
                d.node_of(keys1[m]@),
            ) by {
            if m == i {
                let t = vals1[m].terms();
                assert(has_key(t, key));
                assert forall|y: int| 0 <= y < t.len() implies #[trigger] term_ends(d, t[y].0) == (
                    d.node_of(keys1[m]@),
                    d.node_of(keys1[m]@),
                ) by {
                    assert(has_key(t, t[y].0));
                    if t[y].0 != key {
                        let t0 = vals0[i].terms();
                        let z = choose|z: int| 0 <= z < t0.len() && #[trigger] t0[z].0 == t[y].0;
                        assert(term_ends(d, t0[z].0) == (d.node_of(keys0[i]@), d.node_of(keys0[i]@)));
                    }
                }
            } else {
                assert(vals1[m] == vals0[m]);
            }
        }
        if obeys_ring_spec::<C>() {
            assert forall|m: int| 0 <= m < vals1.len() implies (#[trigger] vals1[m]).terms().to_set() == if keys1[m]@
                == lab {
                base(keys1[m]@).insert((key, c))
            } else {
                base(keys1[m]@)
            } by {
                if m == i {
                    lemma_push_to_set(vals0[i].terms(), (key, c));
                } else {
                    assert(vals1[m] == vals0[m]);
                    assert(keys0[m]@ != lab) by {
                        assert(mv0[m] == keys0[m]@);
                        assert(mv0[i] == keys0[i]@);
                    }
                }
            }
        }
    } else {
        assert(keys1.map_values(|x: String| x@) =~= mv0.push(lab)) by {
            assert forall|m: int| 0 <= m < keys1.len() implies keys1.map_values(|x: String| x@)[m] == mv0.push(lab)[m] by {
                if m < keys0.len() {
                    assert(keys1[m] == keys1.drop_last()[m]);
                } else {
                    assert(keys1[m] == keys1.last());
                }
            }
        }
        assert forall|m: int| 0 <= m < vals1.len() implies (#[trigger] vals1[m]).wf() && vals1[m].spec_quiver() == d
            && vals1[m].terms().len() > 0 && forall|y: int|
            0 <= y < vals1[m].terms().len() ==> #[trigger] term_ends(d, vals1[m].terms()[y].0) == (
                d.node_of(keys1[m]@),
                d.node_of(keys1[m]@),
            ) by {
            if m < vals0.len() {
                assert(vals1[m] == vals1.drop_last()[m]);
                assert(keys1[m] == keys1.drop_last()[m]);
            } else {
                assert(vals1[m] == vals1.last());
                assert(keys1[m] == keys1.last());
            }
        }
        if obeys_ring_spec::<C>() {
            assert forall|m: int| 0 <= m < vals1.len() implies (#[trigger] vals1[m]).terms().to_set() == if keys1[m]@
                == lab {
                base(keys1[m]@).insert((key, c))
            } else {
                base(keys1[m]@)
            } by {
                if m < vals0.len() {
                    assert(vals1[m] == vals1.drop_last()[m]);
                    assert(keys1[m] == keys1.drop_last()[m]);
                    assert(keys0[m]@ != lab) by {
                        assert(mv0[m] == keys0[m]@);
                    }
                } else {
                    assert(vals1[m] == vals1.last());
                    assert(keys1[m] == keys1.last());
                    let t = vals1[m].terms();
                    assert(t =~= seq![(key, c)]);
                    assert(t.to_set() =~= Set::<(BasisView, C)>::empty().insert((key, c)));
                }
            }
        }
    }
}

/// The vertices touched by fewer pairs are touched by more.
proof fn lemma_touched_grow(q: Quiver, pairs: Seq<(String, String)>, j: int, n: int, v: Seq<char>)
    requires
        0 <= j <= n,
        touched_order(q, pairs, j).contains(v),
    ensures
        touched_order(q, pairs, n).contains(v),
    decreases n - j,
{
    if j < n {
        lemma_touched_grow(q, pairs, j, n - 1, v);
        let prev = touched_order(q, pairs, n - 1);
        let i = choose|i: int| 0 <= i < prev.len() && prev[i] == v;
        let s = source_label(q, pairs[n - 1].0@);
        let p1 = if prev.contains(s) { prev } else { prev.push(s) };
        assert(p1[i] == v);
        let t = target_label(q, pairs[n - 1].0@);
        let p2 = if p1.contains(t) { p1 } else { p1.push(t) };
        assert(p2[i] == v);
    }
}

/// The source and target of the `j`-th arrow are touched by the first `j + 1` pairs.
proof fn lemma_touched_has(q: Quiver, pairs: Seq<(String, String)>, j: int)
    requires
        0 <= j,
    ensures
        touched_order(q, pairs, j + 1).contains(source_label(q, pairs[j].0@)),
        touched_order(q, pairs, j + 1).contains(target_label(q, pairs[j].0@)),
{
    let prev = touched_order(q, pairs, j);
    let s = source_label(q, pairs[j].0@);
    let t = target_label(q, pairs[j].0@);
    let p1 = if prev.contains(s) { prev } else { prev.push(s) };
    if !prev.contains(s) {
        assert(p1[prev.len() as int] == s);
    }
    assert(p1.contains(s));
    let p2 = if p1.contains(t) { p1 } else { p1.push(t) };
    if !p1.contains(t) {
        assert(p2[p1.len() as int] == t);
    }
    let i = choose|i: int| 0 <= i < p1.len() && p1[i] == s;
    assert(p2[i] == s);
}

/// A vertex no pair touches has an empty preprojective relation.
proof fn lemma_untouched_empty<C: Ring>(q: Quiver, pairs: Seq<(String, String)>, one: C, k: int, v: Seq<char>)
    requires
        0 <= k,
        !touched_order(q, pairs, k).contains(v),
    ensures
        preprojective_terms(q, pairs, one, v, k) == Set::<(BasisView, C)>::empty(),
{
    assert forall|x: (BasisView, C)| !preprojective_terms(q, pairs, one, v, k).contains(x) by {
        if preprojective_terms(q, pairs, one, v, k).contains(x) {
            let j = choose|j: int|
                0 <= j < k && ((source_label(q, pairs[j].0@) == v && x == ((false, seq![pairs[j].0@, pairs[j].1@]), one))
                    || (target_label(q, pairs[j].0@) == v && x == (
                    (false, seq![pairs[j].1@, pairs[j].0@]),
                    one.neg_spec(),
                )));
            lemma_touched_has(q, pairs, j);
            lemma_touched_grow(q, pairs, j + 1, k, v);
        }
    }
    assert(preprojective_terms(q, pairs, one, v, k) =~= Set::<(BasisView, C)>::empty());
}

/// Pushing an element onto a sequence inserts it into its set of elements.
proof fn lemma_push_to_set<T>(s: Seq<T>, x: T)
    ensures
        s.push(x).to_set() == s.to_set().insert(x),
{
    assert forall|y: T| s.push(x).to_set().contains(y) <==> s.to_set().insert(x).contains(y) by {
        if s.push(x).to_set().contains(y) {
            let i = choose|i: int| 0 <= i < s.push(x).len() && s.push(x)[i] == y;
            if i < s.len() {
                assert(s[i] == y);
                assert(s.to_set().contains(y));
            }
        }
        if s.to_set().contains(y) {
            let i = choose|i: int| 0 <= i < s.len() && s[i] == y;
            assert(s.push(x)[i] == y);
        }
        if y == x {
            assert(s.push(x)[s.len() as int] == x);
        }
    }
    assert(s.push(x).to_set() =~= s.to_set().insert(x));
}

/// The position of the label `k` among `keys`.
fn find_label(keys: &Vec<String>, k: &String) -> (r: Option<usize>)
    ensures
        match r {
            Some(i) => i < keys@.len() && keys@[i as int]@ == k@,
            None => !keys@.map_values(|x: String| x@).contains(k@),
        },
{
    let mut i: usize = 0;
    while i < keys.len()
        invariant
            i <= keys@.len(),
            forall|j: int| 0 <= j < i ==> keys@[j]@ != k@,
        decreases keys@.len() - i,
    {
        if keys[i] == *k {
            return Some(i);
        }
        i = i + 1;
    }
    proof {
        let mv = keys@.map_values(|x: String| x@);
        assert forall|j: int| 0 <= j < mv.len() implies #[trigger] mv[j] != k@ by {
            assert(mv[j] == keys@[j]@);
        }
    }
    None
}

/// A filter keeping every element keeps the sequence.
proof fn lemma_filter_all<C>(ts: Seq<Seq<(BasisView, C)>>)
    requires
        forall|i: int| 0 <= i < ts.len() ==> (#[trigger] ts[i]).len() > 0,
    ensures
        nonempty_terms(ts) == ts,
    decreases ts.len(),
{
    reveal_with_fuel(Seq::filter, 1);
    if ts.len() > 0 {
        lemma_filter_all(ts.drop_last());
        assert(ts.drop_last().push(ts.last()) =~= ts);
    } else {
        assert(nonempty_terms(ts) =~= ts);
    }
}

/// Every term of `s` is a term of `t`.
pub open spec fn drawn_from<Coeffs>(s: Seq<(BasisView, Coeffs)>, t: Seq<(BasisView, Coeffs)>) -> bool {
    forall|k: int| 0 <= k < s.len() ==> t.contains(#[trigger] s[k])
}

/// Every list of terms is drawn from itself.
proof fn lemma_drawn_from_self<Coeffs>(t: Seq<(BasisView, Coeffs)>)
    ensures
        drawn_from(t, t),
{
    assert forall|k: int| 0 <= k < t.len() implies t.contains(#[trigger] t[k]) by {
    }
}

/// `t` is a relation of the path algebra of `q`: distinct basis elements
/// of `q`, at least one, all beginning and ending at the same two vertices.
pub open spec fn relation_ok<Coeffs>(q: Quiver, t: Seq<(BasisView, Coeffs)>) -> bool {
    &&& t.len() > 0
    &&& keys_distinct(t)
    &&& forall|i: int| 0 <= i < t.len() ==> valid_basis(q, #[trigger] t[i].0)
    &&& terms_parallel(q, t)
}

impl<Coeffs: Ring + Copy, const OP_ALG: bool> QuiverWithRelations<Coeffs, OP_ALG> {
    /// The quiver.
    pub closed spec fn spec_quiver(self) -> Quiver {
        *self.quiver
    }

    /// The terms of each relation, in order.
    pub closed spec fn rels(self) -> Seq<Seq<(BasisView, Coeffs)>> {
        relation_terms(self.relations@)
    }

    /// The relations are elements of the path algebra of the quiver.
    closed spec fn relations_belong(self) -> bool {
        forall|i: int|
            0 <= i < self.relations@.len() ==> (#[trigger] self.relations@[i]).wf()
                && self.relations@[i].spec_quiver() == *self.quiver
    }

    /// The quiver is well formed and each relation is a nonzero element of
    /// its path algebra whose terms are parallel.
    pub open spec fn wf(self) -> bool {
        &&& self.spec_quiver().wf()
        &&& self.belongs()
        &&& forall|i: int| 0 <= i < self.rels().len() ==> relation_ok(self.spec_quiver(), #[trigger] self.rels()[i])
    }

    /// The relations are stored as elements of the path algebra of the quiver.
    pub closed spec fn belongs(self) -> bool {
        self.relations_belong()
    }

    /// The algebra `kQ^op / I` (or `kQ / I`) with `I` generated by
    /// `relations`. Where `is_zero` is given, each relation first drops the
    /// terms whose coefficient it judges zero; relations left without terms
    /// are discarded. Each relation must be an element of the path algebra
    /// of `quiver` with parallel terms.
    pub fn new<F: Fn(&Coeffs) -> bool>(
        quiver: Arc<Quiver>,
        relations: Vec<PathAlgebra<Coeffs, OP_ALG>>,
        is_zero: Option<F>,
    ) -> (r: Self)
        requires
            quiver.wf(),
            forall|i: int|
                0 <= i < relations@.len() ==> (#[trigger] relations@[i]).wf() && relations@[i].spec_quiver()
                    == *quiver && terms_parallel(*quiver, relations@[i].terms()),
            is_zero matches Some(f) ==> forall|c: &Coeffs| #[trigger] call_requires(f, (c,)),
        ensures
            r.wf(),
            r.spec_quiver() == *quiver,
            is_zero is None ==> r.rels() == nonempty_terms(relation_terms(relations@)),
            is_zero matches Some(f) ==> exists|simp: Seq<Seq<(BasisView, Coeffs)>>|
                #![trigger nonempty_terms(simp)]
                simp.len() == relations@.len() && (forall|i: int|
                    0 <= i < relations@.len() ==> simplified_by(f, (#[trigger] relations@[i]).terms(), simp[i]))
                    && r.rels() == nonempty_terms(simp),
    {
        let mut kept: Vec<PathAlgebra<Coeffs, OP_ALG>> = Vec::new();
        let ghost mut simp: Seq<Seq<(BasisView, Coeffs)>> = Seq::empty();
        let mut i: usize = 0;
        while i < relations.len()
            invariant
                quiver.wf(),
                forall|j: int|
                    0 <= j < relations@.len() ==> (#[trigger] relations@[j]).wf() && relations@[j].spec_quiver()
                        == *quiver && terms_parallel(*quiver, relations@[j].terms()),
                is_zero matches Some(f) ==> forall|c: &Coeffs| #[trigger] call_requires(f, (c,)),
                i <= relations@.len(),
                simp.len() == i,
                is_zero is None ==> simp == relation_terms(relations@).take(i as int),
                is_zero matches Some(f) ==> forall|j: int|
                    0 <= j < i ==> simplified_by(f, (#[trigger] relations@[j]).terms(), simp[j]),
                forall|j: int| 0 <= j < i ==> drawn_from(#[trigger] simp[j], relations@[j].terms()),
                relation_terms(kept@) == nonempty_terms(simp),
                forall|j: int|
                    0 <= j < kept@.len() ==> (#[trigger] kept@[j]).wf() && kept@[j].spec_quiver() == *quiver,
            decreases relations@.len() - i,
        {
            let mut rel = relations[i].clone();
            let ghost t = relations@[i as int].terms();
            match &is_zero {
                Some(f) => {
                    rel.simplify_with(f);
                    proof {
                        crate::path_algebra::lemma_simplified_from(*f, t, rel.terms());
                        let s = rel.terms();
                        assert forall|k: int| 0 <= k < s.len() implies t.contains(#[trigger] s[k]) by {
                            let m = choose|m: int| #![trigger t[m]] 0 <= m < t.len() && t[m] == s[k];
                        }
                        assert(drawn_from(rel.terms(), t));
                    }
                },
                None => {
                    proof {
                        lemma_drawn_from_self(t);
                        assert(rel.terms() == t);
                    }
                },
            }
            let ghost s = rel.terms();
            proof {
                assert(drawn_from(s, t));
                let simp0 = simp;
                simp = simp.push(s);
                assert forall|j: int| 0 <= j < i + 1 implies drawn_from(#[trigger] simp[j], relations@[j].terms()) by {
                    if j < i {
                        assert(simp[j] == simp0[j]);
                    }
                }
                assert(simp.drop_last() == simp0);
                assert(nonempty_terms(simp) == if s.len() > 0 {
                    nonempty_terms(simp0).push(s)
                } else {
                    nonempty_terms(simp0)
                }) by {
                    reveal_with_fuel(Seq::filter, 1);
                }
                if is_zero is None {
                    assert(simp =~= relation_terms(relations@).take(i + 1));
                }
            }
            if rel.might_be_nonzero() {
                let ghost before = kept@;
                kept.push(rel);
                assert(relation_terms(kept@) =~= relation_terms(before).push(s));
            }
            i = i + 1;
        }
        let r = QuiverWithRelations { quiver, relations: kept };
        proof {
            if is_zero is None {
                assert(simp =~= relation_terms(relations@));
            }
            assert forall|k: int| 0 <= k < r.rels().len() implies relation_ok(r.spec_quiver(), #[trigger] r.rels()[k]) by {
                assert(r.rels()[k] == kept@[k].terms());
                assert(nonempty_terms(simp).contains(r.rels()[k]));
                simp.lemma_filter_contains_rev(|t: Seq<(BasisView, Coeffs)>| t.len() > 0, r.rels()[k]);
                let j = choose|j: int| 0 <= j < simp.len() && simp[j] == r.rels()[k];
                let t = relations@[j].terms();
                let s = simp[j];
                assert(drawn_from(simp[j], relations@[j].terms()));
                assert forall|a: int| 0 <= a < s.len() implies #[trigger] crate::path_algebra::term_ends(
                    *quiver,
                    s[a].0,
                ) == crate::path_algebra::term_ends(*quiver, s[0].0) by {
                    assert(t.contains(s[a]));
                    assert(t.contains(s[0]));
                    let ma = choose|m: int| 0 <= m < t.len() && t[m] == s[a];
                    let m0 = choose|m: int| 0 <= m < t.len() && t[m] == s[0];
                    assert(crate::path_algebra::term_ends(*quiver, t[ma].0) == crate::path_algebra::term_ends(
                        *quiver,
                        t[0].0,
                    ));
                    assert(crate::path_algebra::term_ends(*quiver, t[m0].0) == crate::path_algebra::term_ends(
                        *quiver,
                        t[0].0,
                    ));
                }
                assert(kept@[k].wf());
                reveal_with_fuel(Seq::filter, 1);
                simp.lemma_filter_pred(|t: Seq<(BasisView, Coeffs)>| t.len() > 0, k);
            }
        }
        r
    }

    /// The Jacobian algebra of the superpotential `w_function`: the
    /// relations are its cyclic derivatives by each arrow of `quiver`
    /// (in the order the quiver lists its arrows), passed to `new` with
    /// `is_zero`. The terms of `w_function` must be cyclic paths.
    pub fn from_quiver_and_w<F: Fn(&Coeffs) -> bool>(
        quiver: Arc<Quiver>,
        w_function: &PathAlgebra<Coeffs, OP_ALG>,
        is_zero: Option<F>,
    ) -> (r: Self)
        requires
            quiver.wf(),
            w_function.wf(),
            w_function.spec_quiver() == *quiver,
            paths_cyclic(*quiver, w_function.terms()),
            ring_ops_total::<Coeffs>(),
            forall|a: Seq<char>| #[trigger] quiver.has_arrow(a) ==> loop_vertex_named(*quiver, a),
            is_zero matches Some(f) ==> forall|c: &Coeffs| #[trigger] call_requires(f, (c,)),
        ensures
            r.wf(),
            r.spec_quiver() == *quiver,
            exists|arrows: Seq<Seq<char>>|
                #![trigger jacobian_terms(*quiver, w_function.terms(), arrows)]
                arrows.no_duplicates() && (forall|a: Seq<char>| #[trigger] arrows.contains(a) <==> quiver.has_arrow(a))
                    && (obeys_ring_spec::<Coeffs>() ==> kept_relations(
                    is_zero,
                    jacobian_terms(*quiver, w_function.terms(), arrows),
                    r.rels(),
                )),
    {
        let qref: &Quiver = &*quiver;
        let ghost q = *qref;
        let labels = qref.edge_labels();
        let ghost arrows = labels.deep_view();
        let mut relations: Vec<PathAlgebra<Coeffs, OP_ALG>> = Vec::new();
        let mut i: usize = 0;
        while i < labels.len()
            invariant
                q == *quiver,
                q.wf(),
                w_function.wf(),
                w_function.spec_quiver() == q,
                paths_cyclic(q, w_function.terms()),
                ring_ops_total::<Coeffs>(),
                forall|a: Seq<char>| #[trigger] q.has_arrow(a) ==> loop_vertex_named(q, a),
                arrows == labels.deep_view(),
                forall|a: Seq<char>| #[trigger] arrows.contains(a) <==> q.has_arrow(a),
                i <= labels@.len(),
                relations@.len() == i,
                forall|k: int|
                    0 <= k < i ==> (#[trigger] relations@[k]).wf() && relations@[k].spec_quiver() == q
                        && terms_parallel(q, relations@[k].terms()) && (obeys_ring_spec::<Coeffs>()
                        ==> relations@[k].terms() == jacobian_terms(q, w_function.terms(), arrows)[k]),
            decreases labels@.len() - i,
        {
            let mut d = w_function.clone();
            assert(arrows[i as int] == labels@[i as int]@);
            assert(arrows.contains(labels@[i as int]@));
            d.cyclic_derivative(&labels[i]);
            proof {
                let t = d.terms();
                assert(runs_against(q, t, arrows[i as int]));
                assert forall|y: int| 0 <= y < t.len() implies #[trigger] crate::path_algebra::term_ends(q, t[y].0)
                    == crate::path_algebra::term_ends(q, t[0].0) by {
                }
            }
            relations.push(d);
            i = i + 1;
        }
        let ghost iz = is_zero;
        let r = Self::new(quiver, relations, is_zero);
        proof {
            let jt = jacobian_terms(q, w_function.terms(), arrows);
            if obeys_ring_spec::<Coeffs>() {
                assert forall|k: int| 0 <= k < relations@.len() implies relation_terms(relations@)[k] == jt[k] by {
                    assert(relations@[k].terms() == jt[k]);
                }
                assert(relation_terms(relations@) =~= jt);
                match iz {
                    Some(f) => {
                        let simp = choose|simp: Seq<Seq<(BasisView, Coeffs)>>|
                            #![trigger nonempty_terms(simp)]
                            simp.len() == relations@.len() && (forall|i: int|
                                0 <= i < relations@.len() ==> simplified_by(f, (#[trigger] relations@[i]).terms(), simp[i]))
                                && r.rels() == nonempty_terms(simp);
                        assert forall|i: int| 0 <= i < jt.len() implies simplified_by(f, #[trigger] jt[i], simp[i]) by {
                            assert(relations@[i].terms() == jt[i]);
                        }
                        assert(kept_relations(iz, jt, r.rels()));
                    },
                    None => {},
                }
                assert(kept_relations(iz, jt, r.rels()));
            }
            assert(jacobian_terms(*quiver, w_function.terms(), arrows) == jt);
        }
        r
    }

    /// Whether the representation `quiver_rep` (of the same quiver) descends
    /// to the quotient algebra: every relation has a matrix (see
    /// `QuiverRep::mat_from_path_algebra`) that `matrix_is_zero` judges zero.
    pub fn rep_descends<M, I: Fn(usize) -> M, Z: Fn(&M) -> bool>(
        &self,
        quiver_rep: &QuiverRep<M, I, OP_ALG>,
        matrix_is_zero: Z,
    ) -> (r: bool) where
        M: ChainMultiplyable + CheckedAdd + CheckedAddAssign + CheckedMulAssign + Clone + Mul<Coeffs, Output = M>,
        requires
            self.wf(),
            quiver_rep.wf(),
            quiver_rep.spec_quiver() == self.spec_quiver(),
            chain_total::<M>(),
            forall|m: M, c: Coeffs| #[trigger] m.mul_req(c),
            forall|a: M, b: M| #[trigger] a.spec_add_assign_allowed(&b),
            forall|m: &M| #[trigger] call_requires(matrix_is_zero, (m,)),
        ensures
            exact_matrices(quiver_rep.identity()) && M::obeys_mul_spec() && M::obeys_add_assign_spec() && r
                ==> forall|i: int|
                0 <= i < self.rels().len() ==> match quiver_rep.algebra_matrix(
                    #[trigger] self.rels()[i],
                    self.rels()[i].len() as int,
                ) {
                    Some(m) => call_ensures(matrix_is_zero, (&m,), true),
                    None => false,
                },
            exact_matrices(quiver_rep.identity()) && M::obeys_mul_spec() && M::obeys_add_assign_spec() && !r
                ==> exists|i: int|
                0 <= i < self.rels().len() && match quiver_rep.algebra_matrix(
                    #[trigger] self.rels()[i],
                    self.rels()[i].len() as int,
                ) {
                    Some(m) => call_ensures(matrix_is_zero, (&m,), false),
                    None => true,
                },
    {
        let ghost exact = exact_matrices(quiver_rep.identity()) && M::obeys_mul_spec() && M::obeys_add_assign_spec();
        let ghost rels = self.rels();
        let mut k: usize = 0;
        while k < self.relations.len()
            invariant
                self.wf(),
                quiver_rep.wf(),
                quiver_rep.spec_quiver() == self.spec_quiver(),
                chain_total::<M>(),
                forall|m: M, c: Coeffs| #[trigger] m.mul_req(c),
                forall|a: M, b: M| #[trigger] a.spec_add_assign_allowed(&b),
                forall|m: &M| #[trigger] call_requires(matrix_is_zero, (m,)),
                rels == self.rels(),
                rels.len() == self.relations@.len(),
                exact == (exact_matrices(quiver_rep.identity()) && M::obeys_mul_spec() && M::obeys_add_assign_spec()),
                k <= rels.len(),
                exact ==> forall|i: int|
                    0 <= i < k ==> match quiver_rep.algebra_matrix(#[trigger] rels[i], rels[i].len() as int) {
                        Some(m) => call_ensures(matrix_is_zero, (&m,), true),
                        None => false,
                    },
            decreases rels.len() - k,
        {
            let rel = &self.relations[k];
            proof {
                assert(rels[k as int] == rel.terms());
                assert(relation_ok(self.spec_quiver(), rels[k as int]));
                assert(self.belongs());
                assert(self.relations_belong());
            }
            if rel.might_be_nonzero() {
                match quiver_rep.mat_from_path_algebra(rel.clone()) {
                    Ok(m) => {
                        if !matrix_is_zero(&m) {
                            return false;
                        }
                    },
                    Err(_) => {
                        return false;
                    },
                }
            }
            k = k + 1;
        }
        true
    }

    /// The algebra with the relations `relations`, each a nonzero element of
    /// the path algebra of `quiver` with parallel terms.
    fn from_nonzero_relations(quiver: Arc<Quiver>, relations: Vec<PathAlgebra<Coeffs, OP_ALG>>) -> (r: Self)
        requires
            quiver.wf(),
            forall|i: int|
                0 <= i < relations@.len() ==> (#[trigger] relations@[i]).wf() && relations@[i].spec_quiver() == *quiver
                    && terms_parallel(*quiver, relations@[i].terms()) && relations@[i].terms().len() > 0,
        ensures
            r.wf(),
            r.spec_quiver() == *quiver,
            r.rels() == relation_terms(relations@),
    {
        let r = QuiverWithRelations { quiver, relations };
        proof {
            assert forall|i: int| 0 <= i < r.rels().len() implies relation_ok(r.spec_quiver(), #[trigger] r.rels()[i]) by {
                assert(r.rels()[i] == r.relations@[i].terms());
                assert(r.relations@[i].wf());
            }
        }
        r
    }

    /// The free path algebra of `quiver`, with no relations.
    pub fn from_quiver_no_relations(quiver: Arc<Quiver>) -> (r: Self)
        requires
            quiver.wf(),
        ensures
            r.wf(),
            r.spec_quiver() == *quiver,
            r.rels() == Seq::<Seq<(BasisView, Coeffs)>>::empty(),
    {
        let r = QuiverWithRelations { quiver, relations: Vec::new() };
        assert(r.rels() =~= Seq::<Seq<(BasisView, Coeffs)>>::empty());
        r
    }

    /// The underlying quiver.
    pub fn quiver(&self) -> (r: &Arc<Quiver>)
        ensures
            **r == self.spec_quiver(),
    {
        &self.quiver
    }

    /// The relations, in order.
    pub fn relations(&self) -> (r: &[PathAlgebra<Coeffs, OP_ALG>])
        ensures
            relation_terms(r@) == self.rels(),
            self.belongs() ==> forall|i: int|
                0 <= i < r@.len() ==> (#[trigger] r@[i]).wf() && r@[i].spec_quiver() == self.spec_quiver(),
    {
        self.relations.as_slice()
    }
}

} // verus!

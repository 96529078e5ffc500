//! Left DG-modules over a differential graded path algebra: a representation
//! of the graded quiver with a degree `+1` endomorphism at each vertex.
use crate::checked_arith::{
    ChainMultiplyable, CheckedAdd, CheckedAddAssign, CheckedArithError, CheckedMulAssign, Ring, chain_multiply_after,
    chain_then, chain_total, clone_exact,
};
use crate::dg_path_algebra::{GradedDifferentialQuiver, arrow_degree, is_odd, lemma_arrow_ends};
use crate::path_algebra::terms_parallel;
use crate::quiver_rep::{
    QuiverRep, copy_first, copy_of, copy_second, entries_map, exact_matrices, find_last, lemma_entries_absent,
    lemma_entries_last, source_label, target_label,
};
use std::ops::{Mul, Neg};
use vstd::prelude::*;
use vstd::std_specs::ops::{MulSpec, NegSpec};

verus! {

/// No two entries carry the same label.
pub open spec fn labels_distinct<T>(s: Seq<(String, T)>) -> bool {
    forall|i: int, j: int| 0 <= i < j < s.len() ==> (#[trigger] s[i]).0@ != (#[trigger] s[j]).0@
}

/// The square `d` then `d` of a vertex differential.
pub open spec fn squared<M: ChainMultiplyable>(d: M) -> M {
    d.spec_then(&d)
}

/// The labels of the first `n` entries whose check came back `false`.
pub open spec fn flagged<M>(entries: Seq<(String, M)>, results: Seq<bool>, n: int) -> Seq<Seq<char>>
    decreases n,
{
    if n <= 0 {
        Seq::empty()
    } else {
        let prev = flagged(entries, results, n - 1);
        if results[n - 1] {
            prev
        } else {
            prev.push(entries[n - 1].0@)
        }
    }
}

/// The entries of `order` among the first `n` whose check came back `false`.
pub open spec fn refused_among(order: Seq<Seq<char>>, results: Seq<bool>, n: int) -> Seq<Seq<char>>
    decreases n,
{
    if n <= 0 {
        Seq::empty()
    } else {
        let prev = refused_among(order, results, n - 1);
        if results[n - 1] {
            prev
        } else {
            prev.push(order[n - 1])
        }
    }
}

/// The refused entries depend only on the results so far.
proof fn lemma_refused_prefix(order: Seq<Seq<char>>, results: Seq<bool>, b: bool, n: int)
    requires
        n <= results.len(),
    ensures
        refused_among(order, results.push(b), n) == refused_among(order, results, n),
    decreases n,
{
    if n > 0 {
        lemma_refused_prefix(order, results, b, n - 1);
        assert(results.push(b)[n - 1] == results[n - 1]);
    }
}

/// The flagged labels depend only on the results so far.
proof fn lemma_flagged_prefix<M>(entries: Seq<(String, M)>, results: Seq<bool>, b: bool, n: int)
    requires
        n <= results.len(),
    ensures
        flagged(entries, results.push(b), n) == flagged(entries, results, n),
    decreases n,
{
    if n > 0 {
        lemma_flagged_prefix(entries, results, b, n - 1);
        assert(results.push(b)[n - 1] == results[n - 1]);
    }
}

/// `results[k]` is what the check `is_zero` may give on the square of the
/// `k`-th differential, for each of the first `n` entries.
pub open spec fn square_checks<M: ChainMultiplyable, Z: Fn(&M) -> bool>(
    is_zero: Z,
    entries: Seq<(String, M)>,
    results: Seq<bool>,
) -> bool {
    &&& results.len() == entries.len()
    &&& forall|k: int|
        0 <= k < entries.len() ==> M::obeys_chain_spec() ==> call_ensures(
            is_zero,
            (&squared(entries[k].1),),
            #[trigger] results[k],
        )
}

/// A left DG-module over a differential graded path algebra `(kQ, d)`: a
/// representation of the graded quiver (the action of each arrow) and a
/// degree `+1` endomorphism `d_M` at each vertex, in the bases of the
/// representation.
#[verifier::reject_recursive_types(M)]
pub struct DGModule<M, I: Fn(usize) -> M, const OP_ALG: bool> {
    rep: QuiverRep<M, I, OP_ALG>,
    vertex_differentials: Vec<(String, M)>,
}

impl<
    M: ChainMultiplyable + CheckedAdd + CheckedAddAssign + CheckedMulAssign + Clone,
    I: Fn(usize) -> M,
    const OP_ALG: bool,
> DGModule<M, I, OP_ALG> {
    /// The representation.
    pub closed spec fn spec_rep(&self) -> QuiverRep<M, I, OP_ALG> {
        self.rep
    }

    /// The vertex differentials, one entry per vertex.
    pub closed spec fn differentials(&self) -> Seq<(String, M)> {
        self.vertex_differentials@
    }

    /// The vertex differentials as a map from vertex labels.
    pub closed spec fn diff_map(&self) -> Map<Seq<char>, M> {
        entries_map(self.vertex_differentials@)
    }

    /// The gauged form of the differential `d` at vertex `v`:
    /// `g_v^-1`, then `d`, then `g_v`, or `d` where `v` has no gauge entry;
    /// nothing where a product cannot be formed.
    pub open spec fn gauged_differential(g: Map<Seq<char>, (M, M)>, v: Seq<char>, d: M) -> Option<M> {
        if g.contains_key(v) {
            chain_then(g[v].0, seq![d, g[v].1])
        } else {
            Some(d)
        }
    }

    /// Builds the DG-module from a representation of the graded quiver and a
    /// degree `+1` endomorphism at each vertex (one entry per vertex). Where
    /// `validate` is given, it checks that each endomorphism squares to zero,
    /// and the labels of the vertices where it does not are the error.
    /// Compatibility with the differential of the algebra is not checked.
    pub fn new<Z: Fn(&M) -> bool>(
        rep: QuiverRep<M, I, OP_ALG>,
        vertex_differentials: Vec<(String, M)>,
        validate: Option<Z>,
    ) -> (r: Result<Self, Vec<String>>)
        requires
            labels_distinct(vertex_differentials@),
            validate is Some ==> {
                &&& chain_total::<M>()
                &&& clone_exact::<M>()
                &&& forall|k: int|
                    0 <= k < vertex_differentials@.len() ==> (#[trigger] vertex_differentials@[k]).1.spec_composes(
                        &vertex_differentials@[k].1,
                    )
                &&& forall|m: &M| #[trigger] call_requires(validate.unwrap(), (m,))
            },
        ensures
            validate is None ==> r is Ok,
            r is Ok ==> r.unwrap().spec_rep() == rep && r.unwrap().differentials() == vertex_differentials@,
            validate is Some ==> exists|results: Seq<bool>|
                square_checks(validate.unwrap(), vertex_differentials@, results) && {
                    let f = flagged(vertex_differentials@, results, vertex_differentials@.len() as int);
                    &&& f.len() == 0 ==> r is Ok
                    &&& f.len() > 0 ==> r is Err && r->Err_0.deep_view() == f
                },
    {
        let ghost vd = vertex_differentials@;
        match validate {
            None => Ok(DGModule { rep, vertex_differentials }),
            Some(z) => {
                let failing = Self::squares_failing(&vertex_differentials, z);
                if failing.len() > 0 {
                    Err(failing)
                } else {
                    Ok(DGModule { rep, vertex_differentials })
                }
            },
        }
    }

    /// The representation (the action of the arrows).
    pub fn rep(&self) -> (r: &QuiverRep<M, I, OP_ALG>)
        ensures
            *r == self.spec_rep(),
    {
        &self.rep
    }

    /// The endomorphism `d_M` at vertex `v`, where the module has one there.
    pub fn vertex_differential(&self, v: &String) -> (r: Option<&M>)
        ensures
            r is Some <==> self.diff_map().contains_key(v@),
            r matches Some(m) ==> *m == self.diff_map()[v@],
    {
        match find_last(&self.vertex_differentials, v) {
            Some(i) => {
                proof {
                    lemma_entries_last(self.vertex_differentials@, v@, i as int);
                }
                Some(&self.vertex_differentials[i].1)
            },
            None => {
                proof {
                    lemma_entries_absent(self.vertex_differentials@, v@);
                }
                None
            },
        }
    }

    /// Changes the basis at each vertex by `gauge_transformation[v] =
    /// (g_v^-1, g_v)`: the representation as by `QuiverRep::gauge_transform`,
    /// and each vertex differential conjugated to `g_v^-1`, then `d_M`, then
    /// `g_v` (vertices absent from the gauge keep theirs). The first product
    /// that cannot be formed is reported.
    pub fn gauge_transform(&mut self, gauge_transformation: &Vec<(String, (M, M))>) -> (r: Result<
        (),
        CheckedArithError<M>,
    >)
        requires
            old(self).spec_rep().wf(),
            chain_total::<M>(),
        ensures
            final(self).spec_rep().wf(),
            final(self).spec_rep().spec_quiver() == old(self).spec_rep().spec_quiver(),
            final(self).spec_rep().dim_map() == old(self).spec_rep().dim_map(),
            final(self).differentials().len() == old(self).differentials().len(),
            forall|k: int|
                0 <= k < old(self).differentials().len() ==> (#[trigger] final(self).differentials()[k]).0@
                    == old(self).differentials()[k].0@,
            exact_matrices(old(self).spec_rep().identity()) && clone_exact::<M>() && M::obeys_chain_spec() ==> {
                let g = entries_map(gauge_transformation@);
                &&& r is Ok ==> forall|a: Seq<char>|
                    #[trigger] old(self).spec_rep().spec_quiver().has_arrow(a) ==> old(self).spec_rep().gauged(g, a)
                        == Some(final(self).spec_rep().edge_map()[a])
                &&& r is Ok ==> forall|k: int|
                    0 <= k < old(self).differentials().len() ==> Self::gauged_differential(
                        g,
                        old(self).differentials()[k].0@,
                        old(self).differentials()[k].1,
                    ) == Some(#[trigger] final(self).differentials()[k].1)
                &&& r is Err ==> (exists|a: Seq<char>|
                    #[trigger] old(self).spec_rep().spec_quiver().has_arrow(a) && old(self).spec_rep().gauged(g, a)
                        is None) || (exists|k: int|
                    0 <= k < old(self).differentials().len() && Self::gauged_differential(
                        g,
                        (#[trigger] old(self).differentials()[k]).0@,
                        old(self).differentials()[k].1,
                    ) is None)
            },
    {
        let ghost g = entries_map(gauge_transformation@);
        let ghost old_rep = self.rep;
        let ghost od = self.vertex_differentials@;
        let ghost exact = exact_matrices(old_rep.identity()) && clone_exact::<M>() && M::obeys_chain_spec();
        match self.rep.gauge_transform(gauge_transformation) {
            Ok(()) => {},
            Err(e) => {
                proof {
                    if exact {
                        let (order, f) = choose|order: Seq<Seq<char>>, f: int|
                            #[trigger] old_rep.failed_at(self.rep, g, order, f);
                        assert(order.contains(order[f]));
                        assert(old_rep.spec_quiver().has_arrow(order[f]));
                    }
                }
                return Err(e);
            },
        }
        let ghost rep_after = self.rep;
        let mut k: usize = 0;
        while k < self.vertex_differentials.len()
            invariant
                chain_total::<M>(),
                g == entries_map(gauge_transformation@),
                self.vertex_differentials@.len() == od.len(),
                k <= od.len(),
                forall|j: int| 0 <= j < od.len() ==> (#[trigger] self.vertex_differentials@[j]).0@ == od[j].0@,
                forall|j: int| k <= j < od.len() ==> (#[trigger] self.vertex_differentials@[j]).1 == od[j].1,
                exact ==> forall|j: int|
                    0 <= j < k ==> Self::gauged_differential(g, od[j].0@, od[j].1) == Some(
                        #[trigger] self.vertex_differentials@[j].1,
                    ),
                self.rep == rep_after,
                old_rep == old(self).spec_rep(),
                od == old(self).differentials(),
                rep_after.wf(),
                rep_after.spec_quiver() == old_rep.spec_quiver(),
                rep_after.dim_map() == old_rep.dim_map(),
                exact ==> forall|a: Seq<char>|
                    #[trigger] old_rep.spec_quiver().has_arrow(a) ==> old_rep.gauged(g, a) == Some(
                        rep_after.edge_map()[a],
                    ),
                exact == (exact_matrices(old_rep.identity()) && clone_exact::<M>() && M::obeys_chain_spec()),
            decreases od.len() - k,
        {
            let label = self.vertex_differentials[k].0.clone();
            assert(label@ == od[k as int].0@);
            assert(self.vertex_differentials@[k as int].1 == od[k as int].1);
            match copy_first(gauge_transformation, &label) {
                None => {},
                Some(g_inv) => {
                    let g_v = match copy_second(gauge_transformation, &label) {
                        Some(x) => x,
                        None => {
                            return vstd::pervasive::unreached();
                        },
                    };
                    let delta = copy_of(&self.vertex_differentials[k].1);
                    let mut ops: Vec<M> = Vec::new();
                    ops.push(delta);
                    ops.push(g_v);
                    proof {
                        if exact {
                            assert(ops@ =~= seq![od[k as int].1, g[label@].1]);
                        }
                    }
                    match chain_multiply_after(g_inv, ops) {
                        Ok(m) => {
                            let ghost before = self.vertex_differentials@;
                            self.vertex_differentials.set(k, (label, m));
                            proof {
                                assert forall|j: int| 0 <= j < od.len() implies (
                                #[trigger] self.vertex_differentials@[j]).0@ == od[j].0@ by {
                                    if j != k {
                                        assert(self.vertex_differentials@[j] == before[j]);
                                    }
                                }
                            }
                        },
                        Err(err) => {
                            proof {
                                if exact {
                                    assert(Self::gauged_differential(g, od[k as int].0@, od[k as int].1) is None);
                                }
                            }
                            return Err(CheckedArithError::from_mul(err));
                        },
                    }
                },
            }
            k = k + 1;
        }
        Ok(())
    }

    /// The two sides of the Leibniz condition at the arrow `a`:
    /// `d_{M,t(a)}` after `rho(a)`, and `(-1)^|a|` times `rho(a)` after
    /// `d_{M,s(a)}`, plus the matrix of `d(a)` where `d(a)` has terms (nothing
    /// for the second where that matrix or sum cannot be formed).
    pub open spec fn leibniz_sides<C: Ring + Copy>(self, dga: GradedDifferentialQuiver<C, OP_ALG>, a: Seq<char>) -> (
        M,
        Option<M>,
    ) where M: Mul<C, Output = M> + Neg<Output = M> {
        let q = self.spec_rep().spec_quiver();
        let rho = self.spec_rep().edge_map()[a];
        let d_src = self.diff_map()[source_label(q, a)];
        let d_tgt = self.diff_map()[target_label(q, a)];
        let base = d_src.spec_then(&rho);
        let signed = if is_odd(arrow_degree(dga.degree_map(), a)) {
            base.neg_spec()
        } else {
            base
        };
        (
            rho.spec_then(&d_tgt),
            if dga.diff_map().contains_key(a) && dga.diff_map()[a].terms().len() > 0 {
                match self.spec_rep().algebra_matrix(dga.diff_map()[a].terms(), dga.diff_map()[a].terms().len() as int) {
                    Some(m) => if signed.spec_add_assign_refused(&m) {
                        None
                    } else {
                        Some(signed.spec_add_assign_result(&m))
                    },
                    None => None,
                }
            } else {
                Some(signed)
            },
        )
    }

    /// The matrix operations compute exactly what their specifications say.
    pub open spec fn exact_ops<C: Ring + Copy>(self) -> bool where M: Mul<C, Output = M> + Neg<Output = M> {
        &&& clone_exact::<M>()
        &&& M::obeys_chain_spec()
        &&& M::obeys_neg_spec()
        &&& M::obeys_mul_spec()
        &&& M::obeys_add_assign_spec()
        &&& exact_matrices(self.spec_rep().identity())
    }

    /// The two sides of the Leibniz condition at the arrow `a`, where they
    /// can be formed.
    fn sides_at<C: Ring + Copy>(&self, dga: &GradedDifferentialQuiver<C, OP_ALG>, a: &String) -> (r: Option<(M, M)>) where
        M: Mul<C, Output = M> + Neg<Output = M>,
        requires
            self.spec_rep().wf(),
            dga.wf(),
            dga.spec_quiver() == self.spec_rep().spec_quiver(),
            self.spec_rep().spec_quiver().has_arrow(a@),
            chain_total::<M>(),
            clone_exact::<M>(),
            forall|v: Seq<char>|
                #[trigger] self.spec_rep().spec_quiver().has_vertex(v) ==> self.diff_map().contains_key(v),
            ({
                let q = self.spec_rep().spec_quiver();
                &&& self.spec_rep().edge_map()[a@].spec_composes(&self.diff_map()[target_label(q, a@)])
                &&& self.diff_map()[source_label(q, a@)].spec_composes(&self.spec_rep().edge_map()[a@])
            }),
            dga.diff_map().contains_key(a@) ==> terms_parallel(dga.spec_quiver(), dga.diff_map()[a@].terms()),
            forall|m: M, c: C| #[trigger] m.mul_req(c),
            forall|x: M, y: M| #[trigger] x.spec_add_assign_allowed(&y),
            forall|m: M| #[trigger] m.neg_req(),
            self.exact_ops::<C>() ==> self.leibniz_sides(*dga, a@).1 is Some,
        ensures
            self.exact_ops::<C>() ==> r is Some && r.unwrap().0 == self.leibniz_sides(*dga, a@).0 && r.unwrap().1
                == self.leibniz_sides(*dga, a@).1.unwrap(),
    {
        let ghost q = self.spec_rep().spec_quiver();
        let ghost av = a@;
        let ghost exact = self.exact_ops::<C>();
        let quiver = self.rep.quiver();
        let (src, tgt) = match quiver.edge_endpoint_labels(a) {
            Some(p) => p,
            None => {
                return vstd::pervasive::unreached();
            },
        };
        assert(src@ == source_label(q, av) && tgt@ == target_label(q, av));
        proof {
            lemma_arrow_ends(q, av);
        }
        let rho_a = match self.rep.get_edge_rep(a) {
            Some(m) => copy_of(m),
            None => {
                return vstd::pervasive::unreached();
            },
        };
        let delta_src = match self.vertex_differential(&src) {
            Some(m) => copy_of(m),
            None => {
                return vstd::pervasive::unreached();
            },
        };
        let delta_tgt = match self.vertex_differential(&tgt) {
            Some(m) => copy_of(m),
            None => {
                return vstd::pervasive::unreached();
            },
        };
        let rho_b = copy_of(&rho_a);
        let lhs = match rho_a.mul_two(delta_tgt) {
            Ok(m) => m,
            Err(_) => {
                return vstd::pervasive::unreached();
            },
        };
        let base = match delta_src.mul_two(rho_b) {
            Ok(m) => m,
            Err(_) => {
                return vstd::pervasive::unreached();
            },
        };
        let deg = dga.degree_of(a);
        let mut rhs = if deg % 2 != 0 {
            base.neg()
        } else {
            base
        };
        let mut formed = true;
        match dga.differential_of(a) {
            Some(da) => {
                if da.might_be_nonzero() {
                    match self.rep.mat_from_path_algebra(da.clone()) {
                        Ok(rho_da) => {
                            match rhs.checked_add_assign(rho_da) {
                                Ok(()) => {},
                                Err(_) => {
                                    formed = false;
                                },
                            }
                        },
                        Err(_) => {
                            formed = false;
                        },
                    }
                }
            },
            None => {},
        }
        proof {
            if exact {
                assert(formed);
                assert(lhs == self.leibniz_sides(*dga, av).0);
                assert(rhs == self.leibniz_sides(*dga, av).1.unwrap());
            }
        }
        if formed {
            Some((lhs, rhs))
        } else {
            None
        }
    }

    /// Checks the Leibniz compatibility with the differential of `dga` at
    /// each arrow `a`:
    /// `d_{M,t(a)} rho(a) == (-1)^|a| rho(a) d_{M,s(a)} + rho(d(a))`, the two
    /// sides compared by `matrix_close_enough`. Returns the arrows where the
    /// check fails, in the order the arrows are visited.
    pub fn leibniz_compatible<C: Ring + Copy, K: Fn(&M, &M) -> bool>(
        &self,
        dga: &GradedDifferentialQuiver<C, OP_ALG>,
        matrix_close_enough: K,
    ) -> (r: Vec<String>) where M: Mul<C, Output = M> + Neg<Output = M>
        requires
            self.spec_rep().wf(),
            dga.wf(),
            dga.spec_quiver() == self.spec_rep().spec_quiver(),
            chain_total::<M>(),
            clone_exact::<M>(),
            forall|v: Seq<char>|
                #[trigger] self.spec_rep().spec_quiver().has_vertex(v) ==> self.diff_map().contains_key(v),
            forall|a: Seq<char>|
                #[trigger] self.spec_rep().spec_quiver().has_arrow(a) ==> {
                    let q = self.spec_rep().spec_quiver();
                    &&& self.spec_rep().edge_map()[a].spec_composes(&self.diff_map()[target_label(q, a)])
                    &&& self.diff_map()[source_label(q, a)].spec_composes(&self.spec_rep().edge_map()[a])
                },
            forall|a: Seq<char>|
                #[trigger] dga.diff_map().contains_key(a) ==> terms_parallel(
                    dga.spec_quiver(),
                    dga.diff_map()[a].terms(),
                ),
            forall|m: M, c: C| #[trigger] m.mul_req(c),
            forall|x: M, y: M| #[trigger] x.spec_add_assign_allowed(&y),
            forall|m: M| #[trigger] m.neg_req(),
            forall|x: &M, y: &M| #[trigger] call_requires(matrix_close_enough, (x, y)),
            self.exact_ops::<C>() ==> forall|a: Seq<char>|
                #[trigger] self.spec_rep().spec_quiver().has_arrow(a) ==> self.leibniz_sides(*dga, a).1 is Some,
        ensures
            exists|order: Seq<Seq<char>>, results: Seq<bool>|
                {
                    &&& order.no_duplicates()
                    &&& forall|a: Seq<char>|
                        #[trigger] order.contains(a) <==> self.spec_rep().spec_quiver().has_arrow(a)
                    &&& results.len() == order.len()
                    &&& self.exact_ops::<C>() ==> forall|k: int|
                        0 <= k < order.len() ==> call_ensures(
                            matrix_close_enough,
                            (&self.leibniz_sides(*dga, order[k]).0, &self.leibniz_sides(*dga, order[k]).1.unwrap()),
                            #[trigger] results[k],
                        )
                    &&& r.deep_view() == refused_among(order, results, order.len() as int)
                },
    {
        let ghost q = self.spec_rep().spec_quiver();
        let ghost exact = self.exact_ops::<C>();
        let quiver = self.rep.quiver();
        let labels = quiver.edge_labels();
        let ghost order = labels.deep_view();
        let ghost mut results: Seq<bool> = Seq::empty();
        let mut failing: Vec<String> = Vec::new();
        let mut k: usize = 0;
        while k < labels.len()
            invariant
                q == self.spec_rep().spec_quiver(),
                **quiver == q,
                exact == self.exact_ops::<C>(),
                order == labels.deep_view(),
                order.len() == labels@.len(),
                self.spec_rep().wf(),
                dga.wf(),
                dga.spec_quiver() == q,
                chain_total::<M>(),
                clone_exact::<M>(),
                forall|v: Seq<char>| #[trigger] q.has_vertex(v) ==> self.diff_map().contains_key(v),
                forall|a: Seq<char>|
                    #[trigger] q.has_arrow(a) ==> {
                        &&& self.spec_rep().edge_map()[a].spec_composes(&self.diff_map()[target_label(q, a)])
                        &&& self.diff_map()[source_label(q, a)].spec_composes(&self.spec_rep().edge_map()[a])
                    },
                forall|a: Seq<char>|
                    #[trigger] dga.diff_map().contains_key(a) ==> terms_parallel(q, dga.diff_map()[a].terms()),
                forall|m: M, c: C| #[trigger] m.mul_req(c),
                forall|x: M, y: M| #[trigger] x.spec_add_assign_allowed(&y),
                forall|m: M| #[trigger] m.neg_req(),
                forall|x: &M, y: &M| #[trigger] call_requires(matrix_close_enough, (x, y)),
                exact ==> forall|a: Seq<char>| #[trigger] q.has_arrow(a) ==> self.leibniz_sides(*dga, a).1 is Some,
                forall|a: Seq<char>| #[trigger] order.contains(a) <==> q.has_arrow(a),
                k <= order.len(),
                results.len() == k,
                exact ==> forall|j: int|
                    0 <= j < k ==> call_ensures(
                        matrix_close_enough,
                        (&self.leibniz_sides(*dga, order[j]).0, &self.leibniz_sides(*dga, order[j]).1.unwrap()),
                        #[trigger] results[j],
                    ),
                failing.deep_view() == refused_among(order, results, k as int),
            decreases order.len() - k,
        {
            let a = &labels[k];
            let ghost av = a@;
            assert(order[k as int] == av);
            assert(order.contains(av));
            assert(q.has_arrow(av));
            let sides = self.sides_at(dga, a);
            let ok = match &sides {
                Some(p) => matrix_close_enough(&p.0, &p.1),
                None => false,
            };
            proof {
                if exact {
                    assert(sides is Some);
                }
            }
            let ghost before = failing.deep_view();
            if !ok {
                failing.push(a.clone());
                assert(failing.deep_view() =~= before.push(av));
            }
            proof {
                lemma_refused_prefix(order, results, ok, k as int);
                results = results.push(ok);
            }
            k = k + 1;
        }
        proof {
            assert(labels.deep_view().no_duplicates());
        }
        failing
    }

    /// Checks that `d_M^2 = 0` at every vertex: the labels of the vertices
    /// where `matrix_is_zero` refuses the square, in the order of the entries.
    pub fn differential_squares_zero<Z: Fn(&M) -> bool>(&self, matrix_is_zero: Z) -> (r: Vec<String>)
        requires
            chain_total::<M>(),
            forall|k: int|
                0 <= k < self.differentials().len() ==> (#[trigger] self.differentials()[k]).1.spec_composes(
                    &self.differentials()[k].1,
                ),
            forall|m: &M| #[trigger] call_requires(matrix_is_zero, (m,)),
            clone_exact::<M>(),
        ensures
            exists|results: Seq<bool>|
                square_checks(matrix_is_zero, self.differentials(), results) && r.deep_view() == flagged(
                    self.differentials(),
                    results,
                    self.differentials().len() as int,
                ),
    {
        assert(self.differentials() == self.vertex_differentials@);
        assert forall|k: int| 0 <= k < self.vertex_differentials@.len() implies (
        #[trigger] self.vertex_differentials@[k]).1.spec_composes(&self.vertex_differentials@[k].1) by {
            assert(self.differentials()[k] == self.vertex_differentials@[k]);
        }
        Self::squares_failing(&self.vertex_differentials, matrix_is_zero)
    }

    /// The labels of the entries whose square `matrix_is_zero` refuses.
    fn squares_failing<Z: Fn(&M) -> bool>(entries: &Vec<(String, M)>, matrix_is_zero: Z) -> (r: Vec<String>)
        requires
            chain_total::<M>(),
            forall|k: int| 0 <= k < entries@.len() ==> (#[trigger] entries@[k]).1.spec_composes(&entries@[k].1),
            forall|m: &M| #[trigger] call_requires(matrix_is_zero, (m,)),
            clone_exact::<M>(),
        ensures
            exists|results: Seq<bool>|
                square_checks(matrix_is_zero, entries@, results) && r.deep_view() == flagged(
                    entries@,
                    results,
                    entries@.len() as int,
                ),
    {
        let ghost es = entries@;
        let ghost mut results: Seq<bool> = Seq::empty();
        let mut failing: Vec<String> = Vec::new();
        let mut k: usize = 0;
        while k < entries.len()
            invariant
                es == entries@,
                chain_total::<M>(),
                forall|j: int| 0 <= j < es.len() ==> (#[trigger] es[j]).1.spec_composes(&es[j].1),
                forall|m: &M| #[trigger] call_requires(matrix_is_zero, (m,)),
                clone_exact::<M>(),
                k <= es.len(),
                results.len() == k,
                forall|j: int|
                    0 <= j < k ==> M::obeys_chain_spec() ==> call_ensures(
                        matrix_is_zero,
                        (&squared(es[j].1),),
                        #[trigger] results[j],
                    ),
                failing.deep_view() == flagged(es, results, k as int),
            decreases es.len() - k,
        {
            let d1 = copy_of(&entries[k].1);
            let d2 = copy_of(&entries[k].1);
            assert(es[k as int] == entries@[k as int]);
            let sq = match d1.mul_two(d2) {
                Ok(m) => m,
                Err(_) => {
                    proof {
                        assert(es[k as int].1.spec_composes(&es[k as int].1));
                    }
                    return vstd::pervasive::unreached();
                },
            };
            let ok = matrix_is_zero(&sq);
            let ghost before = failing.deep_view();
            if !ok {
                failing.push(entries[k].0.clone());
                assert(failing.deep_view() =~= before.push(es[k as int].0@));
            }
            proof {
                lemma_flagged_prefix(es, results, ok, k as int);
                results = results.push(ok);
            }
            k = k + 1;
        }
        assert(square_checks(matrix_is_zero, es, results));
        assert(failing.deep_view() == flagged(es, results, es.len() as int));
        failing
    }
}

} // verus!

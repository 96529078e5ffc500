//! The Hochschild cochain complex of a monomial algebra: the cochain basis in
//! each degree (a vertex or chain paired with a parallel basis element of the
//! algebra), the matrices of the differential, and the cohomology dimensions.
use crate::checked_arith::{Field, exact_field, matrix_rank, rank, ring_ops_total, rows_cover_first, rows_view};
use crate::hochschild::{
    Chain, ChainView, CochainAnchor, HochschildError, MonomialQuiverAlgebraHH, SubchainView, all_extensions, arrow_chains,
    arrow_subchains, basis_complete, basis_overflows, chains_complete, chains_equal, cut_around, even_subchains,
    extension, extensions, idempotents, lemma_dedup_subset, next_chains, overlaps_upto, spec_subchains,
    subchains_view, valid_history, without,
};
use crate::quiver::{BasisElt, BasisView, Quiver};
use crate::quiver_with_mon_rels::{QuiverWithMonomialRelations, dedup_first, spec_algebra_product};
use std::collections::HashMap;
use vstd::prelude::*;
use vstd::std_specs::ops::{AddSpec, SubSpec};

verus! {

/// A basis element of a cochain space: where it is anchored and the position
/// of its value in the basis of the algebra.
pub type CochainBasis = (CochainAnchor, usize);

/// Every label of the word `w` is an arrow of `q`.
pub open spec fn word_of_arrows(q: Quiver, w: Seq<Seq<char>>) -> bool {
    forall|i: int| 0 <= i < w.len() ==> q.has_arrow(#[trigger] w[i])
}

/// Every relation of `rs` is a word of arrows of `q`.
pub open spec fn rels_are_words_of_arrows(q: Quiver, rs: Seq<Seq<Seq<char>>>) -> bool {
    forall|k: int| 0 <= k < rs.len() ==> word_of_arrows(q, #[trigger] rs[k])
}

/// A chain whose relations form a valid history of its word of arrows.
pub open spec fn chain_ok(q: Quiver, c: ChainView) -> bool {
    valid_history(c.0, c.1) && word_of_arrows(q, c.0)
}

/// Every chain of `cs` is well formed.
pub open spec fn all_chains_ok(q: Quiver, cs: Seq<ChainView>) -> bool {
    forall|i: int| 0 <= i < cs.len() ==> chain_ok(q, #[trigger] cs[i])
}

/// Extending a well-formed chain by a word of arrows gives a well-formed chain.
proof fn lemma_extension_ok(q: Quiver, c: ChainView, r: Seq<Seq<char>>, overlap: int, m: int)
    requires
        chain_ok(q, c),
        word_of_arrows(q, r),
        0 <= overlap <= r.len(),
    ensures
        extension(c, r, overlap, m) matches Some(x) ==> chain_ok(q, x),
{
    if let Some(x) = extension(c, r, overlap, m) {
        let nw = c.0 + r.subrange(overlap, r.len() as int);
        assert(x.0 == nw);
        assert forall|i: int| 0 <= i < nw.len() implies q.has_arrow(#[trigger] nw[i]) by {
            if i < c.0.len() {
                assert(nw[i] == c.0[i]);
            } else {
                assert(nw[i] == r[overlap + i - c.0.len()]);
            }
        }
    }
}

/// The extensions with overlaps below `hi` of a well-formed chain are well formed.
proof fn lemma_overlaps_ok(q: Quiver, c: ChainView, r: Seq<Seq<char>>, hi: int, m: int)
    requires
        chain_ok(q, c),
        word_of_arrows(q, r),
        hi <= r.len(),
    ensures
        all_chains_ok(q, overlaps_upto(c, r, hi, m)),
    decreases hi,
{
    if hi > 1 {
        lemma_overlaps_ok(q, c, r, hi - 1, m);
        lemma_extension_ok(q, c, r, hi - 1, m);
        let a = overlaps_upto(c, r, hi - 1, m);
        let b = crate::hochschild::opt_seq(extension(c, r, hi - 1, m));
        assert forall|i: int| 0 <= i < (a + b).len() implies chain_ok(q, #[trigger] (a + b)[i]) by {
            if i >= a.len() {
                assert((a + b)[i] == b[i - a.len()]);
            }
        }
    }
}

/// The extensions of a well-formed chain by words of arrows are well formed.
proof fn lemma_extensions_ok(q: Quiver, c: ChainView, rs: Seq<Seq<Seq<char>>>, m: int)
    requires
        chain_ok(q, c),
        rels_are_words_of_arrows(q, rs),
    ensures
        all_chains_ok(q, extensions(c, rs, m)),
    decreases rs.len(),
{
    if rs.len() > 0 {
        assert(rels_are_words_of_arrows(q, rs.drop_last())) by {
            assert forall|k: int| 0 <= k < rs.drop_last().len() implies word_of_arrows(
                q,
                #[trigger] rs.drop_last()[k],
            ) by {
                assert(rs.drop_last()[k] == rs[k]);
            }
        }
        assert(word_of_arrows(q, rs[rs.len() - 1]));
        lemma_extensions_ok(q, c, rs.drop_last(), m);
        lemma_overlaps_ok(q, c, rs.last(), rs.last().len() as int, m);
        let a = extensions(c, rs.drop_last(), m);
        let b = overlaps_upto(c, rs.last(), rs.last().len() as int, m);
        assert forall|i: int| 0 <= i < (a + b).len() implies chain_ok(q, #[trigger] (a + b)[i]) by {
            if i >= a.len() {
                assert((a + b)[i] == b[i - a.len()]);
            }
        }
    }
}

/// The extensions of well-formed chains by words of arrows are well formed.
proof fn lemma_all_extensions_ok(q: Quiver, cs: Seq<ChainView>, rs: Seq<Seq<Seq<char>>>, m: int)
    requires
        all_chains_ok(q, cs),
        rels_are_words_of_arrows(q, rs),
    ensures
        all_chains_ok(q, all_extensions(cs, rs, m)),
    decreases cs.len(),
{
    if cs.len() > 0 {
        assert(all_chains_ok(q, cs.drop_last())) by {
            assert forall|i: int| 0 <= i < cs.drop_last().len() implies chain_ok(q, #[trigger] cs.drop_last()[i]) by {
                assert(cs.drop_last()[i] == cs[i]);
            }
        }
        assert(chain_ok(q, cs[cs.len() - 1]));
        lemma_all_extensions_ok(q, cs.drop_last(), rs, m);
        lemma_extensions_ok(q, cs.last(), rs, m);
        let a = all_extensions(cs.drop_last(), rs, m);
        let b = extensions(cs.last(), rs, m);
        assert forall|i: int| 0 <= i < (a + b).len() implies chain_ok(q, #[trigger] (a + b)[i]) by {
            if i >= a.len() {
                assert((a + b)[i] == b[i - a.len()]);
            }
        }
    }
}

/// In every positive degree the chains are well formed: their relations form
/// a valid history of their words, which are words of arrows.
pub(crate) proof fn lemma_chains_ok(
    q: Quiver,
    ap: Seq<Seq<ChainView>>,
    arrows: Seq<Seq<char>>,
    rs: Seq<Seq<Seq<char>>>,
    m: int,
    d: int,
)
    requires
        chains_complete(ap, arrows, rs, m),
        forall|a: Seq<char>| #[trigger] arrows.contains(a) ==> q.has_arrow(a),
        rels_are_words_of_arrows(q, rs),
        1 <= d < ap.len(),
    ensures
        all_chains_ok(q, ap[d]),
    decreases d,
{
    if d == 1 {
        assert forall|i: int| 0 <= i < ap[1].len() implies chain_ok(q, #[trigger] ap[1][i]) by {
            assert(ap[1][i] == (seq![arrows[i]], Seq::<(usize, Seq<Seq<char>>)>::empty()));
            assert(arrows.contains(arrows[i]));
        }
    } else if d == 2 {
        assert forall|i: int| 0 <= i < ap[2].len() implies chain_ok(q, #[trigger] ap[2][i]) by {
            let r = rs[i];
            assert(ap[2][i] == (r, seq![(0usize, r)]));
            assert(word_of_arrows(q, r));
            assert(r.subrange(0, r.len() as int) =~= r);
        }
    } else {
        lemma_chains_ok(q, ap, arrows, rs, m, d - 1);
        let prev = ap[d - 1];
        assert(ap[(d - 1) + 1] == next_chains(prev, rs, m));
        lemma_all_extensions_ok(q, prev, rs, m);
        let all = all_extensions(prev, rs, m);
        lemma_dedup_subset(all);
        assert forall|i: int| 0 <= i < ap[d].len() implies chain_ok(q, #[trigger] ap[d][i]) by {
            assert(next_chains(prev, rs, m).contains(ap[d][i]));
            assert(all.contains(ap[d][i]));
            let k = choose|k: int| 0 <= k < all.len() && all[k] == ap[d][i];
            assert(chain_ok(q, all[k]));
        }
    }
}

/// The positions below `n` of the basis elements of `basis` whose ends are
/// `ends`, in increasing order (none where `ends` is `None`).
pub open spec fn parallel_upto(
    q: Quiver,
    basis: Seq<BasisView>,
    ends: Option<(Seq<char>, Seq<char>)>,
    n: int,
) -> Seq<usize>
    decreases n,
{
    if n <= 0 {
        Seq::empty()
    } else {
        let prev = parallel_upto(q, basis, ends, n - 1);
        if ends is Some && q.spec_basis_ends(basis[n - 1]) == ends {
            prev.push((n - 1) as usize)
        } else {
            prev
        }
    }
}

/// The basis elements `anchor` paired with each of the positions `outs`.
pub open spec fn anchored(anchor: CochainAnchor, outs: Seq<usize>) -> Seq<CochainBasis> {
    outs.map_values(|o: usize| (anchor, o))
}

/// The degree-0 cochain basis from the first `n` basis elements: each
/// idempotent, anchored at its position, with each basis element parallel to it.
pub open spec fn vertex_cochains(q: Quiver, basis: Seq<BasisView>, n: int) -> Seq<CochainBasis>
    decreases n,
{
    if n <= 0 {
        Seq::empty()
    } else {
        vertex_cochains(q, basis, n - 1) + if basis[n - 1].0 {
            anchored(
                CochainAnchor::Vertex((n - 1) as usize),
                parallel_upto(q, basis, q.spec_basis_ends(basis[n - 1]), basis.len() as int),
            )
        } else {
            Seq::<CochainBasis>::empty()
        }
    }
}

/// The cochain basis from the first `n` chains `cs`: each chain, anchored at
/// its position, with each basis element parallel to its word.
pub open spec fn chain_cochains(q: Quiver, basis: Seq<BasisView>, cs: Seq<ChainView>, n: int) -> Seq<CochainBasis>
    decreases n,
{
    if n <= 0 {
        Seq::empty()
    } else {
        chain_cochains(q, basis, cs, n - 1) + anchored(
            CochainAnchor::Chain((n - 1) as usize),
            parallel_upto(q, basis, q.spec_path_ends(cs[n - 1].0), basis.len() as int),
        )
    }
}

/// The basis of the Hochschild cochains of degree `degree`, for the algebra
/// basis `basis` and the chains `chains` by degree.
pub open spec fn spec_cochain_basis(
    q: Quiver,
    basis: Seq<BasisView>,
    chains: Seq<Seq<ChainView>>,
    degree: int,
) -> Seq<CochainBasis> {
    if degree == 0 {
        vertex_cochains(q, basis, basis.len() as int)
    } else if 0 < degree < chains.len() {
        chain_cochains(q, basis, chains[degree], chains[degree].len() as int)
    } else {
        Seq::empty()
    }
}

/// The view of a pair of labels.
pub open spec fn ends_view(o: Option<(String, String)>) -> Option<(Seq<char>, Seq<char>)> {
    match o {
        Some((s, t)) => Some((s@, t@)),
        None => None,
    }
}

impl<Scalar: Field> MonomialQuiverAlgebraHH<Scalar> {
    /// The positions of the basis elements whose ends are `ends`.
    fn parallel_basis_outputs(&self, ends: &Option<(String, String)>) -> (r: Vec<usize>)
        requires
            self.algebra().wf(),
        ensures
            r@ == parallel_upto(
                self.algebra().spec_quiver(),
                self.basis_state().1,
                ends_view(*ends),
                self.basis_state().1.len() as int,
            ),
    {
        let ghost q = self.algebra().spec_quiver();
        let ghost bv = self.basis_state().1;
        let basis = self.view_basis();
        let algebra = self.algebra_ref();
        let mut out: Vec<usize> = Vec::new();
        let mut i: usize = 0;
        while i < basis.len()
            invariant
                bv == basis@.map_values(|b: crate::quiver::BasisElt| b@),
                *algebra == self.algebra(),
                algebra.wf(),
                q == algebra.spec_quiver(),
                i <= basis@.len(),
                out@ == parallel_upto(q, bv, ends_view(*ends), i as int),
            decreases basis@.len() - i,
        {
            assert(bv[i as int] == basis@[i as int]@);
            match ends {
                Some((s, t)) => {
                    match algebra.basis_endpoints(&basis[i]) {
                        Some((bs, bt)) => {
                            if bs == *s && bt == *t {
                                out.push(i);
                            }
                        },
                        None => {},
                    }
                },
                None => {},
            }
            i = i + 1;
        }
        out
    }

    /// The cochain basis of degree `degree`: in degree 0 each vertex with the
    /// basis elements parallel to its idempotent, above that each chain of
    /// that degree with the basis elements parallel to its word. Builds the
    /// basis (with at most 100,000 admissible paths) and the chains first.
    pub fn cochain_basis(&mut self, degree: usize) -> (r: Vec<CochainBasis>)
        requires
            old(self).wf(),
            old(self).basis_state().0 || !basis_overflows(old(self).algebra(), 100_000),
        ensures
            final(self).wf(),
            final(self).algebra() == old(self).algebra(),
            final(self).max_wordlen() == old(self).max_wordlen(),
            final(self).basis_state().0,
            final(self).has_chains(),
            old(self).basis_state().0 ==> final(self).basis_state() == old(self).basis_state(),
            old(self).has_chains() ==> final(self).chains() == old(self).chains(),
            r@ == spec_cochain_basis(
                final(self).algebra().spec_quiver(),
                final(self).basis_state().1,
                final(self).chains(),
                degree as int,
            ),
    {
        match self.build_basis(100_000) {
            Ok(()) => {},
            Err(_) => {
                assert(false);
            },
        }
        self.build_chains();
        let ghost q = self.algebra().spec_quiver();
        let ghost bv = self.basis_state().1;
        let mut out: Vec<CochainBasis> = Vec::new();
        if degree == 0 {
            let basis = self.view_basis();
            let algebra = self.algebra_ref();
            let mut i: usize = 0;
            while i < basis.len()
                invariant
                    bv == basis@.map_values(|b: crate::quiver::BasisElt| b@),
                    bv == self.basis_state().1,
                    *algebra == self.algebra(),
                    algebra.wf(),
                    q == algebra.spec_quiver(),
                    i <= basis@.len(),
                    out@ == vertex_cochains(q, bv, i as int),
                decreases basis@.len() - i,
            {
                assert(bv[i as int] == basis@[i as int]@);
                let ghost before = out@;
                match &basis[i] {
                    crate::quiver::BasisElt::Idempotent(_) => {
                        let ends = algebra.basis_endpoints(&basis[i]);
                        let outs = self.parallel_basis_outputs(&ends);
                        let mut k: usize = 0;
                        while k < outs.len()
                            invariant
                                k <= outs@.len(),
                                out@ == before + anchored(CochainAnchor::Vertex(i), outs@.take(k as int)),
                            decreases outs@.len() - k,
                        {
                            out.push((CochainAnchor::Vertex(i), outs[k]));
                            assert(anchored(CochainAnchor::Vertex(i), outs@.take(k + 1)) =~= anchored(
                                CochainAnchor::Vertex(i),
                                outs@.take(k as int),
                            ).push((CochainAnchor::Vertex(i), outs@[k as int])));
                            k = k + 1;
                        }
                        assert(outs@.take(k as int) =~= outs@);
                        assert(ends_view(ends) == q.spec_basis_ends(bv[i as int]));
                    },
                    crate::quiver::BasisElt::Path(_) => {
                        assert(out@ =~= before + Seq::<CochainBasis>::empty());
                    },
                }
                i = i + 1;
            }
            return out;
        }
        let ghost cs = self.chains();
        match self.chains_in_degree(degree) {
            Some(chains) => {
                let algebra = self.algebra_ref();
                let mut ci: usize = 0;
                while ci < chains.len()
                    invariant
                        bv == self.basis_state().1,
                        cs == self.chains(),
                        0 < degree < cs.len(),
                        crate::hochschild::chains_view(chains@) == cs[degree as int],
                        *algebra == self.algebra(),
                        algebra.wf(),
                        q == algebra.spec_quiver(),
                        ci <= chains@.len(),
                        out@ == chain_cochains(q, bv, cs[degree as int], ci as int),
                    decreases chains@.len() - ci,
                {
                    assert(cs[degree as int][ci as int] == chains@[ci as int]@);
                    let ghost before = out@;
                    let ends = algebra.path_source_target(chains[ci].word.as_slice());
                    let outs = self.parallel_basis_outputs(&ends);
                    let mut k: usize = 0;
                    while k < outs.len()
                        invariant
                            k <= outs@.len(),
                            out@ == before + anchored(CochainAnchor::Chain(ci), outs@.take(k as int)),
                        decreases outs@.len() - k,
                    {
                        out.push((CochainAnchor::Chain(ci), outs[k]));
                        assert(anchored(CochainAnchor::Chain(ci), outs@.take(k + 1)) =~= anchored(
                            CochainAnchor::Chain(ci),
                            outs@.take(k as int),
                        ).push((CochainAnchor::Chain(ci), outs@[k as int])));
                        k = k + 1;
                    }
                    assert(outs@.take(k as int) =~= outs@);
                    assert(ends_view(ends) == q.spec_path_ends(cs[degree as int][ci as int].0));
                    ci = ci + 1;
                }
                out
            },
            None => {
                assert(out@ =~= spec_cochain_basis(q, bv, cs, degree as int));
                out
            },
        }
    }

    /// The dimension of the cochain space of degree `degree`.
    pub fn cochain_dim(&mut self, degree: usize) -> (r: usize)
        requires
            old(self).wf(),
            old(self).basis_state().0 || !basis_overflows(old(self).algebra(), 100_000),
        ensures
            final(self).wf(),
            final(self).algebra() == old(self).algebra(),
            final(self).max_wordlen() == old(self).max_wordlen(),
            final(self).basis_state().0,
            final(self).has_chains(),
            old(self).basis_state().0 ==> final(self).basis_state() == old(self).basis_state(),
            old(self).has_chains() ==> final(self).chains() == old(self).chains(),
            r == spec_cochain_basis(
                final(self).algebra().spec_quiver(),
                final(self).basis_state().1,
                final(self).chains(),
                degree as int,
            ).len(),
    {
        self.cochain_basis(degree).len()
    }
}


/// A basis element that can stand next to an arrow in a product: an
/// idempotent is that of a vertex of `q`.
pub open spec fn basis_ok(q: Quiver, b: BasisView) -> bool {
    b.0 ==> b.1.len() == 1 && q.has_vertex(b.1[0])
}

/// Every entry of the basis of a built algebra can stand in a product.
proof fn lemma_basis_ok(a: QuiverWithMonomialRelations, basis: Seq<BasisView>, paths: Seq<Seq<Seq<char>>>)
    requires
        basis_complete(a, basis, paths),
    ensures
        forall|j: int| 0 <= j < basis.len() ==> basis_ok(a.spec_quiver(), #[trigger] basis[j]),
{
    let vs = choose|vs: Seq<Seq<char>>|
        #![trigger idempotents(vs)]
        vs.no_duplicates() && (forall|v: Seq<char>| #[trigger] vs.contains(v) <==> a.spec_quiver().has_vertex(v))
            && basis == idempotents(vs) + paths.map_values(|w: Seq<Seq<char>>| (false, w));
    assert forall|j: int| 0 <= j < basis.len() implies basis_ok(a.spec_quiver(), #[trigger] basis[j]) by {
        if j < vs.len() {
            assert(basis[j] == idempotents(vs)[j]);
            assert(vs.contains(vs[j]));
        } else {
            assert(basis[j] == paths.map_values(|w: Seq<Seq<char>>| (false, w))[j - vs.len()]);
        }
    }
}

/// Every label of `x` is a label of `w`.
pub open spec fn within_word(x: Seq<Seq<char>>, w: Seq<Seq<char>>) -> bool {
    forall|i: int| 0 <= i < x.len() ==> w.contains(#[trigger] x[i])
}

/// The outer words of each decomposition in `ts` are made of labels of `w`.
pub open spec fn terms_within(ts: Seq<SubchainView>, w: Seq<Seq<char>>) -> bool {
    forall|k: int| 0 <= k < ts.len() ==> within_word((#[trigger] ts[k]).0, w) && within_word(ts[k].2, w)
}

proof fn lemma_subrange_within(w: Seq<Seq<char>>, lo: int, hi: int)
    requires
        0 <= lo <= hi <= w.len(),
    ensures
        within_word(w.subrange(lo, hi), w),
{
    assert forall|i: int| 0 <= i < w.subrange(lo, hi).len() implies w.contains(#[trigger] w.subrange(lo, hi)[i]) by {
        assert(w[lo + i] == w.subrange(lo, hi)[i]);
    }
}

proof fn lemma_concat_within(a: Seq<SubchainView>, b: Seq<SubchainView>, w: Seq<Seq<char>>)
    requires
        terms_within(a, w),
        terms_within(b, w),
    ensures
        terms_within(a + b, w),
{
    assert forall|k: int| 0 <= k < (a + b).len() implies within_word((#[trigger] (a + b)[k]).0, w) && within_word(
        (a + b)[k].2,
        w,
    ) by {
        if k >= a.len() {
            assert((a + b)[k] == b[k - a.len()]);
        }
    }
}

proof fn lemma_arrow_subchains_within(w: Seq<Seq<char>>, n: int)
    requires
        n <= w.len(),
    ensures
        terms_within(arrow_subchains(w, n), w),
    decreases n,
{
    if n > 0 {
        lemma_arrow_subchains_within(w, n - 1);
        lemma_subrange_within(w, 0, n - 1);
        lemma_subrange_within(w, n, w.len() as int);
        let prev = arrow_subchains(w, n - 1);
        let t = (w.subrange(0, n - 1), (seq![w[n - 1]], Seq::<(usize, Seq<Seq<char>>)>::empty()), w.subrange(n, w.len() as int));
        assert(arrow_subchains(w, n) == prev.push(t));
        assert forall|k: int| 0 <= k < prev.push(t).len() implies within_word((#[trigger] prev.push(t)[k]).0, w)
            && within_word(prev.push(t)[k].2, w) by {
            if k < prev.len() {
                assert(prev.push(t)[k] == prev[k]);
            }
        }
    }
}

proof fn lemma_cut_around_within(
    known: Seq<ChainView>,
    w: Seq<Seq<char>>,
    sel: Seq<(usize, Seq<Seq<char>>)>,
    start: int,
    end: int,
)
    requires
        0 <= start <= w.len(),
        0 <= end <= w.len(),
    ensures
        terms_within(cut_around(known, w, sel, start, end), w),
{
    lemma_subrange_within(w, 0, start);
    lemma_subrange_within(w, end, w.len() as int);
}

proof fn lemma_even_within(known: Seq<ChainView>, w: Seq<Seq<char>>, rels: Seq<(usize, Seq<Seq<char>>)>, n: int)
    requires
        valid_history(w, rels),
        n <= rels.len(),
    ensures
        terms_within(even_subchains(known, w, rels, n), w),
    decreases n,
{
    if n > 0 {
        lemma_even_within(known, w, rels, n - 1);
        let sel = without(rels, n - 1);
        if sel.len() == 0 {
            assert(even_subchains(known, w, rels, n) =~= even_subchains(known, w, rels, n - 1));
        } else {
            let i0 = if n - 1 == 0 {
                1int
            } else {
                0
            };
            let il = if n - 1 == rels.len() - 1 {
                rels.len() - 2
            } else {
                rels.len() - 1
            };
            assert(sel[0] == rels[i0]);
            assert(sel.last() == rels[il]);
            assert(rels[i0].0 + rels[i0].1.len() <= w.len());
            assert(rels[il].0 + rels[il].1.len() <= w.len());
            lemma_cut_around_within(known, w, sel, sel[0].0 as int, sel.last().0 + sel.last().1.len());
            lemma_concat_within(
                even_subchains(known, w, rels, n - 1),
                cut_around(known, w, sel, sel[0].0 as int, sel.last().0 + sel.last().1.len()),
                w,
            );
        }
    }
}

proof fn lemma_dedup_within(ts: Seq<SubchainView>, w: Seq<Seq<char>>)
    requires
        terms_within(ts, w),
    ensures
        terms_within(dedup_first(ts), w),
{
    lemma_dedup_subset(ts);
    let d = dedup_first(ts);
    assert forall|k: int| 0 <= k < d.len() implies within_word((#[trigger] d[k]).0, w) && within_word(d[k].2, w) by {
        assert(d.contains(d[k]));
        let j = choose|j: int| 0 <= j < ts.len() && ts[j] == d[k];
        assert(within_word(ts[j].0, w));
    }
}

/// The outer words of the decompositions of a chain are made of labels of its word.
proof fn lemma_subchains_within(known: Seq<ChainView>, c: ChainView, degree: int)
    requires
        degree >= 3 ==> valid_history(c.0, c.1),
    ensures
        terms_within(spec_subchains(known, c, degree), c.0),
{
    let w = c.0;
    let rels = c.1;
    if degree <= 1 {
    } else if degree == 2 {
        lemma_arrow_subchains_within(w, w.len() as int);
    } else if degree % 2 == 1 {
        if rels.len() >= 2 {
            let n = rels.len() as int;
            assert(rels[1].0 + rels[1].1.len() <= w.len());
            assert(rels[0].0 + rels[0].1.len() <= w.len());
            assert(rels[n - 1].0 + rels[n - 1].1.len() <= w.len());
            assert(rels[n - 2].0 + rels[n - 2].1.len() <= w.len());
            let a = cut_around(known, w, rels.subrange(1, n), rels[1].0 as int, rels.last().0 + rels.last().1.len());
            let b = cut_around(
                known,
                w,
                rels.subrange(0, n - 1),
                rels[0].0 as int,
                rels[n - 2].0 + rels[n - 2].1.len(),
            );
            lemma_cut_around_within(known, w, rels.subrange(1, n), rels[1].0 as int, rels.last().0 + rels.last().1.len());
            lemma_cut_around_within(known, w, rels.subrange(0, n - 1), rels[0].0 as int, rels[n - 2].0 + rels[n - 2].1.len());
            lemma_concat_within(a, b, w);
            lemma_dedup_within(a + b, w);
        }
    } else {
        lemma_even_within(known, w, rels, rels.len() as int);
        lemma_dedup_within(even_subchains(known, w, rels, rels.len() as int), w);
    }
}

proof fn lemma_within_arrows(q: Quiver, x: Seq<Seq<char>>, w: Seq<Seq<char>>)
    requires
        within_word(x, w),
        word_of_arrows(q, w),
    ensures
        word_of_arrows(q, x),
{
    assert forall|i: int| 0 <= i < x.len() implies q.has_arrow(#[trigger] x[i]) by {
        assert(w.contains(x[i]));
        let j = choose|j: int| 0 <= j < w.len() && w[j] == x[i];
        assert(q.has_arrow(w[j]));
    }
}

/// The basis element `out` multiplied by the word `left` on the left and
/// the word `right` on the right (an empty word multiplies by nothing).
pub open spec fn term_value(
    q: Quiver,
    rels: Seq<Seq<Seq<char>>>,
    left: Seq<Seq<char>>,
    out: BasisView,
    right: Seq<Seq<char>>,
) -> Option<BasisView> {
    let l = if left.len() == 0 {
        Some(out)
    } else {
        spec_algebra_product(q, rels, (false, left), out)
    };
    match l {
        None => None,
        Some(v) => if right.len() == 0 {
            Some(v)
        } else {
            spec_algebra_product(q, rels, v, (false, right))
        },
    }
}

/// The sign of the `k`-th decomposition of a chain of degree `cod_degree`:
/// negative for odd `k` in odd degree.
pub open spec fn term_sign(cod_degree: int, k: int) -> int {
    if cod_degree % 2 == 1 && k % 2 == 1 {
        -1
    } else {
        1
    }
}

/// The signed count of the first `n` decompositions `terms` around the chain
/// `dch` that carry `out` to `target`.
pub open spec fn term_sum(
    q: Quiver,
    rels: Seq<Seq<Seq<char>>>,
    terms: Seq<SubchainView>,
    dch: ChainView,
    out: BasisView,
    target: BasisView,
    cod_degree: int,
    n: int,
) -> int
    decreases n,
{
    if n <= 0 {
        0
    } else {
        term_sum(q, rels, terms, dch, out, target, cod_degree, n - 1) + if terms[n - 1].1 == dch && term_value(
            q,
            rels,
            terms[n - 1].0,
            out,
            terms[n - 1].2,
        ) == Some(target) {
            term_sign(cod_degree, n - 1)
        } else {
            0
        }
    }
}

/// The coefficient of `target` in `a * out - out * a` for the arrow `a`.
pub open spec fn arrow_coeff(q: Quiver, rels: Seq<Seq<Seq<char>>>, a: Seq<char>, out: BasisView, target: BasisView) -> int {
    (if spec_algebra_product(q, rels, (false, seq![a]), out) == Some(target) {
        1int
    } else {
        0
    }) - (if spec_algebra_product(q, rels, out, (false, seq![a])) == Some(target) {
        1int
    } else {
        0
    })
}

/// The entry of the differential from cochain degree `degree` at the
/// codomain basis element `row` and the domain basis element `col`.
pub open spec fn diff_coeff(
    q: Quiver,
    rels: Seq<Seq<Seq<char>>>,
    basis: Seq<BasisView>,
    chains: Seq<Seq<ChainView>>,
    degree: int,
    row: CochainBasis,
    col: CochainBasis,
) -> int {
    let out = basis[col.1 as int];
    let target = basis[row.1 as int];
    if degree == 0 {
        match (col.0, row.0) {
            (CochainAnchor::Vertex(_), CochainAnchor::Chain(rci)) => if 1 < chains.len() && rci < chains[1].len() {
                arrow_coeff(q, rels, chains[1][rci as int].0[0], out, target)
            } else {
                0
            },
            _ => 0,
        }
    } else {
        match (col.0, row.0) {
            (CochainAnchor::Chain(dci), CochainAnchor::Chain(cci)) => if degree + 1 < chains.len() && dci
                < chains[degree].len() && cci < chains[degree + 1].len() {
                let terms = spec_subchains(chains[degree], chains[degree + 1][cci as int], degree + 1);
                term_sum(q, rels, terms, chains[degree][dci as int], out, target, degree + 1, terms.len() as int)
            } else {
                0
            },
            _ => 0,
        }
    }
}

/// The integer `c` in the coefficient field: `0`, then `1` added or
/// subtracted one at a time.
pub open spec fn int_scalar<S: Field>(c: int) -> S
    decreases (if c >= 0 {
        c
    } else {
        -c
    }),
{
    if c == 0 {
        S::spec_zero()
    } else if c > 0 {
        int_scalar::<S>(c - 1).add_spec(S::spec_one())
    } else {
        int_scalar::<S>(c + 1).sub_spec(S::spec_one())
    }
}

/// The integer `c` in the coefficient field.
fn int_to_scalar<Scalar: Field>(c: i128) -> (r: Scalar)
    requires
        ring_ops_total::<Scalar>(),
    ensures
        Scalar::obeys_add_spec() && Scalar::obeys_sub_spec() ==> r == int_scalar::<Scalar>(c as int),
{
    let mut s = Scalar::zero();
    let mut k: i128 = 0;
    if c >= 0 {
        while k < c
            invariant
                ring_ops_total::<Scalar>(),
                0 <= k <= c,
                Scalar::obeys_add_spec() && Scalar::obeys_sub_spec() ==> s == int_scalar::<Scalar>(k as int),
            decreases c - k,
        {
            let one = Scalar::one();
            s = s + one;
            k = k + 1;
        }
    } else {
        while k > c
            invariant
                ring_ops_total::<Scalar>(),
                c <= k <= 0,
                Scalar::obeys_add_spec() && Scalar::obeys_sub_spec() ==> s == int_scalar::<Scalar>(k as int),
            decreases k - c,
        {
            let one = Scalar::one();
            s = s - one;
            k = k - 1;
        }
    }
    s
}

/// `out` multiplied by `left` on the left and by `right` on the right.
fn apply_term(a: &QuiverWithMonomialRelations, left: &Vec<String>, out: &BasisElt, right: &Vec<String>) -> (r:
    Option<BasisElt>)
    requires
        a.wf(),
        basis_ok(a.spec_quiver(), out@),
        word_of_arrows(a.spec_quiver(), left.deep_view()),
        word_of_arrows(a.spec_quiver(), right.deep_view()),
    ensures
        r matches Some(b) ==> term_value(a.spec_quiver(), a.rels(), left.deep_view(), out@, right.deep_view())
            == Some(b@),
        r is None <==> term_value(a.spec_quiver(), a.rels(), left.deep_view(), out@, right.deep_view()) is None,
{
    let ghost q = a.spec_quiver();
    let ghost lw = left.deep_view();
    let ghost rw = right.deep_view();
    let mut value = out.clone();
    if left.len() > 0 {
        let lp = match BasisElt::create(left.as_slice()) {
            Some(b) => b,
            None => {
                return None;
            },
        };
        assert(q.has_arrow(lw[lw.len() - 1]));
        match a.multiply_basis_elts(&lp, &value) {
            Some(n) => {
                value = n;
            },
            None => {
                return None;
            },
        }
    }
    if right.len() > 0 {
        let rp = match BasisElt::create(right.as_slice()) {
            Some(b) => b,
            None => {
                return None;
            },
        };
        assert(q.has_arrow(rw[0]));
        a.multiply_basis_elts(&value, &rp)
    } else {
        Some(value)
    }
}

/// The coefficient of `target` in `a * out - out * a` for the arrow `arrow`.
fn arrow_coefficient(a: &QuiverWithMonomialRelations, arrow: &String, out: &BasisElt, target: &BasisElt) -> (c: i128)
    requires
        a.wf(),
        a.spec_quiver().has_arrow(arrow@),
        basis_ok(a.spec_quiver(), out@),
    ensures
        c == arrow_coeff(a.spec_quiver(), a.rels(), arrow@, out@, target@),
{
    let mut w: Vec<String> = Vec::new();
    w.push(arrow.clone());
    assert(w.deep_view() =~= seq![arrow@]);
    let ab = match BasisElt::create(w.as_slice()) {
        Some(b) => b,
        None => {
            return 0;
        },
    };
    let left = a.multiply_basis_elts(&ab, out);
    let right = a.multiply_basis_elts(out, &ab);
    let mut c: i128 = 0;
    match left {
        Some(l) => {
            if l == *target {
                c = c + 1;
            }
        },
        None => {},
    }
    match right {
        Some(r) => {
            if r == *target {
                c = c - 1;
            }
        },
        None => {},
    }
    c
}

/// The signed count of the decompositions `terms` around `dch` that carry
/// `out` to `target`.
fn chain_coefficient(
    a: &QuiverWithMonomialRelations,
    terms: &Vec<(Vec<String>, Chain, Vec<String>)>,
    dch: &Chain,
    out: &BasisElt,
    target: &BasisElt,
    cod_degree: usize,
) -> (c: i128)
    requires
        a.wf(),
        basis_ok(a.spec_quiver(), out@),
        forall|k: int|
            0 <= k < terms@.len() ==> word_of_arrows(a.spec_quiver(), (#[trigger] subchains_view(terms@)[k]).0)
                && word_of_arrows(a.spec_quiver(), subchains_view(terms@)[k].2),
    ensures
        c == term_sum(
            a.spec_quiver(),
            a.rels(),
            subchains_view(terms@),
            dch@,
            out@,
            target@,
            cod_degree as int,
            terms@.len() as int,
        ),
{
    let ghost q = a.spec_quiver();
    let ghost rs = a.rels();
    let ghost tv = subchains_view(terms@);
    let mut c: i128 = 0;
    let mut k: usize = 0;
    while k < terms.len()
        invariant
            tv == subchains_view(terms@),
            q == a.spec_quiver(),
            rs == a.rels(),
            a.wf(),
            basis_ok(q, out@),
            forall|j: int| 0 <= j < terms@.len() ==> word_of_arrows(q, (#[trigger] tv[j]).0) && word_of_arrows(q, tv[j].2),
            k <= terms@.len(),
            -(k as int) <= c <= k,
            c == term_sum(q, rs, tv, dch@, out@, target@, cod_degree as int, k as int),
        decreases terms@.len() - k,
    {
        let t = &terms[k];
        assert(tv[k as int] == (t.0.deep_view(), t.1@, t.2.deep_view()));
        if chains_equal(&t.1, dch) {
            match apply_term(a, &t.0, out, &t.2) {
                Some(v) => {
                    if v == *target {
                        if cod_degree % 2 == 1 && k % 2 == 1 {
                            c = c - 1;
                        } else {
                            c = c + 1;
                        }
                    }
                },
                None => {},
            }
        }
        k = k + 1;
    }
    c
}


/// The positions listed by `parallel_upto` are positions of the basis.
proof fn lemma_parallel_bound(q: Quiver, basis: Seq<BasisView>, ends: Option<(Seq<char>, Seq<char>)>, n: int)
    requires
        n <= basis.len() <= usize::MAX,
    ensures
        forall|k: int| 0 <= k < parallel_upto(q, basis, ends, n).len() ==> #[trigger] parallel_upto(q, basis, ends, n)[k]
            < basis.len(),
    decreases n,
{
    if n > 0 {
        lemma_parallel_bound(q, basis, ends, n - 1);
        let prev = parallel_upto(q, basis, ends, n - 1);
        if ends is Some && q.spec_basis_ends(basis[n - 1]) == ends {
            assert(((n - 1) as usize) as int == n - 1);
            assert forall|k: int| 0 <= k < prev.push((n - 1) as usize).len() implies #[trigger] prev.push(
                (n - 1) as usize,
            )[k] < basis.len() by {
                if k < prev.len() {
                    assert(prev.push((n - 1) as usize)[k] == prev[k]);
                }
            }
        }
    }
}

proof fn lemma_anchored_bound(anchor: CochainAnchor, outs: Seq<usize>, prev: Seq<CochainBasis>, bound: int)
    requires
        forall|k: int| 0 <= k < outs.len() ==> #[trigger] outs[k] < bound,
        forall|k: int| 0 <= k < prev.len() ==> (#[trigger] prev[k]).1 < bound,
    ensures
        forall|k: int| 0 <= k < (prev + anchored(anchor, outs)).len() ==> (#[trigger] (prev + anchored(anchor, outs))[k]).1
            < bound,
{
    let a = anchored(anchor, outs);
    assert forall|k: int| 0 <= k < (prev + a).len() implies (#[trigger] (prev + a)[k]).1 < bound by {
        if k >= prev.len() {
            assert((prev + a)[k] == a[k - prev.len()]);
            assert(a[k - prev.len()].1 == outs[k - prev.len()]);
        }
    }
}

proof fn lemma_vertex_cochains_bound(q: Quiver, basis: Seq<BasisView>, n: int)
    requires
        n <= basis.len() <= usize::MAX,
    ensures
        forall|k: int| 0 <= k < vertex_cochains(q, basis, n).len() ==> (#[trigger] vertex_cochains(q, basis, n)[k]).1
            < basis.len(),
    decreases n,
{
    if n > 0 {
        lemma_vertex_cochains_bound(q, basis, n - 1);
        let prev = vertex_cochains(q, basis, n - 1);
        if basis[n - 1].0 {
            let outs = parallel_upto(q, basis, q.spec_basis_ends(basis[n - 1]), basis.len() as int);
            lemma_parallel_bound(q, basis, q.spec_basis_ends(basis[n - 1]), basis.len() as int);
            lemma_anchored_bound(CochainAnchor::Vertex((n - 1) as usize), outs, prev, basis.len() as int);
        } else {
            assert(vertex_cochains(q, basis, n) =~= prev);
        }
    }
}

proof fn lemma_chain_cochains_bound(q: Quiver, basis: Seq<BasisView>, cs: Seq<ChainView>, n: int)
    requires
        basis.len() <= usize::MAX,
    ensures
        forall|k: int| 0 <= k < chain_cochains(q, basis, cs, n).len() ==> (#[trigger] chain_cochains(
            q,
            basis,
            cs,
            n,
        )[k]).1 < basis.len(),
    decreases n,
{
    if n > 0 {
        lemma_chain_cochains_bound(q, basis, cs, n - 1);
        let outs = parallel_upto(q, basis, q.spec_path_ends(cs[n - 1].0), basis.len() as int);
        lemma_parallel_bound(q, basis, q.spec_path_ends(cs[n - 1].0), basis.len() as int);
        lemma_anchored_bound(
            CochainAnchor::Chain((n - 1) as usize),
            outs,
            chain_cochains(q, basis, cs, n - 1),
            basis.len() as int,
        );
    }
}

/// Every cochain basis element names a position of the algebra basis.
proof fn lemma_cochain_bound(q: Quiver, basis: Seq<BasisView>, chains: Seq<Seq<ChainView>>, degree: int)
    requires
        basis.len() <= usize::MAX,
    ensures
        forall|k: int| 0 <= k < spec_cochain_basis(q, basis, chains, degree).len() ==> (#[trigger] spec_cochain_basis(
            q,
            basis,
            chains,
            degree,
        )[k]).1 < basis.len(),
{
    if degree == 0 {
        lemma_vertex_cochains_bound(q, basis, basis.len() as int);
    } else if 0 < degree < chains.len() {
        lemma_chain_cochains_bound(q, basis, chains[degree], chains[degree].len() as int);
    }
}

/// The matrix of the differential from cochain degree `degree`, with integer
/// entries: one row per basis element of degree `degree + 1`, one column per
/// basis element of degree `degree`.
pub open spec fn spec_differential(
    q: Quiver,
    rels: Seq<Seq<Seq<char>>>,
    basis: Seq<BasisView>,
    chains: Seq<Seq<ChainView>>,
    degree: int,
) -> Seq<Seq<int>> {
    let dom = spec_cochain_basis(q, basis, chains, degree);
    let cod = spec_cochain_basis(q, basis, chains, degree + 1);
    Seq::new(
        cod.len(),
        |i: int| Seq::new(dom.len(), |j: int| diff_coeff(q, rels, basis, chains, degree, cod[i], dom[j])),
    )
}

/// `m` is the integer matrix `d` with its entries in the coefficient field.
pub open spec fn matrix_of_ints<S: Field>(m: Seq<Vec<S>>, d: Seq<Seq<int>>) -> bool {
    &&& m.len() == d.len()
    &&& forall|i: int| 0 <= i < m.len() ==> (#[trigger] m[i])@.len() == d[i].len()
    &&& S::obeys_add_spec() && S::obeys_sub_spec() ==> forall|i: int, j: int|
        0 <= i < m.len() && 0 <= j < d[i].len() ==> (#[trigger] m[i]@[j]) == int_scalar::<S>(d[i][j])
}

impl<Scalar: Field> MonomialQuiverAlgebraHH<Scalar> {
    /// The entry of the differential from degree `degree` at `row` and `col`.
    fn coefficient(&self, degree: usize, row: CochainBasis, col: CochainBasis) -> (c: i128)
        requires
            self.wf(),
            self.has_chains(),
            self.basis_state().0,
            rels_are_words_of_arrows(self.algebra().spec_quiver(), self.algebra().rels()),
            row.1 < self.basis_state().1.len(),
            col.1 < self.basis_state().1.len(),
            degree < usize::MAX,
        ensures
            c == diff_coeff(
                self.algebra().spec_quiver(),
                self.algebra().rels(),
                self.basis_state().1,
                self.chains(),
                degree as int,
                row,
                col,
            ),
    {
        let ghost q = self.algebra().spec_quiver();
        let ghost rs = self.algebra().rels();
        let ghost bv = self.basis_state().1;
        let ghost cs = self.chains();
        let ghost m = self.max_wordlen() as int;
        let ghost arrows = choose|arrows: Seq<Seq<char>>|
            #![trigger arrow_chains(arrows)]
            arrows.no_duplicates() && (forall|a: Seq<char>| #[trigger] arrows.contains(a) <==> q.has_arrow(a))
                && chains_complete(cs, arrows, rs, m);
        proof {
            lemma_basis_ok(self.algebra(), bv, self.basis_state().2);
        }
        let basis = self.view_basis();
        assert(basis@.map_values(|b: BasisElt| b@) == bv);
        let out = &basis[col.1];
        let target = &basis[row.1];
        assert(out@ == bv[col.1 as int]);
        assert(target@ == bv[row.1 as int]);
        let algebra = self.algebra_ref();
        if degree == 0 {
            match (col.0, row.0) {
                (CochainAnchor::Vertex(_), CochainAnchor::Chain(rci)) => {
                    match self.chains_in_degree(1) {
                        Some(ap1) => {
                            if rci < ap1.len() {
                                let ch = &ap1[rci];
                                assert(cs[1][rci as int] == ch@);
                                assert(cs[1][rci as int] == (
                                    seq![arrows[rci as int]],
                                    Seq::<(usize, Seq<Seq<char>>)>::empty(),
                                ));
                                assert(arrows.contains(arrows[rci as int]));
                                assert(ch.word.deep_view() == seq![arrows[rci as int]]);
                                assert(ch.word@.len() == ch.word.deep_view().len());
                                assert(ch.word.deep_view()[0] == ch.word@[0]@);
                                arrow_coefficient(algebra, &ch.word[0], out, target)
                            } else {
                                0
                            }
                        },
                        None => 0,
                    }
                },
                _ => 0,
            }
        } else {
            match (col.0, row.0) {
                (CochainAnchor::Chain(dci), CochainAnchor::Chain(cci)) => {
                    match self.chains_in_degree(degree) {
                        Some(dom_chains) => {
                            match self.chains_in_degree(degree + 1) {
                                Some(cod_chains) => {
                                    if dci < dom_chains.len() && cci < cod_chains.len() {
                                        let dch = &dom_chains[dci];
                                        let cch = &cod_chains[cci];
                                        assert(cs[degree as int][dci as int] == dch@);
                                        assert(cs[degree + 1][cci as int] == cch@);
                                        proof {
                                            assert(forall|a: Seq<char>| #[trigger] arrows.contains(a) ==> q.has_arrow(a));
                                            lemma_chains_ok(q, cs, arrows, rs, m, degree + 1);
                                            assert(chain_ok(q, cs[degree + 1][cci as int]));
                                            lemma_subchains_within(cs[degree as int], cch@, degree + 1);
                                        }
                                        let terms = self.subchains(cch, degree + 1);
                                        assert(self.known_chains(degree + 1 - 1) == cs[degree as int]);
                                        proof {
                                            let tv = subchains_view(terms@);
                                            assert forall|k: int| 0 <= k < terms@.len() implies word_of_arrows(
                                                q,
                                                (#[trigger] subchains_view(terms@)[k]).0,
                                            ) && word_of_arrows(q, subchains_view(terms@)[k].2) by {
                                                lemma_within_arrows(q, tv[k].0, cch@.0);
                                                lemma_within_arrows(q, tv[k].2, cch@.0);
                                            }
                                        }
                                        chain_coefficient(algebra, &terms, dch, out, target, degree + 1)
                                    } else {
                                        0
                                    }
                                },
                                None => 0,
                            }
                        },
                        None => 0,
                    }
                },
                _ => 0,
            }
        }
    }

    /// The matrix of the Hochschild differential from the cochains of degree
    /// `degree` to those of degree `degree + 1`: one row per codomain basis
    /// element, one column per domain basis element. Builds the basis (with at
    /// most 100,000 admissible paths) and the chains first.
    pub fn differential_matrix(&mut self, degree: usize) -> (r: Vec<Vec<Scalar>>)
        requires
            old(self).wf(),
            old(self).basis_state().0 || !basis_overflows(old(self).algebra(), 100_000),
            rels_are_words_of_arrows(old(self).algebra().spec_quiver(), old(self).algebra().rels()),
            ring_ops_total::<Scalar>(),
            degree < usize::MAX,
        ensures
            final(self).wf(),
            final(self).algebra() == old(self).algebra(),
            final(self).max_wordlen() == old(self).max_wordlen(),
            final(self).basis_state().0,
            final(self).has_chains(),
            old(self).basis_state().0 ==> final(self).basis_state() == old(self).basis_state(),
            old(self).has_chains() ==> final(self).chains() == old(self).chains(),
            matrix_of_ints(
                r@,
                spec_differential(
                    final(self).algebra().spec_quiver(),
                    final(self).algebra().rels(),
                    final(self).basis_state().1,
                    final(self).chains(),
                    degree as int,
                ),
            ),
    {
        let dom = self.cochain_basis(degree);
        let cod = self.cochain_basis(degree + 1);
        let ghost q = self.algebra().spec_quiver();
        let ghost rs = self.algebra().rels();
        let ghost bv = self.basis_state().1;
        let ghost cs = self.chains();
        let ghost d = spec_differential(q, rs, bv, cs, degree as int);
        let nb = self.view_basis().len();
        proof {
            lemma_cochain_bound(q, bv, cs, degree as int);
            lemma_cochain_bound(q, bv, cs, degree + 1);
        }
        let mut matrix: Vec<Vec<Scalar>> = Vec::new();
        let mut i: usize = 0;
        while i < cod.len()
            invariant
                self.wf(),
                self.has_chains(),
                self.basis_state().0,
                rels_are_words_of_arrows(q, rs),
                ring_ops_total::<Scalar>(),
                degree < usize::MAX,
                q == self.algebra().spec_quiver(),
                rs == self.algebra().rels(),
                bv == self.basis_state().1,
                cs == self.chains(),
                d == spec_differential(q, rs, bv, cs, degree as int),
                dom@ == spec_cochain_basis(q, bv, cs, degree as int),
                cod@ == spec_cochain_basis(q, bv, cs, degree + 1),
                forall|k: int| 0 <= k < dom@.len() ==> (#[trigger] dom@[k]).1 < bv.len(),
                forall|k: int| 0 <= k < cod@.len() ==> (#[trigger] cod@[k]).1 < bv.len(),
                i <= cod@.len(),
                matrix_of_ints(matrix@, d.take(i as int)),
            decreases cod@.len() - i,
        {
            let mut row: Vec<Scalar> = Vec::new();
            let mut j: usize = 0;
            while j < dom.len()
                invariant
                    self.wf(),
                    self.has_chains(),
                    self.basis_state().0,
                    rels_are_words_of_arrows(q, rs),
                    ring_ops_total::<Scalar>(),
                    degree < usize::MAX,
                    q == self.algebra().spec_quiver(),
                    rs == self.algebra().rels(),
                    bv == self.basis_state().1,
                    cs == self.chains(),
                    d == spec_differential(q, rs, bv, cs, degree as int),
                    dom@ == spec_cochain_basis(q, bv, cs, degree as int),
                    cod@ == spec_cochain_basis(q, bv, cs, degree + 1),
                    forall|k: int| 0 <= k < dom@.len() ==> (#[trigger] dom@[k]).1 < bv.len(),
                    i < cod@.len(),
                    cod@[i as int].1 < bv.len(),
                    j <= dom@.len(),
                    row@.len() == j,
                    Scalar::obeys_add_spec() && Scalar::obeys_sub_spec() ==> forall|k: int|
                        0 <= k < j ==> (#[trigger] row@[k]) == int_scalar::<Scalar>(d[i as int][k]),
                decreases dom@.len() - j,
            {
                let c = self.coefficient(degree, cod[i], dom[j]);
                assert(c == d[i as int][j as int]);
                let x = int_to_scalar::<Scalar>(c);
                row.push(x);
                j = j + 1;
            }
            let ghost before = matrix@;
            matrix.push(row);
            proof {
                let dt = d.take(i + 1);
                assert(dt.len() == i + 1);
                assert forall|k: int| 0 <= k < matrix@.len() implies (#[trigger] matrix@[k])@.len() == dt[k].len() by {
                    if k < i {
                        assert(matrix@[k] == before[k]);
                        assert(d.take(i as int)[k] == dt[k]);
                    }
                }
                if Scalar::obeys_add_spec() && Scalar::obeys_sub_spec() {
                    assert forall|a: int, b: int| 0 <= a < matrix@.len() && 0 <= b < dt[a].len() implies (
                    #[trigger] matrix@[a]@[b]) == int_scalar::<Scalar>(dt[a][b]) by {
                        if a < i {
                            assert(matrix@[a] == before[a]);
                            assert(d.take(i as int)[a] == dt[a]);
                        }
                    }
                }
            }
            i = i + 1;
        }
        assert(d.take(i as int) =~= d);
        matrix
    }
}


/// The highest degree below `n` with a chain.
pub open spec fn last_nonempty(chains: Seq<Seq<ChainView>>, n: int) -> Option<usize>
    decreases n,
{
    if n <= 0 {
        None
    } else if chains[n - 1].len() > 0 {
        Some((n - 1) as usize)
    } else {
        last_nonempty(chains, n - 1)
    }
}

/// The dimension of cohomology in degree `d` from the cochain dimensions
/// `dims` and the ranks `ranks` of the differentials: the kernel of the
/// differential from `d` less the image of the one into `d`.
pub open spec fn hh_value(dims: Seq<int>, ranks: Seq<int>, d: int) -> int {
    dims[d] - ranks[d] - if d > 0 {
        ranks[d - 1]
    } else {
        0
    }
}

/// The lowest degree below `n` whose cohomology dimension comes out negative.
pub open spec fn first_negative(dims: Seq<int>, ranks: Seq<int>, n: int) -> Option<int>
    decreases n,
{
    if n <= 0 {
        None
    } else {
        match first_negative(dims, ranks, n - 1) {
            Some(d) => Some(d),
            None => if hh_value(dims, ranks, n - 1) < 0 {
                Some(n - 1)
            } else {
                None
            },
        }
    }
}

/// The cohomology dimensions in degrees `0..=max_degree`, or the error for
/// the lowest degree where one comes out negative.
pub open spec fn hh_outcome(dims: Seq<int>, ranks: Seq<int>, max_degree: int) -> Result<
    Map<usize, usize>,
    HochschildError,
> {
    match first_negative(dims, ranks, max_degree + 1) {
        Some(d) => Err(
            HochschildError::NegativeCohomologyDimension {
                degree: d as usize,
                value: hh_value(dims, ranks, d) as isize,
            },
        ),
        None => Ok(Map::new(|d: usize| d <= max_degree, |d: usize| hh_value(dims, ranks, d as int) as usize)),
    }
}

/// `r` is the outcome `hh_outcome(dims, ranks, max_degree)`.
pub open spec fn outcome_is(
    r: Result<HashMap<usize, usize>, HochschildError>,
    dims: Seq<int>,
    ranks: Seq<int>,
    max_degree: int,
) -> bool {
    match r {
        Ok(m) => hh_outcome(dims, ranks, max_degree) == Ok::<Map<usize, usize>, HochschildError>(m@),
        Err(e) => hh_outcome(dims, ranks, max_degree) == Err::<Map<usize, usize>, HochschildError>(e),
    }
}

/// The ranks `ranks` are possible ranks of the differentials between
/// cochain spaces of dimensions `dims`: each at most the number of rows and,
/// where there are rows, at most the number of columns.
pub open spec fn ranks_bounded(dims: Seq<int>, ranks: Seq<int>, max_degree: int) -> bool {
    &&& ranks.len() == max_degree + 1
    &&& dims.len() == max_degree + 2
    &&& forall|d: int|
        0 <= d <= max_degree ==> 0 <= #[trigger] ranks[d] <= dims[d + 1] && (dims[d + 1] > 0 ==> ranks[d] <= dims[d])
}

/// `r` is the outcome for the cochain dimensions `dims` and some possible
/// ranks `ranks` of the differentials.
pub open spec fn consistent_outcome(
    r: Result<HashMap<usize, usize>, HochschildError>,
    dims: Seq<int>,
    ranks: Seq<int>,
    max_degree: int,
) -> bool {
    ranks_bounded(dims, ranks, max_degree) && outcome_is(r, dims, ranks, max_degree)
}

/// The matrix over `S` with the integer entries of `d`.
pub open spec fn scalar_matrix<S: Field>(d: Seq<Seq<int>>) -> Seq<Seq<S>> {
    d.map_values(|row: Seq<int>| row.map_values(|x: int| int_scalar::<S>(x)))
}

/// The ranks over `S` of the differentials from the degrees `0..=top`.
pub open spec fn differential_ranks<S: Field>(
    q: Quiver,
    rels: Seq<Seq<Seq<char>>>,
    basis: Seq<BasisView>,
    chains: Seq<Seq<ChainView>>,
    top: int,
) -> Seq<int> {
    Seq::new((top + 1) as nat, |d: int| matrix_rank(scalar_matrix::<S>(spec_differential(q, rels, basis, chains, d))))
}

/// The cochain dimensions in degrees `0..=top`.
pub open spec fn cochain_dims(q: Quiver, basis: Seq<BasisView>, chains: Seq<Seq<ChainView>>, top: int) -> Seq<int> {
    Seq::new((top + 1) as nat, |d: int| spec_cochain_basis(q, basis, chains, d).len() as int)
}

/// The cohomology dimensions in degrees `0..=max_degree` from the cochain
/// dimensions and the ranks of the differentials.
fn dimensions_from_ranks(dims: &Vec<usize>, ranks: &Vec<usize>, max_degree: usize) -> (r: Result<
    HashMap<usize, usize>,
    HochschildError,
>)
    requires
        max_degree < usize::MAX,
        dims@.len() == max_degree + 2,
        ranks@.len() == max_degree + 1,
    ensures
        outcome_is(
            r,
            dims@.map_values(|x: usize| x as int),
            ranks@.map_values(|x: usize| x as int),
            max_degree as int,
        ),
{
    broadcast use vstd::std_specs::hash::group_hash_axioms;

    let ghost di = dims@.map_values(|x: usize| x as int);
    let ghost ri = ranks@.map_values(|x: usize| x as int);
    let mut hh: HashMap<usize, usize> = HashMap::new();
    let mut d: usize = 0;
    while d <= max_degree
        invariant
            max_degree < usize::MAX,
            dims@.len() == max_degree + 2,
            ranks@.len() == max_degree + 1,
            di == dims@.map_values(|x: usize| x as int),
            ri == ranks@.map_values(|x: usize| x as int),
            d <= max_degree + 1,
            first_negative(di, ri, d as int) is None,
            hh@ == Map::new(|k: usize| k < d, |k: usize| hh_value(di, ri, k as int) as usize),
        decreases max_degree + 1 - d,
    {
        let prev: i128 = if d > 0 {
            ranks[d - 1] as i128
        } else {
            0
        };
        let dim: i128 = dims[d] as i128 - ranks[d] as i128 - prev;
        assert(dim == hh_value(di, ri, d as int));
        if dim < 0 {
            let e = HochschildError::NegativeCohomologyDimension { degree: d, value: dim as isize };
            proof {
                lemma_first_negative_stops(di, ri, (d + 1) as int, max_degree + 1);
            }
            return Err(e);
        }
        let ghost before = hh@;
        hh.insert(d, dim as usize);
        assert(hh@ =~= Map::new(|k: usize| k < d + 1, |k: usize| hh_value(di, ri, k as int) as usize));
        d = d + 1;
    }
    assert(Map::new(|k: usize| k < d, |k: usize| hh_value(di, ri, k as int) as usize) =~= Map::new(
        |k: usize| k <= max_degree,
        |k: usize| hh_value(di, ri, k as int) as usize,
    ));
    Ok(hh)
}

/// Once a negative degree has been found, it stays the lowest one.
proof fn lemma_first_negative_stops(dims: Seq<int>, ranks: Seq<int>, n: int, m: int)
    requires
        n <= m,
        first_negative(dims, ranks, n) is Some,
    ensures
        first_negative(dims, ranks, m) == first_negative(dims, ranks, n),
    decreases m - n,
{
    if n < m {
        lemma_first_negative_stops(dims, ranks, n, m - 1);
    }
}

impl<Scalar: Field> MonomialQuiverAlgebraHH<Scalar> {
    /// The highest degree with a chain, building the chains first; `None`
    /// where there are none.
    pub fn maximal_possible_hh_degree(&mut self) -> (r: Option<usize>)
        requires
            old(self).wf(),
        ensures
            final(self).wf(),
            final(self).has_chains(),
            final(self).algebra() == old(self).algebra(),
            final(self).max_wordlen() == old(self).max_wordlen(),
            final(self).basis_state() == old(self).basis_state(),
            old(self).has_chains() ==> final(self).chains() == old(self).chains(),
            r == last_nonempty(final(self).chains(), final(self).chains().len() as int),
    {
        self.build_chains();
        let ghost cs = self.chains();
        let ghost al = self.algebra();
        let ghost mw = self.max_wordlen();
        let mut n = self.num_chain_degrees();
        while n > 0
            invariant
                self.wf(),
                self.has_chains(),
                self.algebra() == al,
                self.max_wordlen() == mw,
                al == old(self).algebra(),
                mw == old(self).max_wordlen(),
                self.basis_state() == old(self).basis_state(),
                old(self).has_chains() ==> cs == old(self).chains(),
                cs == self.chains(),
                n <= cs.len(),
                last_nonempty(cs, cs.len() as int) == last_nonempty(cs, n as int),
            decreases n,
        {
            match self.chains_in_degree(n - 1) {
                Some(chains) => {
                    if chains.len() > 0 {
                        assert(cs[n - 1].len() > 0);
                        return Some(n - 1);
                    }
                },
                None => {},
            }
            n = n - 1;
        }
        None
    }

    /// The dimensions of the Hochschild cohomology `HH^d` for `d` in
    /// `0..=max_degree`: the kernel of the differential from degree `d` less
    /// the image of the one into it. Builds the basis with at most
    /// `max_paths` admissible paths (an error beyond) and the chains; a
    /// negative dimension is reported as an error.
    pub fn hochschild_dimensions(&mut self, max_degree: usize, max_paths: usize) -> (r: Result<
        HashMap<usize, usize>,
        HochschildError,
    >)
        requires
            old(self).wf(),
            rels_are_words_of_arrows(old(self).algebra().spec_quiver(), old(self).algebra().rels()),
            ring_ops_total::<Scalar>(),
            max_degree < usize::MAX,
        ensures
            final(self).wf(),
            final(self).algebra() == old(self).algebra(),
            final(self).max_wordlen() == old(self).max_wordlen(),
            !old(self).basis_state().0 && basis_overflows(old(self).algebra(), max_paths) ==> r
                == Err::<HashMap<usize, usize>, HochschildError>(
                HochschildError::BasisEnumerationExceeded { max_paths },
            ),
            !(!old(self).basis_state().0 && basis_overflows(old(self).algebra(), max_paths)) ==> {
                &&& final(self).basis_state().0
                &&& final(self).has_chains()
                &&& exists|ranks: Seq<int>|
                    #[trigger] consistent_outcome(
                        r,
                        cochain_dims(
                            final(self).algebra().spec_quiver(),
                            final(self).basis_state().1,
                            final(self).chains(),
                            max_degree + 1,
                        ),
                        ranks,
                        max_degree as int,
                    )
                &&& exact_field::<Scalar>() && Scalar::obeys_add_spec() ==> outcome_is(
                    r,
                    cochain_dims(
                        final(self).algebra().spec_quiver(),
                        final(self).basis_state().1,
                        final(self).chains(),
                        max_degree + 1,
                    ),
                    differential_ranks::<Scalar>(
                        final(self).algebra().spec_quiver(),
                        final(self).algebra().rels(),
                        final(self).basis_state().1,
                        final(self).chains(),
                        max_degree as int,
                    ),
                    max_degree as int,
                )
            },
    {
        match self.build_basis(max_paths) {
            Ok(()) => {},
            Err(e) => {
                return Err(e);
            },
        }
        self.build_chains();
        let ghost q = self.algebra().spec_quiver();
        let ghost bv = self.basis_state().1;
        let ghost cs = self.chains();
        let ghost state = self.basis_state();
        let ghost dims_spec = cochain_dims(q, bv, cs, max_degree + 1);
        let ghost al = self.algebra();
        let ghost mw = self.max_wordlen();
        let mut dims: Vec<usize> = Vec::new();
        let mut d: usize = 0;
        while d <= max_degree
            invariant
                self.wf(),
                self.basis_state().0,
                self.has_chains(),
                self.basis_state() == state,
                self.chains() == cs,
                self.algebra() == al,
                self.max_wordlen() == mw,
                self.algebra().spec_quiver() == q,
                bv == state.1,
                rels_are_words_of_arrows(q, self.algebra().rels()),
                max_degree < usize::MAX,
                dims_spec == cochain_dims(q, bv, cs, max_degree + 1),
                d <= max_degree + 1,
                dims@.map_values(|x: usize| x as int) == dims_spec.take(d as int),
            decreases max_degree + 1 - d,
        {
            let c = self.cochain_dim(d);
            assert(c == dims_spec[d as int]);
            let ghost before = dims@;
            dims.push(c);
            assert(dims@.map_values(|x: usize| x as int) =~= before.map_values(|x: usize| x as int).push(c as int));
            assert(dims@.map_values(|x: usize| x as int) =~= dims_spec.take(d + 1));
            d = d + 1;
        }
        let c = self.cochain_dim(max_degree + 1);
        dims.push(c);
        assert(dims@.map_values(|x: usize| x as int) =~= dims_spec.take(max_degree + 2));
        assert(dims_spec.take(max_degree + 2) =~= dims_spec);
        let mut ranks: Vec<usize> = Vec::new();
        let mut k: usize = 0;
        while k <= max_degree
            invariant
                self.wf(),
                self.basis_state().0,
                self.has_chains(),
                self.basis_state() == state,
                self.chains() == cs,
                self.algebra() == al,
                self.max_wordlen() == mw,
                self.algebra().spec_quiver() == q,
                bv == state.1,
                rels_are_words_of_arrows(q, self.algebra().rels()),
                ring_ops_total::<Scalar>(),
                max_degree < usize::MAX,
                dims_spec == cochain_dims(q, bv, cs, max_degree + 1),
                k <= max_degree + 1,
                ranks@.len() == k,
                forall|j: int|
                    0 <= j < k ==> 0 <= #[trigger] ranks@[j] <= dims_spec[j + 1] && (dims_spec[j + 1] > 0 ==> ranks@[j]
                        <= dims_spec[j]),
                exact_field::<Scalar>() && Scalar::obeys_add_spec() ==> forall|j: int|
                    0 <= j < k ==> #[trigger] ranks@[j] == differential_ranks::<Scalar>(
                        q,
                        self.algebra().rels(),
                        bv,
                        cs,
                        max_degree as int,
                    )[j],
            decreases max_degree + 1 - k,
        {
            let matrix = self.differential_matrix(k);
            let ghost dm = spec_differential(q, self.algebra().rels(), bv, cs, k as int);
            assert(matrix@.len() == dims_spec[k + 1]);
            assert(rows_cover_first(matrix@)) by {
                if matrix@.len() > 0 {
                    assert forall|i: int| 0 <= i < matrix@.len() implies #[trigger] matrix@[i]@.len() >= matrix@[0]@.len() by {
                        assert(matrix@[i]@.len() == dm[i].len());
                        assert(matrix@[0]@.len() == dm[0].len());
                    }
                }
            }
            if matrix.len() > 0 {
                assert(matrix@[0]@.len() == dm[0].len());
                assert(dm[0].len() == dims_spec[k as int]);
            }
            let rk = rank(matrix.as_slice());
            proof {
                if exact_field::<Scalar>() && Scalar::obeys_add_spec() {
                    assert(rows_view(matrix@) =~= scalar_matrix::<Scalar>(dm)) by {
                        assert forall|i: int| 0 <= i < matrix@.len() implies rows_view(matrix@)[i] =~= scalar_matrix::<Scalar>(dm)[i] by {
                            assert forall|j: int| 0 <= j < matrix@[i]@.len() implies matrix@[i]@[j] == int_scalar::<Scalar>(dm[i][j]) by {
                                assert(matrix@[i]@[j] == int_scalar::<Scalar>(dm[i][j]));
                            }
                        }
                    }
                    assert(rk == differential_ranks::<Scalar>(q, self.algebra().rels(), bv, cs, max_degree as int)[k as int]);
                }
            }
            ranks.push(rk);
            k = k + 1;
        }
        let ghost ri = ranks@.map_values(|x: usize| x as int);
        proof {
            if exact_field::<Scalar>() && Scalar::obeys_add_spec() {
                assert(ri =~= differential_ranks::<Scalar>(q, self.algebra().rels(), bv, cs, max_degree as int));
            }
        }
        assert(dims@.map_values(|x: usize| x as int) == dims_spec);
        let r = dimensions_from_ranks(&dims, &ranks, max_degree);
        assert(ranks_bounded(dims_spec, ri, max_degree as int));
        assert(consistent_outcome(r, dims_spec, ri, max_degree as int));
        r
    }
}


/// Every position listed by `parallel_upto` holds a basis element with the given ends.
proof fn lemma_parallel_ends(q: Quiver, basis: Seq<BasisView>, ends: Option<(Seq<char>, Seq<char>)>, n: int)
    requires
        n <= basis.len() <= usize::MAX,
    ensures
        forall|k: int|
            0 <= k < parallel_upto(q, basis, ends, n).len() ==> {
                let o = #[trigger] parallel_upto(q, basis, ends, n)[k];
                &&& o < n
                &&& ends is Some
                &&& q.spec_basis_ends(basis[o as int]) == ends
            },
    decreases n,
{
    if n > 0 {
        lemma_parallel_ends(q, basis, ends, n - 1);
        let prev = parallel_upto(q, basis, ends, n - 1);
        if ends is Some && q.spec_basis_ends(basis[n - 1]) == ends {
            assert(((n - 1) as usize) as int == n - 1);
            assert forall|k: int| 0 <= k < prev.push((n - 1) as usize).len() implies {
                let o = #[trigger] prev.push((n - 1) as usize)[k];
                &&& o < n
                &&& ends is Some
                &&& q.spec_basis_ends(basis[o as int]) == ends
            } by {
                if k < prev.len() {
                    assert(prev.push((n - 1) as usize)[k] == prev[k]);
                }
            }
        }
    }
}

/// The cochain basis element `e` pairs its anchor with a parallel basis element.
pub open spec fn cochain_parallel(
    q: Quiver,
    basis: Seq<BasisView>,
    chains: Seq<Seq<ChainView>>,
    degree: int,
    e: CochainBasis,
) -> bool {
    &&& e.1 < basis.len()
    &&& match e.0 {
        CochainAnchor::Vertex(i) => degree == 0 && i < basis.len() && basis[i as int].0 && q.spec_basis_ends(
            basis[e.1 as int],
        ) == q.spec_basis_ends(basis[i as int]),
        CochainAnchor::Chain(c) => 0 < degree < chains.len() && c < chains[degree].len() && q.spec_basis_ends(
            basis[e.1 as int],
        ) == q.spec_path_ends(chains[degree][c as int].0),
    }
}

/// Each anchored element `(anchor, o)` of `outs` added to `prev` keeps every
/// element parallel where `anchor` is parallel to each `o`.
proof fn lemma_anchored_parallel(
    q: Quiver,
    basis: Seq<BasisView>,
    chains: Seq<Seq<ChainView>>,
    degree: int,
    prev: Seq<CochainBasis>,
    anchor: CochainAnchor,
    outs: Seq<usize>,
)
    requires
        forall|k: int| 0 <= k < prev.len() ==> cochain_parallel(q, basis, chains, degree, #[trigger] prev[k]),
        forall|k: int| 0 <= k < outs.len() ==> cochain_parallel(q, basis, chains, degree, (anchor, #[trigger] outs[k])),
    ensures
        forall|k: int|
            0 <= k < (prev + anchored(anchor, outs)).len() ==> cochain_parallel(
                q,
                basis,
                chains,
                degree,
                #[trigger] (prev + anchored(anchor, outs))[k],
            ),
{
    let a = anchored(anchor, outs);
    assert forall|k: int| 0 <= k < (prev + a).len() implies cochain_parallel(
        q,
        basis,
        chains,
        degree,
        #[trigger] (prev + a)[k],
    ) by {
        if k >= prev.len() {
            assert((prev + a)[k] == a[k - prev.len()]);
            assert(a[k - prev.len()] == (anchor, outs[k - prev.len()]));
        }
    }
}

/// Every element of the cochain basis of degree `degree` pairs a vertex
/// (degree 0) or a chain of that degree with a basis element of the algebra
/// parallel to it: with the same ends as its idempotent or its word.
pub proof fn law_cochain_basis_parallel(
    q: Quiver,
    basis: Seq<BasisView>,
    chains: Seq<Seq<ChainView>>,
    degree: int,
    k: int,
)
    requires
        basis.len() <= usize::MAX,
        0 < degree < chains.len() ==> chains[degree].len() <= usize::MAX,
        0 <= k < spec_cochain_basis(q, basis, chains, degree).len(),
    ensures
        cochain_parallel(q, basis, chains, degree, spec_cochain_basis(q, basis, chains, degree)[k]),
{
    if degree == 0 {
        lemma_vertex_cochains_parallel(q, basis, chains, basis.len() as int);
    } else if 0 < degree < chains.len() {
        lemma_chain_cochains_parallel(q, basis, chains, degree, chains[degree].len() as int);
    }
}

proof fn lemma_vertex_cochains_parallel(q: Quiver, basis: Seq<BasisView>, chains: Seq<Seq<ChainView>>, n: int)
    requires
        n <= basis.len() <= usize::MAX,
    ensures
        forall|k: int|
            0 <= k < vertex_cochains(q, basis, n).len() ==> cochain_parallel(
                q,
                basis,
                chains,
                0,
                #[trigger] vertex_cochains(q, basis, n)[k],
            ),
    decreases n,
{
    if n > 0 {
        lemma_vertex_cochains_parallel(q, basis, chains, n - 1);
        let prev = vertex_cochains(q, basis, n - 1);
        if basis[n - 1].0 {
            let ends = q.spec_basis_ends(basis[n - 1]);
            let outs = parallel_upto(q, basis, ends, basis.len() as int);
            lemma_parallel_ends(q, basis, ends, basis.len() as int);
            let anchor = CochainAnchor::Vertex((n - 1) as usize);
            assert(((n - 1) as usize) as int == n - 1);
            assert forall|k: int| 0 <= k < outs.len() implies cochain_parallel(
                q,
                basis,
                chains,
                0,
                (anchor, #[trigger] outs[k]),
            ) by {}
            lemma_anchored_parallel(q, basis, chains, 0, prev, anchor, outs);
        } else {
            assert(vertex_cochains(q, basis, n) =~= prev);
        }
    }
}

proof fn lemma_chain_cochains_parallel(
    q: Quiver,
    basis: Seq<BasisView>,
    chains: Seq<Seq<ChainView>>,
    degree: int,
    n: int,
)
    requires
        basis.len() <= usize::MAX,
        0 < degree < chains.len(),
        n <= chains[degree].len() <= usize::MAX,
    ensures
        forall|k: int|
            0 <= k < chain_cochains(q, basis, chains[degree], n).len() ==> cochain_parallel(
                q,
                basis,
                chains,
                degree,
                #[trigger] chain_cochains(q, basis, chains[degree], n)[k],
            ),
    decreases n,
{
    if n > 0 {
        lemma_chain_cochains_parallel(q, basis, chains, degree, n - 1);
        let prev = chain_cochains(q, basis, chains[degree], n - 1);
        let ends = q.spec_path_ends(chains[degree][n - 1].0);
        let outs = parallel_upto(q, basis, ends, basis.len() as int);
        lemma_parallel_ends(q, basis, ends, basis.len() as int);
        let anchor = CochainAnchor::Chain((n - 1) as usize);
        assert(((n - 1) as usize) as int == n - 1);
        assert forall|k: int| 0 <= k < outs.len() implies cochain_parallel(
            q,
            basis,
            chains,
            degree,
            (anchor, #[trigger] outs[k]),
        ) by {}
        lemma_anchored_parallel(q, basis, chains, degree, prev, anchor, outs);
    }
}

} // verus!

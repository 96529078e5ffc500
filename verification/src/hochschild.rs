//! Hochschild cohomology of a monomial quiver algebra `A = kQ^op / I`
//! through Bardzell's resolution: the admissible paths form a basis of `A`,
//! the Bardzell chains index the resolution, and the differential of the
//! cochain complex is a matrix over the coefficient field.
use crate::quiver::{BasisElt, BasisView};
use crate::quiver_with_mon_rels::{
    NonMonomialIdeal, QuiverWithMonomialRelations, contains_word, copy_word, dedup_first, zero_word,
};
use crate::utils::occurs_at;
use crate::utils::is_subword;
use core::marker::PhantomData;
use crate::checked_arith::{Field, Ring};
use crate::quiver_with_rels::QuiverWithRelations;
use crate::quiver_with_mon_rels::monomial_words;
use std::sync::Arc;
use crate::utils::labels_equal;
use vstd::prelude::*;

verus! {

/// A Bardzell chain: a word of arrows together with the relations it is
/// built from, each with the position where it starts in the word.
#[derive(PartialEq, Eq, Hash)]
pub struct Chain {
    pub word: Vec<String>,
    pub rels: Vec<(usize, Vec<String>)>,
}

/// A chain as plain values: its word, and its relations with their start positions.
pub type ChainView = (Seq<Seq<char>>, Seq<(usize, Seq<Seq<char>>)>);

/// Relations with start positions, as plain values.
pub open spec fn rels_view(rels: Seq<(usize, Vec<String>)>) -> Seq<(usize, Seq<Seq<char>>)> {
    rels.map_values(|p: (usize, Vec<String>)| (p.0, p.1.deep_view()))
}

impl View for Chain {
    type V = ChainView;

    open spec fn view(&self) -> ChainView {
        (self.word.deep_view(), rels_view(self.rels@))
    }
}

/// Where a cochain's basis element is anchored: a vertex (degree 0) or a
/// chain, each by its position in its list.
#[derive(Clone, Copy, PartialEq, Eq, Hash, Structural)]
pub enum CochainAnchor {
    Vertex(usize),
    Chain(usize),
}

/// Errors of the Hochschild cohomology computation.
#[derive(Debug, Clone, PartialEq, Eq)]
pub enum HochschildError {
    /// The relations do not generate a monomial ideal.
    NonMonomialIdeal(NonMonomialIdeal),
    /// More admissible paths than the given bound.
    BasisEnumerationExceeded { max_paths: usize },
    /// A cohomology dimension came out negative.
    NegativeCohomologyDimension { degree: usize, value: isize },
}

/// A copy of a word of labels.
fn copy_labels(w: &[String]) -> (r: Vec<String>)
    ensures
        r.deep_view() == w.deep_view(),
{
    let mut out: Vec<String> = Vec::new();
    let mut i: usize = 0;
    while i < w.len()
        invariant
            i <= w@.len(),
            out.deep_view() == w.deep_view().take(i as int),
        decreases w@.len() - i,
    {
        let ghost before = out.deep_view();
        out.push(w[i].clone());
        assert(out.deep_view() =~= before.push(w@[i as int]@));
        assert(w.deep_view()[i as int] == w@[i as int]@);
        assert(out.deep_view() =~= w.deep_view().take(i + 1));
        i = i + 1;
    }
    assert(w.deep_view().take(i as int) =~= w.deep_view());
    out
}

impl Clone for Chain {
    fn clone(&self) -> (r: Self)
        ensures
            r@ == self@,
    {
        let mut rels: Vec<(usize, Vec<String>)> = Vec::new();
        let mut i: usize = 0;
        while i < self.rels.len()
            invariant
                i <= self.rels@.len(),
                rels_view(rels@) == rels_view(self.rels@).take(i as int),
            decreases self.rels@.len() - i,
        {
            let r = copy_labels(self.rels[i].1.as_slice());
            let ghost before = rels@;
            rels.push((self.rels[i].0, r));
            assert(rels_view(rels@) =~= rels_view(before).push((self.rels@[i as int].0, r.deep_view())));
            assert(rels_view(rels@) =~= rels_view(self.rels@).take(i + 1));
            i = i + 1;
        }
        assert(rels_view(self.rels@).take(i as int) =~= rels_view(self.rels@));
        Chain { word: copy_labels(self.word.as_slice()), rels }
    }
}

/// Whether two chains are equal as plain values.
pub(crate) fn chains_equal(a: &Chain, b: &Chain) -> (r: bool)
    ensures
        r == (a@ == b@),
{
    if !labels_equal(a.word.as_slice(), b.word.as_slice()) {
        return false;
    }
    if a.rels.len() != b.rels.len() {
        assert(a@.1.len() != b@.1.len());
        return false;
    }
    let mut i: usize = 0;
    while i < a.rels.len()
        invariant
            a.rels@.len() == b.rels@.len(),
            i <= a.rels@.len(),
            forall|k: int| 0 <= k < i ==> rels_view(a.rels@)[k] == rels_view(b.rels@)[k],
        decreases a.rels@.len() - i,
    {
        if a.rels[i].0 != b.rels[i].0 || !labels_equal(a.rels[i].1.as_slice(), b.rels[i].1.as_slice()) {
            assert(rels_view(a.rels@)[i as int] != rels_view(b.rels@)[i as int]);
            return false;
        }
        i = i + 1;
    }
    assert(rels_view(a.rels@) =~= rels_view(b.rels@));
    true
}

/// The relations of a chain are blocks of its word at their start positions,
/// each starting after the previous one and before the previous one ends.
pub open spec fn valid_history(w: Seq<Seq<char>>, rels: Seq<(usize, Seq<Seq<char>>)>) -> bool {
    forall|i: int|
        0 <= i < rels.len() ==> {
            &&& (#[trigger] rels[i]).0 + rels[i].1.len() <= w.len()
            &&& w.subrange(rels[i].0 as int, rels[i].0 + rels[i].1.len()) == rels[i].1
            &&& i > 0 ==> rels[i - 1].0 < rels[i].0 && rels[i].0 < rels[i - 1].0 + rels[i - 1].1.len()
        }
}

/// Whether `word[start..start + relation.len()]` is `relation`, within bounds.
fn block_at(word: &[String], start: usize, relation: &[String]) -> (r: bool)
    ensures
        r == (start + relation@.len() <= word@.len() && word.deep_view().subrange(
            start as int,
            start + relation@.len(),
        ) == relation.deep_view()),
{
    if relation.len() > word.len() || start > word.len() - relation.len() {
        return false;
    }
    let wlen = word.len();
    let mut j: usize = 0;
    while j < relation.len()
        invariant
            wlen == word@.len(),
            start + relation@.len() <= word@.len(),
            j <= relation@.len(),
            forall|k: int| 0 <= k < j ==> word.deep_view()[start + k] == relation.deep_view()[k],
        decreases relation@.len() - j,
    {
        if !(word[start + j] == relation[j]) {
            assert(word.deep_view().subrange(start as int, start + relation@.len())[j as int]
                != relation.deep_view()[j as int]);
            return false;
        }
        j = j + 1;
    }
    assert(word.deep_view().subrange(start as int, start + relation@.len()) =~= relation.deep_view());
    true
}

/// Whether the relations `rels` with their start positions form a valid
/// history of the chain word `word`.
fn is_valid_chain_history(word: &[String], rels: &[(usize, Vec<String>)]) -> (r: bool)
    ensures
        r == valid_history(word.deep_view(), rels_view(rels@)),
{
    let ghost w = word.deep_view();
    let ghost rv = rels_view(rels@);
    let wlen = word.len();
    let mut i: usize = 0;
    while i < rels.len()
        invariant
            w == word.deep_view(),
            wlen == w.len(),
            rv == rels_view(rels@),
            i <= rv.len(),
            forall|k: int|
                0 <= k < i ==> {
                    &&& (#[trigger] rv[k]).0 + rv[k].1.len() <= w.len()
                    &&& w.subrange(rv[k].0 as int, rv[k].0 + rv[k].1.len()) == rv[k].1
                    &&& k > 0 ==> rv[k - 1].0 < rv[k].0 && rv[k].0 < rv[k - 1].0 + rv[k - 1].1.len()
                },
        decreases rv.len() - i,
    {
        let start = rels[i].0;
        let relation = &rels[i].1;
        assert(rv[i as int] == (start, relation.deep_view()));
        if !block_at(word, start, relation.as_slice()) {
            return false;
        }
        if i > 0 {
            let previous_start = rels[i - 1].0;
            let previous_len = rels[i - 1].1.len();
            assert(rv[i - 1] == (previous_start, rels@[i - 1].1.deep_view()));
            assert(rels@[i - 1].1.deep_view().len() == previous_len);
            assert(previous_start + previous_len <= wlen);
            if previous_start >= start {
                return false;
            }
            if start >= previous_start + previous_len {
                return false;
            }
        }
        i = i + 1;
    }
    true
}


/// The one value of `o`, or nothing.
pub open spec fn opt_seq<T>(o: Option<T>) -> Seq<T> {
    match o {
        Some(x) => seq![x],
        None => Seq::empty(),
    }
}

/// The chain obtained by overlapping the last `overlap` arrows of chain `c`
/// with the first `overlap` arrows of the relation `r` and appending the rest
/// of `r`, where the new word has at most `maxlen` arrows, `r` starts after
/// the last relation of `c`, and the relations still form a valid history.
pub open spec fn extension(c: ChainView, r: Seq<Seq<char>>, overlap: int, maxlen: int) -> Option<ChainView> {
    let w = c.0;
    if w.len() < overlap || w.subrange(w.len() - overlap, w.len() as int) != r.subrange(0, overlap) {
        None
    } else {
        let nw = w + r.subrange(overlap, r.len() as int);
        let start = w.len() - overlap;
        if nw.len() > maxlen {
            None
        } else if c.1.len() > 0 && start <= c.1.last().0 {
            None
        } else {
            let nr = c.1.push((start as usize, r));
            if valid_history(nw, nr) {
                Some((nw, nr))
            } else {
                None
            }
        }
    }
}

/// The extensions of `c` by `r` with overlaps `1..hi`, in increasing overlap.
pub open spec fn overlaps_upto(c: ChainView, r: Seq<Seq<char>>, hi: int, maxlen: int) -> Seq<ChainView>
    decreases hi,
{
    if hi <= 1 {
        Seq::empty()
    } else {
        overlaps_upto(c, r, hi - 1, maxlen) + opt_seq(extension(c, r, hi - 1, maxlen))
    }
}

/// The extensions of `c` by each relation of `rs` in turn.
pub open spec fn extensions(c: ChainView, rs: Seq<Seq<Seq<char>>>, maxlen: int) -> Seq<ChainView>
    decreases rs.len(),
{
    if rs.len() == 0 {
        Seq::empty()
    } else {
        extensions(c, rs.drop_last(), maxlen) + overlaps_upto(c, rs.last(), rs.last().len() as int, maxlen)
    }
}

/// The extensions of each chain of `cs` in turn.
pub open spec fn all_extensions(cs: Seq<ChainView>, rs: Seq<Seq<Seq<char>>>, maxlen: int) -> Seq<ChainView>
    decreases cs.len(),
{
    if cs.len() == 0 {
        Seq::empty()
    } else {
        all_extensions(cs.drop_last(), rs, maxlen) + extensions(cs.last(), rs, maxlen)
    }
}

/// The chains of the next degree: the extensions of the chains `cs`, each once.
pub open spec fn next_chains(cs: Seq<ChainView>, rs: Seq<Seq<Seq<char>>>, maxlen: int) -> Seq<ChainView> {
    dedup_first(all_extensions(cs, rs, maxlen))
}

/// Views of the chains of a list.
pub open spec fn chains_view(cs: Seq<Chain>) -> Seq<ChainView> {
    cs.map_values(|c: Chain| c@)
}

/// Whether the last `overlap` labels of `word` are the first `overlap` of `relation`.
fn suffix_is_prefix(word: &[String], relation: &[String], overlap: usize) -> (r: bool)
    requires
        overlap <= word@.len(),
        overlap <= relation@.len(),
    ensures
        r == (word.deep_view().subrange(word@.len() - overlap, word@.len() as int) == relation.deep_view().subrange(
            0,
            overlap as int,
        )),
{
    let ghost w = word.deep_view();
    let ghost rv = relation.deep_view();
    let wlen = word.len();
    let base = wlen - overlap;
    let mut j: usize = 0;
    while j < overlap
        invariant
            wlen == word@.len(),
            overlap <= word@.len(),
            overlap <= relation@.len(),
            base == word@.len() - overlap,
            w == word.deep_view(),
            rv == relation.deep_view(),
            j <= overlap,
            forall|k: int| 0 <= k < j ==> w[base + k] == rv[k],
        decreases overlap - j,
    {
        if !(word[base + j] == relation[j]) {
            assert(w.subrange(base as int, w.len() as int)[j as int] != rv.subrange(0, overlap as int)[j as int]);
            return false;
        }
        j = j + 1;
    }
    assert(w.subrange(base as int, w.len() as int) =~= rv.subrange(0, overlap as int));
    true
}

/// The word `word` followed by `relation[overlap..]`.
fn join_words(word: &[String], relation: &[String], overlap: usize) -> (r: Vec<String>)
    requires
        overlap <= relation@.len(),
    ensures
        r.deep_view() == word.deep_view() + relation.deep_view().subrange(overlap as int, relation@.len() as int),
{
    let mut out = copy_labels(word);
    let ghost w = word.deep_view();
    let ghost rv = relation.deep_view();
    let mut j: usize = overlap;
    while j < relation.len()
        invariant
            overlap <= j <= relation@.len(),
            rv == relation.deep_view(),
            out.deep_view() == w + rv.subrange(overlap as int, j as int),
        decreases relation@.len() - j,
    {
        let ghost before = out.deep_view();
        out.push(relation[j].clone());
        assert(out.deep_view() =~= before.push(relation@[j as int]@));
        assert(rv[j as int] == relation@[j as int]@);
        assert(out.deep_view() =~= w + rv.subrange(overlap as int, j + 1));
        j = j + 1;
    }
    out
}

/// The chain `c` extended by `relation` at `overlap`, where that is one.
#[verifier::rlimit(40)]
fn extend_once(c: &Chain, relation: &Vec<String>, overlap: usize, maxlen: usize) -> (r: Option<Chain>)
    requires
        1 <= overlap < relation@.len(),
    ensures
        r matches Some(x) ==> extension(c@, relation.deep_view(), overlap as int, maxlen as int) == Some(x@),
        r is None ==> extension(c@, relation.deep_view(), overlap as int, maxlen as int) is None,
{
    let ghost rv = relation.deep_view();
    let ghost cv = c@;
    let ghost w = cv.0;
    if c.word.len() < overlap {
        return None;
    }
    if !suffix_is_prefix(c.word.as_slice(), relation.as_slice(), overlap) {
        return None;
    }
    assert(w.subrange(w.len() - overlap, w.len() as int) == rv.subrange(0, overlap as int));
    let new_word = join_words(c.word.as_slice(), relation.as_slice(), overlap);
    let ghost nw = w + rv.subrange(overlap as int, rv.len() as int);
    assert(new_word.deep_view() == nw);
    if new_word.len() > maxlen {
        return None;
    }
    let start = c.word.len() - overlap;
    if c.rels.len() > 0 && start <= c.rels[c.rels.len() - 1].0 {
        assert(cv.1.last().0 == c.rels@[c.rels@.len() - 1].0);
        return None;
    }
    assert(!(cv.1.len() > 0 && start <= cv.1.last().0));
    let copy = c.clone();
    let mut rels: Vec<(usize, Vec<String>)> = copy.rels;
    assert(rels_view(rels@) == cv.1);
    let rel_copy = copy_labels(relation.as_slice());
    let ghost before = rels@;
    rels.push((start, rel_copy));
    let ghost nr = cv.1.push((start, rv));
    assert(rels_view(rels@) =~= nr);
    let ok = is_valid_chain_history(new_word.as_slice(), rels.as_slice());
    assert(ok == valid_history(nw, nr));
    if ok {
        let x = Chain { word: new_word, rels };
        assert(x@ == (nw, nr));
        Some(x)
    } else {
        None
    }
}


/// The single-arrow chains of the arrows `es`, in order.
pub open spec fn arrow_chains(es: Seq<Seq<char>>) -> Seq<ChainView> {
    es.map_values(|a: Seq<char>| (seq![a], Seq::<(usize, Seq<Seq<char>>)>::empty()))
}

/// The chains of the relations `rs`, in order: each relation as a word with
/// itself as its one relation, at position 0.
pub open spec fn relation_chains(rs: Seq<Seq<Seq<char>>>) -> Seq<ChainView> {
    rs.map_values(|r: Seq<Seq<char>>| (r, seq![(0usize, r)]))
}

/// `ap` lists the Bardzell chains by degree for the relations `rs`, the
/// arrows being `arrows` and chain words having at most `maxlen` arrows past
/// degree 2: nothing in degree 0, the arrows in degree 1, the relations in
/// degree 2, then the next chains of each degree while there are any.
pub open spec fn chains_complete(
    ap: Seq<Seq<ChainView>>,
    arrows: Seq<Seq<char>>,
    rs: Seq<Seq<Seq<char>>>,
    maxlen: int,
) -> bool {
    &&& ap.len() >= 3
    &&& ap[0].len() == 0
    &&& ap[1] == arrow_chains(arrows)
    &&& ap[2] == relation_chains(rs)
    &&& forall|d: int| 2 <= d < ap.len() - 1 ==> #[trigger] ap[d + 1] == next_chains(ap[d], rs, maxlen) && ap[d + 1].len() > 0
    &&& next_chains(ap[ap.len() - 1], rs, maxlen).len() == 0
}

/// The words of arrows that are nonzero paths in the algebra.
pub open spec fn nonzero_words(a: QuiverWithMonomialRelations) -> Set<Seq<Seq<char>>> {
    Set::new(|w: Seq<Seq<char>>| w.len() >= 1 && !zero_word(a.spec_quiver(), a.rels(), w))
}

/// The nonzero words of at most `l` arrows.
pub open spec fn nonzero_words_upto(a: QuiverWithMonomialRelations, l: int) -> Set<Seq<Seq<char>>> {
    Set::new(|w: Seq<Seq<char>>| 1 <= w.len() <= l && !zero_word(a.spec_quiver(), a.rels(), w))
}

/// There are infinitely many nonzero words, or more than `max_paths`.
pub open spec fn basis_overflows(a: QuiverWithMonomialRelations, max_paths: usize) -> bool {
    !(nonzero_words(a).finite() && nonzero_words(a).len() <= max_paths)
}

/// Enumerating the nonzero words goes past `max_paths`, or past the number
/// of nonzero single arrows where that is larger: there are infinitely many
/// nonzero words, or more than that.
pub open spec fn enumeration_overflows(a: QuiverWithMonomialRelations, max_paths: usize) -> bool {
    let n1 = nonzero_words_upto(a, 1).len();
    let bound = if n1 > max_paths {
        n1
    } else {
        max_paths as nat
    };
    !(nonzero_words(a).finite() && nonzero_words(a).len() <= bound)
}

/// The idempotents of the vertices `vs`, in order.
pub open spec fn idempotents(vs: Seq<Seq<char>>) -> Seq<BasisView> {
    vs.map_values(|v: Seq<char>| (true, seq![v]))
}

/// `basis` is a basis of the algebra: the idempotents of its vertices (each
/// once) followed by its nonzero paths `paths` (each once).
pub open spec fn basis_complete(a: QuiverWithMonomialRelations, basis: Seq<BasisView>, paths: Seq<Seq<Seq<char>>>) -> bool {
    &&& paths.no_duplicates()
    &&& paths.to_set() == nonzero_words(a)
    &&& exists|vs: Seq<Seq<char>>|
        #![trigger idempotents(vs)]
        vs.no_duplicates() && (forall|v: Seq<char>| #[trigger] vs.contains(v) <==> a.spec_quiver().has_vertex(v))
            && basis == idempotents(vs) + paths.map_values(|w: Seq<Seq<char>>| (false, w))
}

/// The Hochschild cochain complex of a monomial algebra `A = kQ^op / I` over
/// the field `Scalar`, with its admissible-path basis and Bardzell chains,
/// each built on first use.
pub struct MonomialQuiverAlgebraHH<Scalar> {
    quiver_with_mon_relations: Arc<QuiverWithMonomialRelations>,
    chain_search_max_wordlen: usize,
    basis_built: bool,
    basis: Vec<BasisElt>,
    basis_paths_only: Vec<Vec<String>>,
    chains_built: bool,
    ap: Vec<Vec<Chain>>,
    _marker: PhantomData<Scalar>,
}

impl<Scalar: Field> MonomialQuiverAlgebraHH<Scalar> {
    /// The algebra.
    pub closed spec fn algebra(self) -> QuiverWithMonomialRelations {
        *self.quiver_with_mon_relations
    }

    /// The bound on the length of chain words.
    pub closed spec fn max_wordlen(self) -> usize {
        self.chain_search_max_wordlen
    }

    /// The chains by degree, as plain values.
    pub closed spec fn chains(self) -> Seq<Seq<ChainView>> {
        self.ap@.map_values(|v: Vec<Chain>| chains_view(v@))
    }

    /// Whether the chains have been built.
    pub closed spec fn has_chains(self) -> bool {
        self.chains_built
    }

    /// Whether the basis has been built, the basis elements and the admissible paths.
    pub closed spec fn basis_state(self) -> (bool, Seq<BasisView>, Seq<Seq<Seq<char>>>) {
        (self.basis_built, self.basis@.map_values(|b: BasisElt| b@), self.basis_paths_only.deep_view())
    }

    /// The chains are those of the algebra once built, and none before.
    pub open spec fn wf(self) -> bool {
        &&& self.algebra().wf()
        &&& self.has_chains() ==> exists|arrows: Seq<Seq<char>>|
            #![trigger arrow_chains(arrows)]
            arrows.no_duplicates() && (forall|a: Seq<char>|
                #[trigger] arrows.contains(a) <==> self.algebra().spec_quiver().has_arrow(a)) && chains_complete(
                self.chains(),
                arrows,
                self.algebra().rels(),
                self.max_wordlen() as int,
            )
        &&& !self.has_chains() ==> self.chains().len() == 0
        &&& self.basis_state().0 ==> basis_complete(self.algebra(), self.basis_state().1, self.basis_state().2)
        &&& !self.basis_state().0 ==> self.basis_state().1.len() == 0 && self.basis_state().2.len() == 0
    }

    /// The structure for computing the Hochschild cohomology of the monomial
    /// algebra `quiver_with_mon_relations`; `chain_search_max_wordlen` bounds
    /// the word length used when searching for Bardzell chains.
    pub fn new(quiver_with_mon_relations: Arc<QuiverWithMonomialRelations>, chain_search_max_wordlen: usize) -> (r:
        Self)
        requires
            quiver_with_mon_relations.wf(),
        ensures
            r.wf(),
            r.algebra() == *quiver_with_mon_relations,
            r.max_wordlen() == chain_search_max_wordlen,
            !r.has_chains(),
            r.chains().len() == 0,
            !r.basis_state().0,
            r.basis_state().1.len() == 0,
            r.basis_state().2.len() == 0,
    {
        let r = MonomialQuiverAlgebraHH {
            quiver_with_mon_relations,
            chain_search_max_wordlen,
            basis_built: false,
            basis: Vec::new(),
            basis_paths_only: Vec::new(),
            chains_built: false,
            ap: Vec::new(),
            _marker: PhantomData,
        };
        assert(r.chains() =~= Seq::<Seq<ChainView>>::empty());
        r
    }

    /// The structure for the monomial algebra of `algebra`, whose relations
    /// must each be a single path.
    pub fn try_from_quiver_with_relations<RelCoeffs: Ring + Copy, const OP_ALG: bool>(
        algebra: &QuiverWithRelations<RelCoeffs, OP_ALG>,
        chain_search_max_wordlen: usize,
    ) -> (r: Result<Self, HochschildError>)
        requires
            algebra.spec_quiver().wf(),
        ensures
            match monomial_words(algebra.rels(), algebra.rels().len() as int) {
                Ok(ws) => r matches Ok(h) && h.wf() && h.algebra().spec_quiver() == algebra.spec_quiver()
                    && h.algebra().rels() == ws && h.max_wordlen() == chain_search_max_wordlen && !h.has_chains()
                    && !h.basis_state().0,
                Err(e) => r == Err::<Self, HochschildError>(HochschildError::NonMonomialIdeal(e)),
            },
    {
        match QuiverWithMonomialRelations::try_from_relations(algebra) {
            Ok(m) => Ok(Self::new(Arc::new(m), chain_search_max_wordlen)),
            Err(e) => Err(HochschildError::NonMonomialIdeal(e)),
        }
    }

    /// The algebra, by reference.
    pub(crate) fn algebra_ref(&self) -> (r: &QuiverWithMonomialRelations)
        ensures
            *r == self.algebra(),
    {
        &self.quiver_with_mon_relations
    }

    /// The number of degrees for which chains have been built.
    pub(crate) fn num_chain_degrees(&self) -> (r: usize)
        ensures
            r == self.chains().len(),
    {
        self.ap.len()
    }

    /// The chains in degree `degree`, where the chains have been built up to it.
    pub fn chains_in_degree(&self, degree: usize) -> (r: Option<&[Chain]>)
        ensures
            r matches Some(cs) ==> degree < self.chains().len() && chains_view(cs@) == self.chains()[degree as int],
            r is None ==> degree >= self.chains().len(),
    {
        if degree < self.ap.len() {
            Some(self.ap[degree].as_slice())
        } else {
            None
        }
    }

    /// The extensions of `chain` by each relation and overlap.
    fn extend_chain(&self, chain: &Chain) -> (r: Vec<Chain>)
        ensures
            chains_view(r@) == extensions(chain@, self.algebra().rels(), self.max_wordlen() as int),
    {
        let relations = self.quiver_with_mon_relations.relations();
        let ghost rs = self.algebra().rels();
        let ghost m = self.max_wordlen() as int;
        let mut out: Vec<Chain> = Vec::new();
        let mut k: usize = 0;
        assert(rs.take(0) =~= Seq::<Seq<Seq<char>>>::empty());
        assert(chains_view(out@) =~= Seq::<ChainView>::empty());
        while k < relations.len()
            invariant
                relations.deep_view() == rs,
                rs == self.algebra().rels(),
                m == self.max_wordlen() as int,
                k <= rs.len(),
                chains_view(out@) == extensions(chain@, rs.take(k as int), m),
            decreases rs.len() - k,
        {
            let relation = &relations[k];
            assert(rs[k as int] == relation.deep_view());
            let ghost pre = chains_view(out@);
            let mut overlap: usize = 1;
            assert(pre + overlaps_upto(chain@, rs[k as int], 1, m) =~= pre);
            while overlap < relation.len()
                invariant
                    1 <= overlap,
                    overlap <= relation@.len() || relation@.len() == 0,
                    relation@.len() == 0 ==> overlap == 1,
                    k < rs.len(),
                    pre == extensions(chain@, rs.take(k as int), m),
                    rs[k as int] == relation.deep_view(),
                    chains_view(out@) == pre + overlaps_upto(chain@, rs[k as int], overlap as int, m),
                    m == self.max_wordlen() as int,
                decreases relation@.len() - overlap,
            {
                let ghost before = chains_view(out@);
                match extend_once(chain, relation, overlap, self.chain_search_max_wordlen) {
                    Some(x) => {
                        out.push(x);
                        assert(chains_view(out@) =~= before.push(x@));
                    },
                    None => {},
                }
                proof {
                    assert(pre + overlaps_upto(chain@, rs[k as int], overlap + 1, m) =~= pre + overlaps_upto(
                        chain@,
                        rs[k as int],
                        overlap as int,
                        m,
                    ) + opt_seq(extension(chain@, rs[k as int], overlap as int, m)));
                }
                overlap = overlap + 1;
            }
            proof {
                assert(rs.take(k + 1).drop_last() =~= rs.take(k as int));
                assert(rs.take(k + 1).last() == rs[k as int]);
                assert(relation.deep_view().len() == relation@.len());
                if relation@.len() == 0 {
                    assert(overlaps_upto(chain@, rs[k as int], 0, m) =~= Seq::<ChainView>::empty());
                    assert(overlaps_upto(chain@, rs[k as int], 1, m) =~= Seq::<ChainView>::empty());
                    assert(chains_view(out@) =~= pre + overlaps_upto(chain@, rs[k as int], rs[k as int].len() as int, m));
                } else {
                    assert(overlap == relation@.len());
                }
            }
            k = k + 1;
        }
        assert(rs.take(k as int) =~= rs);
        out
    }
}


/// Every chain word of `cs` has at least `lo` and at most `hi` arrows.
pub open spec fn word_lengths_within(cs: Seq<ChainView>, lo: int, hi: int) -> bool {
    forall|i: int| 0 <= i < cs.len() ==> lo <= (#[trigger] cs[i]).0.len() <= hi
}

/// Extending a chain lengthens its word, to at most `m` arrows.
proof fn lemma_overlaps_lengths(c: ChainView, r: Seq<Seq<char>>, hi: int, m: int)
    requires
        hi <= r.len(),
    ensures
        word_lengths_within(overlaps_upto(c, r, hi, m), c.0.len() + 1int, m),
    decreases hi,
{
    if hi > 1 {
        lemma_overlaps_lengths(c, r, hi - 1, m);
        let prev = overlaps_upto(c, r, hi - 1, m);
        let o = opt_seq(extension(c, r, hi - 1, m));
        assert(overlaps_upto(c, r, hi, m) == prev + o);
        assert forall|i: int| 0 <= i < (prev + o).len() implies c.0.len() + 1 <= (#[trigger] (prev + o)[i]).0.len()
            <= m by {
            if i >= prev.len() {
                assert((prev + o)[i] == o[i - prev.len()]);
            }
        }
    }
}

/// The extensions of a chain by all relations have longer words, of at most `m` arrows.
proof fn lemma_extensions_lengths(c: ChainView, rs: Seq<Seq<Seq<char>>>, m: int)
    ensures
        word_lengths_within(extensions(c, rs, m), c.0.len() + 1int, m),
    decreases rs.len(),
{
    if rs.len() > 0 {
        lemma_extensions_lengths(c, rs.drop_last(), m);
        lemma_overlaps_lengths(c, rs.last(), rs.last().len() as int, m);
        let a = extensions(c, rs.drop_last(), m);
        let b = overlaps_upto(c, rs.last(), rs.last().len() as int, m);
        assert forall|i: int| 0 <= i < (a + b).len() implies c.0.len() + 1 <= (#[trigger] (a + b)[i]).0.len() <= m by {
            if i >= a.len() {
                assert((a + b)[i] == b[i - a.len()]);
            }
        }
    }
}

/// The extensions of chains with words of at least `lo` arrows have words of
/// at least `lo + 1` and at most `m` arrows.
proof fn lemma_all_extensions_lengths(cs: Seq<ChainView>, rs: Seq<Seq<Seq<char>>>, m: int, lo: int)
    requires
        forall|i: int| 0 <= i < cs.len() ==> lo <= (#[trigger] cs[i]).0.len(),
    ensures
        word_lengths_within(all_extensions(cs, rs, m), lo + 1, m),
    decreases cs.len(),
{
    if cs.len() > 0 {
        lemma_all_extensions_lengths(cs.drop_last(), rs, m, lo);
        lemma_extensions_lengths(cs.last(), rs, m);
        let a = all_extensions(cs.drop_last(), rs, m);
        let b = extensions(cs.last(), rs, m);
        assert(lo <= cs[cs.len() - 1].0.len());
        assert forall|i: int| 0 <= i < (a + b).len() implies lo + 1 <= (#[trigger] (a + b)[i]).0.len() <= m by {
            if i >= a.len() {
                assert((a + b)[i] == b[i - a.len()]);
            }
        }
    }
}

/// Removing repetitions keeps only entries of the original.
pub(crate) proof fn lemma_dedup_subset<T>(s: Seq<T>)
    ensures
        forall|x: T| #[trigger] dedup_first(s).contains(x) ==> s.contains(x),
    decreases s.len(),
{
    if s.len() > 0 {
        lemma_dedup_subset(s.drop_last());
        assert forall|x: T| #[trigger] dedup_first(s).contains(x) implies s.contains(x) by {
            let d = dedup_first(s.drop_last());
            if d.contains(x) {
                assert(s.drop_last().contains(x));
                let k = choose|k: int| 0 <= k < s.drop_last().len() && s.drop_last()[k] == x;
                assert(s[k] == x);
            } else {
                assert(x == s.last());
                assert(s[s.len() - 1] == x);
            }
        }
    }
}

/// Each chain of `v` once, at its first occurrence.
fn dedup_chains(v: Vec<Chain>) -> (r: Vec<Chain>)
    ensures
        chains_view(r@) == dedup_first(chains_view(v@)),
{
    let ghost cv = chains_view(v@);
    let mut out: Vec<Chain> = Vec::new();
    let mut i: usize = 0;
    assert(cv.take(0) =~= Seq::<ChainView>::empty());
    assert(chains_view(out@) =~= Seq::<ChainView>::empty());
    while i < v.len()
        invariant
            cv == chains_view(v@),
            i <= cv.len(),
            chains_view(out@) == dedup_first(cv.take(i as int)),
        decreases cv.len() - i,
    {
        let c = &v[i];
        assert(cv[i as int] == c@);
        let mut seen = false;
        let mut j: usize = 0;
        while j < out.len()
            invariant
                j <= out@.len(),
                seen == exists|k: int| 0 <= k < j && chains_view(out@)[k] == c@,
            decreases out@.len() - j,
        {
            if chains_equal(&out[j], c) {
                assert(chains_view(out@)[j as int] == c@);
                seen = true;
            }
            j = j + 1;
        }
        proof {
            assert(cv.take(i + 1).drop_last() =~= cv.take(i as int));
            assert(cv.take(i + 1).last() == c@);
            assert(seen == chains_view(out@).contains(c@));
        }
        if !seen {
            let ghost before = chains_view(out@);
            out.push(c.clone());
            assert(chains_view(out@) =~= before.push(c@));
        }
        i = i + 1;
    }
    assert(cv.take(i as int) =~= cv);
    out
}

impl<Scalar: Field> MonomialQuiverAlgebraHH<Scalar> {
    /// The chains of the next degree after the chains `cs`.
    fn next_degree(&self, cs: &Vec<Chain>) -> (r: Vec<Chain>)
        ensures
            chains_view(r@) == next_chains(chains_view(cs@), self.algebra().rels(), self.max_wordlen() as int),
    {
        let ghost cv = chains_view(cs@);
        let ghost rs = self.algebra().rels();
        let ghost m = self.max_wordlen() as int;
        let mut next: Vec<Chain> = Vec::new();
        let mut i: usize = 0;
        assert(cv.take(0) =~= Seq::<ChainView>::empty());
        assert(chains_view(next@) =~= Seq::<ChainView>::empty());
        while i < cs.len()
            invariant
                cv == chains_view(cs@),
                rs == self.algebra().rels(),
                m == self.max_wordlen() as int,
                i <= cv.len(),
                chains_view(next@) == all_extensions(cv.take(i as int), rs, m),
            decreases cv.len() - i,
        {
            let mut more = self.extend_chain(&cs[i]);
            assert(cv[i as int] == cs@[i as int]@);
            let ghost before = chains_view(next@);
            let ghost added = chains_view(more@);
            next.append(&mut more);
            proof {
                assert(chains_view(next@) =~= before + added);
                assert(cv.take(i + 1).drop_last() =~= cv.take(i as int));
                assert(cv.take(i + 1).last() == cv[i as int]);
            }
            i = i + 1;
        }
        assert(cv.take(i as int) =~= cv);
        dedup_chains(next)
    }

    /// Build the Bardzell chains of every degree, once: nothing in degree 0,
    /// the arrows in degree 1, the relations in degree 2, and in each further
    /// degree the distinct extensions of the chains of the previous degree by
    /// a relation overlapping their end, while there are any (or until the
    /// largest degree a `usize` holds).
    pub fn build_chains(&mut self)
        requires
            old(self).wf(),
        ensures
            final(self).wf(),
            final(self).has_chains(),
            final(self).algebra() == old(self).algebra(),
            final(self).max_wordlen() == old(self).max_wordlen(),
            old(self).has_chains() ==> final(self).chains() == old(self).chains(),
            final(self).basis_state() == old(self).basis_state(),
    {
        if self.chains_built {
            return;
        }
        let ghost q = self.algebra().spec_quiver();
        let ghost rs = self.algebra().rels();
        let ghost m = self.max_wordlen() as int;
        let arrows = self.quiver_with_mon_relations.edge_labels();
        let mut ap: Vec<Vec<Chain>> = Vec::new();
        ap.push(Vec::new());
        let mut firsts: Vec<Chain> = Vec::new();
        let mut i: usize = 0;
        while i < arrows.len()
            invariant
                i <= arrows@.len(),
                chains_view(firsts@) == arrow_chains(arrows.deep_view().take(i as int)),
            decreases arrows@.len() - i,
        {
            let mut w: Vec<String> = Vec::new();
            w.push(arrows[i].clone());
            let c = Chain { word: w, rels: Vec::new() };
            let ghost before = chains_view(firsts@);
            firsts.push(c);
            proof {
                assert(w.deep_view() =~= seq![arrows.deep_view()[i as int]]);
                assert(rels_view(c.rels@) =~= Seq::<(usize, Seq<Seq<char>>)>::empty());
                assert(chains_view(firsts@) =~= before.push(c@));
                assert(arrow_chains(arrows.deep_view().take(i + 1)) =~= arrow_chains(arrows.deep_view().take(i as int)).push(c@));
            }
            i = i + 1;
        }
        assert(arrows.deep_view().take(i as int) =~= arrows.deep_view());
        ap.push(firsts);
        let relations = self.quiver_with_mon_relations.relations();
        let mut seconds: Vec<Chain> = Vec::new();
        let mut k: usize = 0;
        while k < relations.len()
            invariant
                relations.deep_view() == rs,
                k <= rs.len(),
                chains_view(seconds@) == relation_chains(rs.take(k as int)),
            decreases rs.len() - k,
        {
            let r = &relations[k];
            let mut rels: Vec<(usize, Vec<String>)> = Vec::new();
            rels.push((0, copy_labels(r.as_slice())));
            let c = Chain { word: copy_labels(r.as_slice()), rels };
            let ghost before = chains_view(seconds@);
            seconds.push(c);
            proof {
                assert(rs[k as int] == r.deep_view());
                assert(rels_view(c.rels@) =~= seq![(0usize, rs[k as int])]);
                assert(chains_view(seconds@) =~= before.push(c@));
                assert(relation_chains(rs.take(k + 1)) =~= relation_chains(rs.take(k as int)).push(c@));
            }
            k = k + 1;
        }
        assert(rs.take(k as int) =~= rs);
        ap.push(seconds);
        let ghost ap0 = ap@.map_values(|v: Vec<Chain>| chains_view(v@));
        assert(ap0[0] =~= Seq::<ChainView>::empty());
        loop
            invariant
                rs == self.algebra().rels(),
                m == self.max_wordlen() as int,
                3 <= ap@.len() <= m + 3,
                ap@.map_values(|v: Vec<Chain>| chains_view(v@)).take(3) == ap0.take(3),
                ap0[0].len() == 0,
                ap0[1] == arrow_chains(arrows.deep_view()),
                ap0[2] == relation_chains(rs),
                forall|d: int|
                    2 <= d < ap@.len() - 1 ==> #[trigger] chains_view(ap@[d + 1]@) == next_chains(
                        chains_view(ap@[d]@),
                        rs,
                        m,
                    ) && ap@[d + 1]@.len() > 0,
                ap@.len() >= 4 ==> word_lengths_within(chains_view(ap@[ap@.len() - 1]@), ap@.len() - 3, m),
            ensures
                ap@.len() >= 3,
                ap@.map_values(|v: Vec<Chain>| chains_view(v@)).take(3) == ap0.take(3),
                forall|d: int|
                    2 <= d < ap@.len() - 1 ==> #[trigger] chains_view(ap@[d + 1]@) == next_chains(
                        chains_view(ap@[d]@),
                        rs,
                        m,
                    ) && ap@[d + 1]@.len() > 0,
                next_chains(chains_view(ap@[ap@.len() - 1]@), rs, m).len() == 0,
            decreases m + 3 - ap@.len(),
        {
            let degree = ap.len() - 1;
            let next = self.next_degree(&ap[degree]);
            if next.len() == 0 {
                break;
            }
            proof {
                let cur = chains_view(ap@[degree as int]@);
                assert forall|i: int| 0 <= i < cur.len() implies degree - 2 <= (#[trigger] cur[i]).0.len() by {}
                lemma_all_extensions_lengths(cur, rs, m, degree - 2);
                lemma_dedup_subset(all_extensions(cur, rs, m));
                assert forall|i: int|
                    0 <= i < chains_view(next@).len() implies degree - 1 <= (#[trigger] chains_view(next@)[i]).0.len()
                    <= m by {
                    let y = chains_view(next@)[i];
                    assert(chains_view(next@).contains(y));
                    assert(all_extensions(cur, rs, m).contains(y));
                    let jj = choose|jj: int|
                        0 <= jj < all_extensions(cur, rs, m).len() && all_extensions(cur, rs, m)[jj] == y;
                }
                let x = chains_view(next@)[0];
                assert(degree - 1 <= x.0.len() <= m);
            }
            let ghost before = ap@;
            let ghost nv = chains_view(next@);
            let ghost nlen = next@.len();
            ap.push(next);
            proof {
                assert(chains_view(ap@[degree + 1]@) == nv);
                assert(ap@[degree + 1]@.len() == nlen);
                assert(ap@.map_values(|v: Vec<Chain>| chains_view(v@)).take(3) =~= before.map_values(
                    |v: Vec<Chain>| chains_view(v@),
                ).take(3));
                assert forall|d: int|
                    2 <= d < ap@.len() - 1 implies #[trigger] chains_view(ap@[d + 1]@) == next_chains(
                        chains_view(ap@[d]@),
                        rs,
                        m,
                    ) && ap@[d + 1]@.len() > 0 by {
                    if d < degree {
                        assert(ap@[d + 1] == before[d + 1]);
                        assert(ap@[d] == before[d]);
                        assert(chains_view(before[d + 1]@) == next_chains(chains_view(before[d]@), rs, m));
                    } else {
                        assert(d == degree);
                        assert(ap@[d] == before[degree as int]);
                        assert(chains_view(ap@[d + 1]@) == nv);
                        assert(nv == next_chains(chains_view(before[degree as int]@), rs, m));
                    }
                }
            }
        }
        self.ap = ap;
        self.chains_built = true;
        proof {
            let ch = self.chains();
            assert(ch.take(3) =~= ap0.take(3));
            assert(ch[0] == ch.take(3)[0]);
            assert(ch[1] == ch.take(3)[1]);
            assert(ch[2] == ch.take(3)[2]);
            assert(ap0[0] == ap0.take(3)[0]);
            assert(ap0[1] == ap0.take(3)[1]);
            assert(ap0[2] == ap0.take(3)[2]);
            assert forall|d: int| 2 <= d < ch.len() - 1 implies #[trigger] ch[d + 1] == next_chains(ch[d], rs, m) && ch[d + 1].len() > 0 by {
                assert(ch[d + 1] == chains_view(ap@[d + 1]@));
                assert(ch[d] == chains_view(ap@[d]@));
            }
            assert(arrows.deep_view().no_duplicates());
            assert(ch[ch.len() - 1] == chains_view(ap@[ap@.len() - 1]@));
            assert(chains_complete(ch, arrows.deep_view(), rs, m));
        }
    }
}


/// `w` is a nonzero word of the algebra.
pub open spec fn is_nonzero_word(a: QuiverWithMonomialRelations, w: Seq<Seq<char>>) -> bool {
    w.len() >= 1 && !zero_word(a.spec_quiver(), a.rels(), w)
}

/// A nonempty prefix of a nonzero word is nonzero.
proof fn lemma_prefix_nonzero(a: QuiverWithMonomialRelations, w: Seq<Seq<char>>, k: int)
    requires
        is_nonzero_word(a, w),
        1 <= k <= w.len(),
    ensures
        is_nonzero_word(a, w.take(k)),
{
    let q = a.spec_quiver();
    let p = w.take(k);
    assert forall|i: int| 0 <= i < p.len() implies q.has_arrow(#[trigger] p[i]) by {
        assert(p[i] == w[i]);
    }
    assert forall|i: int| 0 <= i < p.len() - 1 implies #[trigger] q.spec_composable(p[i], p[i + 1]) by {
        assert(p[i] == w[i] && p[i + 1] == w[i + 1]);
    }
    assert forall|m: int| 0 <= m < a.rels().len() implies !is_subword(p, #[trigger] a.rels()[m]) by {
        if is_subword(p, a.rels()[m]) {
            let st = choose|st: int| occurs_at(p, a.rels()[m], st);
            assert(p.subrange(st, st + a.rels()[m].len()) =~= w.subrange(st, st + a.rels()[m].len()));
            assert(occurs_at(w, a.rels()[m], st));
        }
    }
}

/// Where no nonzero word has `l` arrows, every nonzero word has fewer.
proof fn lemma_no_longer(a: QuiverWithMonomialRelations, l: int)
    requires
        l >= 1,
        forall|x: Seq<Seq<char>>| !(#[trigger] is_nonzero_word(a, x) && x.len() == l),
    ensures
        forall|x: Seq<Seq<char>>| #[trigger] is_nonzero_word(a, x) ==> x.len() < l,
{
    assert forall|x: Seq<Seq<char>>| #[trigger] is_nonzero_word(a, x) implies x.len() < l by {
        if x.len() >= l {
            lemma_prefix_nonzero(a, x, l);
            assert(x.take(l).len() == l);
        }
    }
}

/// The words of a list, as a set, are as many as its entries where none repeats.
pub(crate) proof fn lemma_set_len<T>(s: Seq<T>)
    requires
        s.no_duplicates(),
    ensures
        s.to_set().finite(),
        s.to_set().len() == s.len(),
{
    s.unique_seq_to_set();
}

/// Finding a new nonzero word beyond a list of at least `max_paths` of them,
/// which holds the nonzero single arrows, shows the enumeration overflows.
proof fn lemma_overflow(a: QuiverWithMonomialRelations, max_paths: usize, adm: Seq<Seq<Seq<char>>>, x: Seq<Seq<char>>)
    requires
        adm.no_duplicates(),
        forall|y: Seq<Seq<char>>| #[trigger] adm.contains(y) ==> is_nonzero_word(a, y),
        forall|y: Seq<Seq<char>>| is_nonzero_word(a, y) && y.len() <= 1 ==> #[trigger] adm.contains(y),
        is_nonzero_word(a, x),
        !adm.contains(x),
        adm.len() >= max_paths,
    ensures
        enumeration_overflows(a, max_paths),
{
    let w = nonzero_words(a);
    let s = adm.to_set();
    lemma_set_len(adm);
    let s1 = nonzero_words_upto(a, 1);
    assert(s1.subset_of(s)) by {
        assert forall|y: Seq<Seq<char>>| #[trigger] s1.contains(y) implies s.contains(y) by {
            assert(is_nonzero_word(a, y) && y.len() <= 1);
            assert(adm.contains(y));
        }
    }
    vstd::set_lib::lemma_len_subset(s1, s);
    if w.finite() {
        let t = s.insert(x);
        assert(t.subset_of(w)) by {
            assert forall|y: Seq<Seq<char>>| #[trigger] t.contains(y) implies w.contains(y) by {
                if y != x {
                    assert(adm.contains(y));
                }
            }
        }
        vstd::set_lib::lemma_len_subset(t, w);
        assert(!s.contains(x));
        assert(t.len() == s.len() + 1);
    }
}

/// The word `w` followed by the arrow `a`.
fn push_arrow(w: &Vec<String>, a: &String) -> (r: Vec<String>)
    ensures
        r.deep_view() == w.deep_view().push(a@),
{
    let mut out = copy_word(w);
    let ghost before = out.deep_view();
    out.push(a.clone());
    assert(out.deep_view() =~= before.push(a@));
    out
}

/// The admissible paths of the algebra (its nonzero words), enumerated
/// breadth first, where there are no more than `max_paths` of them (or no
/// more than the nonzero single arrows); `None` otherwise.
#[verifier::rlimit(60)]
pub(crate) fn enumerate_paths(alg: &QuiverWithMonomialRelations, max_paths: usize) -> (r: Option<Vec<Vec<String>>>)
    requires
        alg.wf(),
    ensures
        r is None <==> enumeration_overflows(*alg, max_paths),
        r matches Some(p) ==> p.deep_view().no_duplicates() && p.deep_view().to_set() == nonzero_words(
            *alg,
        ),
{
    let ghost al = *alg;
    let ghost q = al.spec_quiver();
    let all_edges = alg.edge_labels();
    let mut admissible: Vec<Vec<String>> = Vec::new();
    let mut frontier: Vec<Vec<String>> = Vec::new();
    let mut i: usize = 0;
    while i < all_edges.len()
        invariant
            al == *alg,
            al.wf(),
            all_edges.deep_view().no_duplicates(),
            forall|x: Seq<char>| #[trigger] all_edges.deep_view().contains(x) <==> q.has_arrow(x),
            q == al.spec_quiver(),
            i <= all_edges@.len(),
            admissible.deep_view() == frontier.deep_view(),
            admissible.deep_view().no_duplicates(),
            forall|x: Seq<Seq<char>>|
                #[trigger] admissible.deep_view().contains(x) <==> is_nonzero_word(al, x) && x.len() == 1
                    && all_edges.deep_view().take(i as int).contains(x[0]),
        decreases all_edges@.len() - i,
    {
        let mut word: Vec<String> = Vec::new();
        word.push(all_edges[i].clone());
        let ghost e = all_edges.deep_view()[i as int];
        assert(word.deep_view() =~= seq![e]);
        proof {
            assert(all_edges.deep_view().take(i + 1) =~= all_edges.deep_view().take(i as int).push(e));
        }
        if !alg.is_zero_path_word(word.as_slice()) {
            let ghost before = admissible.deep_view();
            proof {
                assert(!before.contains(seq![e])) by {
                    if before.contains(seq![e]) {
                        assert(all_edges.deep_view().take(i as int).contains(e));
                        let k = choose|k: int| 0 <= k < i && all_edges.deep_view()[k] == e;
                    }
                }
            }
            admissible.push(copy_word(&word));
            frontier.push(word);
            proof {
                assert(admissible.deep_view() =~= before.push(seq![e]));
                assert(frontier.deep_view() =~= before.push(seq![e]));
                assert forall|x: Seq<Seq<char>>| #[trigger] admissible.deep_view().contains(x) <==> is_nonzero_word(al, x)
                    && x.len() == 1 && all_edges.deep_view().take(i + 1).contains(x[0]) by {
                    let t0 = all_edges.deep_view().take(i as int);
                    let t1 = all_edges.deep_view().take(i + 1);
                    if x.len() == 1 && x[0] == e {
                        assert(x =~= seq![e]);
                        assert(admissible.deep_view()[before.len() as int] == x);
                        assert(t1[i as int] == e);
                    }
                    if admissible.deep_view().contains(x) && x != seq![e] {
                        let k = choose|k: int| 0 <= k < admissible.deep_view().len() && admissible.deep_view()[k] == x;
                        assert(before[k] == x);
                        assert(before.contains(x));
                        let m = choose|m: int| 0 <= m < t0.len() && t0[m] == x[0];
                        assert(t1[m] == x[0]);
                    }
                    if x.len() == 1 && t1.contains(x[0]) && x[0] != e && is_nonzero_word(al, x) {
                        let k = choose|k: int| 0 <= k < t1.len() && t1[k] == x[0];
                        assert(t0[k] == x[0]);
                        assert(before.contains(x));
                        let m = choose|m: int| 0 <= m < before.len() && before[m] == x;
                        assert(admissible.deep_view()[m] == x);
                    }
                }
            }
        } else {
            proof {
                assert(!is_nonzero_word(al, seq![e]));
                assert forall|x: Seq<Seq<char>>| #[trigger] admissible.deep_view().contains(x) <==> is_nonzero_word(al, x)
                    && x.len() == 1 && all_edges.deep_view().take(i + 1).contains(x[0]) by {
                    let t0 = all_edges.deep_view().take(i as int);
                    let t1 = all_edges.deep_view().take(i + 1);
                    if x.len() == 1 && x[0] == e {
                        assert(x =~= seq![e]);
                    }
                    if x.len() == 1 && t1.contains(x[0]) && x[0] != e {
                        let k = choose|k: int| 0 <= k < t1.len() && t1[k] == x[0];
                        assert(t0[k] == x[0]);
                    }
                    if x.len() == 1 && t0.contains(x[0]) {
                        let k = choose|k: int| 0 <= k < t0.len() && t0[k] == x[0];
                        assert(t1[k] == x[0]);
                    }
                }
            }
        }
        i = i + 1;
    }
    proof {
        assert(all_edges.deep_view().take(i as int) =~= all_edges.deep_view());
        assert forall|x: Seq<Seq<char>>|
            #[trigger] admissible.deep_view().contains(x) <==> is_nonzero_word(al, x) && 1 <= x.len() <= 1 by {
            if is_nonzero_word(al, x) && x.len() == 1 {
                assert(q.has_arrow(x[0]));
            }
        }
        lemma_set_len(admissible.deep_view());
        assert(admissible.deep_view().to_set() =~= nonzero_words_upto(al, 1));
    }
    let ghost n1 = nonzero_words_upto(al, 1).len();
    let ghost bound: nat = if n1 > max_paths {
        n1
    } else {
        max_paths as nat
    };
    let ghost mut level: int = 1;
    while frontier.len() > 0
        invariant
            al == *alg,
            al.wf(),
            q == al.spec_quiver(),
            all_edges.deep_view().no_duplicates(),
            forall|x: Seq<char>| #[trigger] all_edges.deep_view().contains(x) <==> q.has_arrow(x),
            level >= 1,
            forall|x: Seq<Seq<char>>|
                #[trigger] admissible.deep_view().contains(x) <==> is_nonzero_word(al, x) && x.len() <= level,
            forall|x: Seq<Seq<char>>|
                #[trigger] frontier.deep_view().contains(x) <==> is_nonzero_word(al, x) && x.len() == level,
            admissible.deep_view().no_duplicates(),
            admissible@.len() <= bound,
            n1 == nonzero_words_upto(al, 1).len(),
            bound == (if n1 > max_paths {
                n1
            } else {
                max_paths as nat
            }),
        decreases if frontier@.len() > 0 {
            bound - admissible@.len() + 1
        } else {
            0
        },
    {
        let ghost adm0 = admissible@.len();
        let mut new_frontier: Vec<Vec<String>> = Vec::new();
        let mut fi: usize = 0;
        while fi < frontier.len()
            invariant
                al == *alg,
                al.wf(),
                q == al.spec_quiver(),
                forall|x: Seq<char>| #[trigger] all_edges.deep_view().contains(x) <==> q.has_arrow(x),
                level >= 1,
                fi <= frontier@.len(),
                forall|x: Seq<Seq<char>>|
                    #[trigger] frontier.deep_view().contains(x) <==> is_nonzero_word(al, x) && x.len() == level,
                forall|x: Seq<Seq<char>>|
                    #[trigger] admissible.deep_view().contains(x) <==> (is_nonzero_word(al, x) && x.len() <= level)
                        || new_frontier.deep_view().contains(x),
                forall|x: Seq<Seq<char>>|
                    #[trigger] new_frontier.deep_view().contains(x) ==> is_nonzero_word(al, x) && x.len() == level + 1,
                forall|k: int, x: Seq<char>|
                    0 <= k < fi && is_nonzero_word(al, #[trigger] frontier.deep_view()[k].push(x))
                        ==> new_frontier.deep_view().contains(frontier.deep_view()[k].push(x)),
                admissible.deep_view().no_duplicates(),
                admissible@.len() <= bound,
                admissible@.len() >= adm0,
                new_frontier@.len() > 0 ==> admissible@.len() > adm0,
                n1 == nonzero_words_upto(al, 1).len(),
                bound == (if n1 > max_paths {
                    n1
                } else {
                    max_paths as nat
                }),
            decreases frontier@.len() - fi,
        {
            let w = &frontier[fi];
            let ghost wv = frontier.deep_view()[fi as int];
            assert(w.deep_view() == wv);
            assert(frontier.deep_view().contains(wv));
            let last_tgt = match alg.path_source_target(w.as_slice()) {
                Some((_, t)) => t,
                None => {
                    assert(q.has_arrow(wv[0]) && q.has_arrow(wv.last()));
                    assert(false);
                    return None;
                },
            };
            let mut ei: usize = 0;
            while ei < all_edges.len()
                invariant
                    al == *alg,
                    al.wf(),
                    q == al.spec_quiver(),
                    forall|x: Seq<char>| #[trigger] all_edges.deep_view().contains(x) <==> q.has_arrow(x),
                    level >= 1,
                    fi < frontier@.len(),
                    wv == frontier.deep_view()[fi as int],
                    w.deep_view() == wv,
                    is_nonzero_word(al, wv) && wv.len() == level,
                    last_tgt@ == q.nodes()[q.target_node(wv.last())],
                    ei <= all_edges@.len(),
                    forall|x: Seq<Seq<char>>|
                        #[trigger] admissible.deep_view().contains(x) <==> (is_nonzero_word(al, x) && x.len() <= level)
                            || new_frontier.deep_view().contains(x),
                    forall|x: Seq<Seq<char>>|
                        #[trigger] new_frontier.deep_view().contains(x) ==> is_nonzero_word(al, x) && x.len()
                            == level + 1,
                    forall|k: int, x: Seq<char>|
                        0 <= k < fi && is_nonzero_word(al, #[trigger] frontier.deep_view()[k].push(x))
                            ==> new_frontier.deep_view().contains(frontier.deep_view()[k].push(x)),
                    forall|k: int|
                        0 <= k < ei && is_nonzero_word(al, wv.push(#[trigger] all_edges.deep_view()[k]))
                            ==> new_frontier.deep_view().contains(wv.push(all_edges.deep_view()[k])),
                    admissible.deep_view().no_duplicates(),
                    admissible@.len() <= bound,
                    admissible@.len() >= adm0,
                    new_frontier@.len() > 0 ==> admissible@.len() > adm0,
                    n1 == nonzero_words_upto(al, 1).len(),
                    bound == (if n1 > max_paths {
                        n1
                    } else {
                        max_paths as nat
                    }),
                decreases all_edges@.len() - ei,
            {
                let a = &all_edges[ei];
                let ghost av = all_edges.deep_view()[ei as int];
                assert(a@ == av);
                assert(all_edges.deep_view().contains(av));
                let ghost xv = wv.push(av);
                let src = match alg.edge_endpoint_labels(a) {
                    Some((s, _)) => s,
                    None => {
                        assert(false);
                        return None;
                    },
                };
                if src == last_tgt {
                    let extended = push_arrow(w, a);
                    assert(extended.deep_view() == xv);
                    if !contains_word(&admissible, &extended) {
                        if !alg.is_zero_path_word(extended.as_slice()) {
                            assert(is_nonzero_word(al, xv));
                            if admissible.len() >= max_paths {
                                proof {
                                    assert forall|y: Seq<Seq<char>>| is_nonzero_word(al, y) && y.len() <= 1 implies #[trigger] admissible.deep_view().contains(y) by {}
                                    lemma_overflow(al, max_paths, admissible.deep_view(), xv);
                                }
                                return None;
                            }
                            let ghost ab = admissible.deep_view();
                            let ghost nb = new_frontier.deep_view();
                            admissible.push(copy_word(&extended));
                            new_frontier.push(extended);
                            proof {
                                assert(admissible.deep_view() =~= ab.push(xv));
                                assert(new_frontier.deep_view() =~= nb.push(xv));
                                assert forall|x: Seq<Seq<char>>|
                                    #[trigger] admissible.deep_view().contains(x) <==> (is_nonzero_word(al, x)
                                        && x.len() <= level) || new_frontier.deep_view().contains(x) by {
                                    if x == xv {
                                        assert(admissible.deep_view()[ab.len() as int] == xv);
                                        assert(new_frontier.deep_view()[nb.len() as int] == xv);
                                    } else {
                                        if admissible.deep_view().contains(x) {
                                            let k = choose|k: int| 0 <= k < admissible.deep_view().len() && admissible.deep_view()[k] == x;
                                            assert(ab[k] == x);
                                        }
                                        if new_frontier.deep_view().contains(x) {
                                            let k = choose|k: int| 0 <= k < new_frontier.deep_view().len() && new_frontier.deep_view()[k] == x;
                                            assert(nb[k] == x);
                                        }
                                        if ab.contains(x) {
                                            let k = choose|k: int| 0 <= k < ab.len() && ab[k] == x;
                                            assert(admissible.deep_view()[k] == x);
                                        }
                                        if nb.contains(x) {
                                            let k = choose|k: int| 0 <= k < nb.len() && nb[k] == x;
                                            assert(new_frontier.deep_view()[k] == x);
                                        }
                                    }
                                }
                                assert(xv.len() == level + 1);
                                assert forall|x: Seq<Seq<char>>| #[trigger] new_frontier.deep_view().contains(x) implies is_nonzero_word(al, x) && x.len() == level + 1 by {
                                    if x != xv {
                                        let k = choose|k: int| 0 <= k < new_frontier.deep_view().len() && new_frontier.deep_view()[k] == x;
                                        assert(k < nb.len());
                                        assert(nb[k] == x);
                                        assert(nb.contains(x));
                                    } else {
                                        assert(is_nonzero_word(al, xv));
                                    }
                                }
                                assert forall|k: int, x: Seq<char>|
                                    0 <= k < fi && is_nonzero_word(al, #[trigger] frontier.deep_view()[k].push(x))
                                        implies new_frontier.deep_view().contains(frontier.deep_view()[k].push(x)) by {
                                    let y = frontier.deep_view()[k].push(x);
                                    assert(nb.contains(y));
                                    let m = choose|m: int| 0 <= m < nb.len() && nb[m] == y;
                                    assert(new_frontier.deep_view()[m] == y);
                                }
                                assert forall|k: int|
                                    0 <= k < ei + 1 && is_nonzero_word(al, wv.push(#[trigger] all_edges.deep_view()[k]))
                                        implies new_frontier.deep_view().contains(wv.push(all_edges.deep_view()[k])) by {
                                    let y = wv.push(all_edges.deep_view()[k]);
                                    if k < ei {
                                        assert(nb.contains(y));
                                        let m = choose|m: int| 0 <= m < nb.len() && nb[m] == y;
                                        assert(new_frontier.deep_view()[m] == y);
                                    } else {
                                        assert(new_frontier.deep_view()[nb.len() as int] == y);
                                    }
                                }
                            }
                        } else {
                            proof {
                                assert(!is_nonzero_word(al, xv));
                            }
                        }
                    } else {
                        proof {
                            assert(admissible.deep_view().contains(xv));
                            assert(xv.len() == level + 1);
                        }
                    }
                } else {
                    proof {
                        if is_nonzero_word(al, xv) {
                            let k = level - 1;
                            assert(q.spec_composable(xv[k], xv[k + 1]));
                            assert(xv[k] == wv.last());
                            assert(xv[k + 1] == av);
                        }
                    }
                }
                ei = ei + 1;
            }
            proof {
                assert forall|k: int, x: Seq<char>|
                    0 <= k < fi + 1 && is_nonzero_word(al, #[trigger] frontier.deep_view()[k].push(x))
                        implies new_frontier.deep_view().contains(frontier.deep_view()[k].push(x)) by {
                    if k == fi {
                        let y = wv.push(x);
                        assert(y[y.len() - 1] == x);
                        assert(q.has_arrow(y[y.len() - 1]));
                        assert(all_edges.deep_view().contains(x));
                        let m = choose|m: int| 0 <= m < all_edges.deep_view().len() && all_edges.deep_view()[m] == x;
                        assert(is_nonzero_word(al, wv.push(all_edges.deep_view()[m])));
                    }
                }
            }
            fi = fi + 1;
        }
        proof {
            assert forall|x: Seq<Seq<char>>| #[trigger] new_frontier.deep_view().contains(x) <==> is_nonzero_word(al, x)
                && x.len() == level + 1 by {
                if is_nonzero_word(al, x) && x.len() == level + 1 {
                    lemma_prefix_nonzero(al, x, level);
                    let p = x.take(level);
                    assert(frontier.deep_view().contains(p));
                    let k = choose|k: int| 0 <= k < frontier.deep_view().len() && frontier.deep_view()[k] == p;
                    assert(p.push(x[level as int]) =~= x);
                    assert(is_nonzero_word(al, frontier.deep_view()[k].push(x[level as int])));
                }
            }
            assert forall|x: Seq<Seq<char>>| #[trigger] admissible.deep_view().contains(x) <==> is_nonzero_word(al, x)
                && x.len() <= level + 1 by {}
        }
        frontier = new_frontier;
        proof {
            level = level + 1;
        }
    }
    proof {
        assert forall|x: Seq<Seq<char>>| !(#[trigger] is_nonzero_word(al, x) && x.len() == level) by {
            if is_nonzero_word(al, x) && x.len() == level {
                assert(frontier.deep_view().contains(x));
            }
        }
        lemma_no_longer(al, level);
        lemma_set_len(admissible.deep_view());
        assert(admissible.deep_view().to_set() =~= nonzero_words(al)) by {
            assert forall|x: Seq<Seq<char>>| admissible.deep_view().to_set().contains(x) <==> nonzero_words(al).contains(x) by {
                if is_nonzero_word(al, x) {
                    assert(x.len() < level);
                }
            }
        }
    }
    Some(admissible)
}


impl<Scalar: Field> MonomialQuiverAlgebraHH<Scalar> {
    /// The basis elements, once the basis has been built (empty before).
    pub fn view_basis(&self) -> (r: &[BasisElt])
        ensures
            r@.map_values(|b: BasisElt| b@) == self.basis_state().1,
    {
        self.basis.as_slice()
    }

    /// Enumerate the admissible paths (the nonzero words, a basis of `A`
    /// together with the idempotents) up to `max_paths`, once: subsequent
    /// calls do nothing. The basis is the idempotents of the vertices followed
    /// by the admissible paths. Where there are infinitely many admissible
    /// paths, or more than `max_paths`, nothing is built and
    /// `BasisEnumerationExceeded` is returned.
    pub fn build_basis(&mut self, max_paths: usize) -> (r: Result<(), HochschildError>)
        requires
            old(self).wf(),
        ensures
            final(self).wf(),
            final(self).algebra() == old(self).algebra(),
            final(self).max_wordlen() == old(self).max_wordlen(),
            final(self).chains() == old(self).chains(),
            final(self).has_chains() == old(self).has_chains(),
            old(self).basis_state().0 ==> r is Ok && final(self).basis_state() == old(self).basis_state(),
            !old(self).basis_state().0 ==> (r is Err <==> basis_overflows(old(self).algebra(), max_paths)),
            r is Err ==> r == Err::<(), HochschildError>(HochschildError::BasisEnumerationExceeded { max_paths })
                && final(self).basis_state() == old(self).basis_state(),
            r is Ok ==> final(self).basis_state().0,
    {
        if self.basis_built {
            return Ok(());
        }
        let paths = match enumerate_paths(&self.quiver_with_mon_relations, max_paths) {
            Some(p) => p,
            None => {
                return Err(HochschildError::BasisEnumerationExceeded { max_paths });
            },
        };
        proof {
            lemma_set_len(paths.deep_view());
        }
        if paths.len() > max_paths {
            return Err(HochschildError::BasisEnumerationExceeded { max_paths });
        }
        let ghost al = self.algebra();
        let vertices = self.quiver_with_mon_relations.vertices();
        let mut basis: Vec<BasisElt> = Vec::new();
        let mut i: usize = 0;
        while i < vertices.len()
            invariant
                i <= vertices@.len(),
                basis@.map_values(|b: BasisElt| b@) == idempotents(vertices.deep_view().take(i as int)),
            decreases vertices@.len() - i,
        {
            let ghost before = basis@;
            basis.push(BasisElt::Idempotent(vertices[i].clone()));
            proof {
                assert(basis@.map_values(|b: BasisElt| b@) =~= before.map_values(|b: BasisElt| b@).push(
                    (true, seq![vertices.deep_view()[i as int]]),
                ));
                assert(idempotents(vertices.deep_view().take(i + 1)) =~= idempotents(
                    vertices.deep_view().take(i as int),
                ).push((true, seq![vertices.deep_view()[i as int]])));
            }
            i = i + 1;
        }
        assert(vertices.deep_view().take(i as int) =~= vertices.deep_view());
        let ghost idem = basis@.map_values(|b: BasisElt| b@);
        let ghost pv = paths.deep_view();
        proof {
            assert forall|j: int| 0 <= j < pv.len() implies (#[trigger] pv[j]).len() >= 1 by {
                assert(pv.to_set().contains(pv[j]));
                assert(nonzero_words(al).contains(pv[j]));
            }
        }
        let mut k: usize = 0;
        while k < paths.len()
            invariant
                pv == paths.deep_view(),
                forall|j: int| 0 <= j < pv.len() ==> (#[trigger] pv[j]).len() >= 1,
                k <= pv.len(),
                basis@.map_values(|b: BasisElt| b@) == idem + pv.take(k as int).map_values(
                    |w: Seq<Seq<char>>| (false, w),
                ),
            decreases pv.len() - k,
        {
            assert(pv[k as int] == paths@[k as int].deep_view());
            match BasisElt::create(paths[k].as_slice()) {
                Some(b) => {
                    let ghost before = basis@;
                    basis.push(b);
                    proof {
                        assert(basis@.map_values(|b: BasisElt| b@) =~= before.map_values(|b: BasisElt| b@).push(
                            (false, pv[k as int]),
                        ));
                        assert(pv.take(k + 1).map_values(|w: Seq<Seq<char>>| (false, w)) =~= pv.take(
                            k as int,
                        ).map_values(|w: Seq<Seq<char>>| (false, w)).push((false, pv[k as int])));
                    }
                },
                None => {
                    assert(false);
                },
            }
            k = k + 1;
        }
        proof {
            assert(pv.take(k as int) =~= pv);
        }
        self.basis_paths_only = paths;
        self.basis = basis;
        self.basis_built = true;
        proof {
            assert(basis_complete(al, self.basis_state().1, self.basis_state().2)) by {
                assert(self.basis_state().1 == idempotents(vertices.deep_view()) + pv.map_values(
                    |w: Seq<Seq<char>>| (false, w),
                ));
            }
        }
        Ok(())
    }
}


/// A decomposition `(left, chain, right)` of a chain word, as plain values.
pub type SubchainView = (Seq<Seq<char>>, ChainView, Seq<Seq<char>>);

/// The furthest end among the relations `sel` (each `start + length`).
pub open spec fn max_end(sel: Seq<(usize, Seq<Seq<char>>)>) -> int
    decreases sel.len(),
{
    if sel.len() <= 1 {
        if sel.len() == 0 {
            0
        } else {
            sel[0].0 + sel[0].1.len()
        }
    } else {
        let m = max_end(sel.drop_last());
        let e = sel.last().0 + sel.last().1.len();
        if m >= e {
            m
        } else {
            e
        }
    }
}

/// The chain of the word `w` spanned by the relations `sel`: the block of `w`
/// from the first relation's start to the furthest end, with the relations'
/// starts shifted to it; `None` for no relations.
pub open spec fn span_chain(w: Seq<Seq<char>>, sel: Seq<(usize, Seq<Seq<char>>)>) -> Option<ChainView> {
    if sel.len() == 0 {
        None
    } else {
        let start = sel[0].0;
        Some(
            (
                w.subrange(start as int, max_end(sel)),
                sel.map_values(|p: (usize, Seq<Seq<char>>)| ((p.0 - start) as usize, p.1)),
            ),
        )
    }
}

/// The chain spanned by `sel` in `w`, where it is one of the chains `known`.
pub open spec fn known_span(known: Seq<ChainView>, w: Seq<Seq<char>>, sel: Seq<(usize, Seq<Seq<char>>)>) -> Option<
    ChainView,
> {
    match span_chain(w, sel) {
        Some(c) => if known.contains(c) {
            Some(c)
        } else {
            None
        },
        None => None,
    }
}

/// The decomposition of `w` around the chain spanned by `sel`, cut at
/// `start` and `end`, where that chain is known.
pub open spec fn cut_around(
    known: Seq<ChainView>,
    w: Seq<Seq<char>>,
    sel: Seq<(usize, Seq<Seq<char>>)>,
    start: int,
    end: int,
) -> Seq<SubchainView> {
    match known_span(known, w, sel) {
        Some(c) => seq![(w.subrange(0, start), c, w.subrange(end, w.len() as int))],
        None => Seq::empty(),
    }
}

/// `s` without its entry at `j`.
pub open spec fn without<T>(s: Seq<T>, j: int) -> Seq<T> {
    s.subrange(0, j) + s.subrange(j + 1, s.len() as int)
}

/// The decompositions of the even-degree chain `(w, rels)` obtained by
/// dropping, in turn, each of its first `n` relations.
pub open spec fn even_subchains(known: Seq<ChainView>, w: Seq<Seq<char>>, rels: Seq<(usize, Seq<Seq<char>>)>, n: int) -> Seq<
    SubchainView,
>
    decreases n,
{
    if n <= 0 {
        Seq::empty()
    } else {
        let sel = without(rels, n - 1);
        even_subchains(known, w, rels, n - 1) + if sel.len() == 0 {
            Seq::<SubchainView>::empty()
        } else {
            cut_around(known, w, sel, sel[0].0 as int, sel.last().0 + sel.last().1.len())
        }
    }
}

/// The decompositions of a degree-2 chain word: each arrow with the words
/// before and after it.
pub open spec fn arrow_subchains(w: Seq<Seq<char>>, n: int) -> Seq<SubchainView>
    decreases n,
{
    if n <= 0 {
        Seq::empty()
    } else {
        arrow_subchains(w, n - 1).push(
            (w.subrange(0, n - 1), (seq![w[n - 1]], Seq::empty()), w.subrange(n, w.len() as int)),
        )
    }
}

/// The decompositions `(left, subchain, right)` of the chain `c` of degree
/// `degree` into a chain of the previous degree (among `known`) between two
/// words, as Bardzell's differential uses them.
pub open spec fn spec_subchains(known: Seq<ChainView>, c: ChainView, degree: int) -> Seq<SubchainView> {
    let w = c.0;
    let rels = c.1;
    if degree <= 1 {
        Seq::empty()
    } else if degree == 2 {
        arrow_subchains(w, w.len() as int)
    } else if degree % 2 == 1 {
        if rels.len() >= 2 {
            dedup_first(
                cut_around(
                    known,
                    w,
                    rels.subrange(1, rels.len() as int),
                    rels[1].0 as int,
                    rels.last().0 + rels.last().1.len(),
                ) + cut_around(
                    known,
                    w,
                    rels.subrange(0, rels.len() - 1),
                    rels[0].0 as int,
                    rels[rels.len() - 2].0 + rels[rels.len() - 2].1.len(),
                ),
            )
        } else {
            Seq::empty()
        }
    } else {
        dedup_first(even_subchains(known, w, rels, rels.len() as int))
    }
}


/// Decompositions as plain values.
pub open spec fn subchains_view(v: Seq<(Vec<String>, Chain, Vec<String>)>) -> Seq<SubchainView> {
    v.map_values(|t: (Vec<String>, Chain, Vec<String>)| (t.0.deep_view(), t.1@, t.2.deep_view()))
}

/// In a valid history the relations start in increasing order.
proof fn lemma_history_sorted(w: Seq<Seq<char>>, rels: Seq<(usize, Seq<Seq<char>>)>, i: int, j: int)
    requires
        valid_history(w, rels),
        0 <= i <= j < rels.len(),
    ensures
        rels[i].0 <= rels[j].0,
    decreases j - i,
{
    if i < j {
        lemma_history_sorted(w, rels, i, j - 1);
        assert(rels[j - 1].0 < rels[j].0);
    }
}

/// The relations `sel` start no earlier than the first and end within `w`.
pub open spec fn spans_within(w: Seq<Seq<char>>, sel: Seq<(usize, Seq<Seq<char>>)>) -> bool {
    forall|k: int|
        0 <= k < sel.len() ==> sel[0].0 <= (#[trigger] sel[k]).0 && sel[k].0 + sel[k].1.len() <= w.len()
}

/// A copy of `w[lo..hi]`.
fn slice_words(w: &[String], lo: usize, hi: usize) -> (r: Vec<String>)
    requires
        lo <= hi <= w@.len(),
    ensures
        r.deep_view() == w.deep_view().subrange(lo as int, hi as int),
{
    let mut out: Vec<String> = Vec::new();
    let mut i: usize = lo;
    while i < hi
        invariant
            lo <= i <= hi,
            hi <= w@.len(),
            out.deep_view() == w.deep_view().subrange(lo as int, i as int),
        decreases hi - i,
    {
        let ghost before = out.deep_view();
        out.push(w[i].clone());
        assert(out.deep_view() =~= before.push(w@[i as int]@));
        assert(w.deep_view()[i as int] == w@[i as int]@);
        assert(out.deep_view() =~= w.deep_view().subrange(lo as int, i + 1));
        i = i + 1;
    }
    out
}

/// The furthest end among the relations `sel`.
fn max_end_exec(sel: &Vec<(usize, Vec<String>)>, wlen: usize, Ghost(w): Ghost<Seq<Seq<char>>>) -> (r: usize)
    requires
        sel@.len() >= 1,
        wlen == w.len(),
        spans_within(w, rels_view(sel@)),
    ensures
        r == max_end(rels_view(sel@)),
        r <= wlen,
{
    let ghost sv = rels_view(sel@);
    assert(sv[0].0 + sv[0].1.len() <= w.len());
    let mut m: usize = sel[0].0 + sel[0].1.len();
    assert(sv.take(1).len() == 1);
    assert(max_end(sv.take(1)) == m);
    let mut k: usize = 1;
    while k < sel.len()
        invariant
            sv == rels_view(sel@),
            spans_within(w, sv),
            wlen == w.len(),
            1 <= k <= sv.len(),
            m == max_end(sv.take(k as int)),
            m <= wlen,
        decreases sv.len() - k,
    {
        assert(sv[k as int].0 + sv[k as int].1.len() <= w.len());
        let e = sel[k].0 + sel[k].1.len();
        proof {
            assert(sv.take(k + 1).drop_last() =~= sv.take(k as int));
            assert(sv.take(k + 1).last() == sv[k as int]);
        }
        if e > m {
            m = e;
        }
        k = k + 1;
    }
    assert(sv.take(k as int) =~= sv);
    m
}

impl<Scalar: Field> MonomialQuiverAlgebraHH<Scalar> {
    /// The chains of degree `degree` built so far (none past the last degree).
    pub open spec fn known_chains(self, degree: int) -> Seq<ChainView> {
        if 0 <= degree < self.chains().len() {
            self.chains()[degree]
        } else {
            Seq::empty()
        }
    }

    /// Whether `c` is among the chains of degree `degree`.
    fn find_chain_in_ap(&self, degree: usize, c: &Chain) -> (r: bool)
        ensures
            r == self.known_chains(degree as int).contains(c@),
    {
        if degree >= self.ap.len() {
            return false;
        }
        let chains = &self.ap[degree];
        assert(self.chains()[degree as int] == chains_view(chains@));
        let mut i: usize = 0;
        while i < chains.len()
            invariant
                i <= chains@.len(),
                self.known_chains(degree as int) == chains_view(chains@),
                forall|k: int| 0 <= k < i ==> chains_view(chains@)[k] != c@,
            decreases chains@.len() - i,
        {
            if chains_equal(&chains[i], c) {
                assert(chains_view(chains@)[i as int] == c@);
                return true;
            }
            i = i + 1;
        }
        false
    }

    /// The chain spanned by `sel` in `word`, where it is a known chain of
    /// degree `degree`.
    fn chain_from_rels(&self, word: &Vec<String>, sel: &Vec<(usize, Vec<String>)>, degree: usize) -> (r: Option<
        Chain,
    >)
        requires
            spans_within(word.deep_view(), rels_view(sel@)),
        ensures
            r matches Some(c) ==> known_span(self.known_chains(degree as int), word.deep_view(), rels_view(sel@))
                == Some(c@),
            r is None ==> known_span(self.known_chains(degree as int), word.deep_view(), rels_view(sel@)) is None,
    {
        let ghost w = word.deep_view();
        let ghost sv = rels_view(sel@);
        if sel.len() == 0 {
            return None;
        }
        let start = sel[0].0;
        let end = max_end_exec(sel, word.len(), Ghost(w));
        assert(sv[0].0 + sv[0].1.len() <= w.len());
        proof {
            lemma_max_end_at_least_first(sv);
        }
        let subword = slice_words(word.as_slice(), start, end);
        let mut shifted: Vec<(usize, Vec<String>)> = Vec::new();
        let mut k: usize = 0;
        while k < sel.len()
            invariant
                sv == rels_view(sel@),
                spans_within(w, sv),
                start == sv[0].0,
                k <= sv.len(),
                rels_view(shifted@) == sv.take(k as int).map_values(
                    |p: (usize, Seq<Seq<char>>)| ((p.0 - start) as usize, p.1),
                ),
            decreases sv.len() - k,
        {
            assert(start <= sv[k as int].0);
            let ghost before = shifted@;
            shifted.push((sel[k].0 - start, copy_labels(sel[k].1.as_slice())));
            proof {
                assert(rels_view(shifted@) =~= rels_view(before).push(((sv[k as int].0 - start) as usize, sv[k as int].1)));
                assert(sv.take(k + 1).map_values(|p: (usize, Seq<Seq<char>>)| ((p.0 - start) as usize, p.1))
                    =~= sv.take(k as int).map_values(|p: (usize, Seq<Seq<char>>)| ((p.0 - start) as usize, p.1)).push(
                    ((sv[k as int].0 - start) as usize, sv[k as int].1),
                ));
            }
            k = k + 1;
        }
        assert(sv.take(k as int) =~= sv);
        let candidate = Chain { word: subword, rels: shifted };
        assert(span_chain(w, sv) == Some(candidate@));
        if self.find_chain_in_ap(degree, &candidate) {
            Some(candidate)
        } else {
            None
        }
    }
}

/// The furthest end of nonempty relations is at least the first one's end.
proof fn lemma_max_end_at_least_first(sel: Seq<(usize, Seq<Seq<char>>)>)
    requires
        sel.len() >= 1,
    ensures
        max_end(sel) >= sel[0].0 + sel[0].1.len(),
    decreases sel.len(),
{
    if sel.len() > 1 {
        lemma_max_end_at_least_first(sel.drop_last());
        assert(sel.drop_last()[0] == sel[0]);
    }
}


/// A copy of the relations `rels[lo..hi]`.
fn copy_rels(rels: &Vec<(usize, Vec<String>)>, lo: usize, hi: usize) -> (r: Vec<(usize, Vec<String>)>)
    requires
        lo <= hi <= rels@.len(),
    ensures
        rels_view(r@) == rels_view(rels@).subrange(lo as int, hi as int),
{
    let mut out: Vec<(usize, Vec<String>)> = Vec::new();
    let mut i: usize = lo;
    while i < hi
        invariant
            lo <= i <= hi,
            hi <= rels@.len(),
            rels_view(out@) == rels_view(rels@).subrange(lo as int, i as int),
        decreases hi - i,
    {
        let ghost before = out@;
        out.push((rels[i].0, copy_labels(rels[i].1.as_slice())));
        assert(rels_view(out@) =~= rels_view(before).push(rels_view(rels@)[i as int]));
        assert(rels_view(out@) =~= rels_view(rels@).subrange(lo as int, i + 1));
        i = i + 1;
    }
    out
}

/// A copy of the relations without the one at `j`.
fn copy_rels_without(rels: &Vec<(usize, Vec<String>)>, j: usize) -> (r: Vec<(usize, Vec<String>)>)
    requires
        j < rels@.len(),
    ensures
        rels_view(r@) == without(rels_view(rels@), j as int),
{
    let n = rels.len();
    let mut out = copy_rels(rels, 0, j);
    let mut rest = copy_rels(rels, j + 1, n);
    let ghost a = rels_view(out@);
    let ghost b = rels_view(rest@);
    out.append(&mut rest);
    assert(rels_view(out@) =~= a + b);
    out
}

/// The decomposition `(word[..start], c, word[end..])`.
fn cut(word: &Vec<String>, c: Chain, start: usize, end: usize) -> (r: (Vec<String>, Chain, Vec<String>))
    requires
        start <= word@.len(),
        end <= word@.len(),
    ensures
        (r.0.deep_view(), r.1@, r.2.deep_view()) == (
            word.deep_view().subrange(0, start as int),
            c@,
            word.deep_view().subrange(end as int, word@.len() as int),
        ),
{
    (slice_words(word.as_slice(), 0, start), c, slice_words(word.as_slice(), end, word.len()))
}

/// Each decomposition once, at its first occurrence.
fn dedup_subchains(v: Vec<(Vec<String>, Chain, Vec<String>)>) -> (r: Vec<(Vec<String>, Chain, Vec<String>)>)
    ensures
        subchains_view(r@) == dedup_first(subchains_view(v@)),
{
    let ghost cv = subchains_view(v@);
    let mut out: Vec<(Vec<String>, Chain, Vec<String>)> = Vec::new();
    let mut i: usize = 0;
    assert(cv.take(0) =~= Seq::<SubchainView>::empty());
    assert(subchains_view(out@) =~= Seq::<SubchainView>::empty());
    while i < v.len()
        invariant
            cv == subchains_view(v@),
            i <= cv.len(),
            subchains_view(out@) == dedup_first(cv.take(i as int)),
        decreases cv.len() - i,
    {
        let t = &v[i];
        assert(cv[i as int] == (t.0.deep_view(), t.1@, t.2.deep_view()));
        let mut seen = false;
        let mut j: usize = 0;
        while j < out.len()
            invariant
                j <= out@.len(),
                seen == exists|k: int| 0 <= k < j && subchains_view(out@)[k] == (t.0.deep_view(), t.1@, t.2.deep_view()),
            decreases out@.len() - j,
        {
            let o = &out[j];
            let same = labels_equal(o.0.as_slice(), t.0.as_slice()) && chains_equal(&o.1, &t.1) && labels_equal(
                o.2.as_slice(),
                t.2.as_slice(),
            );
            assert(subchains_view(out@)[j as int] == (o.0.deep_view(), o.1@, o.2.deep_view()));
            if same {
                seen = true;
            }
            j = j + 1;
        }
        proof {
            assert(cv.take(i + 1).drop_last() =~= cv.take(i as int));
            assert(cv.take(i + 1).last() == cv[i as int]);
            assert(seen == subchains_view(out@).contains(cv[i as int]));
        }
        if !seen {
            let ghost before = subchains_view(out@);
            let copy = (copy_labels(t.0.as_slice()), t.1.clone(), copy_labels(t.2.as_slice()));
            out.push(copy);
            assert(subchains_view(out@) =~= before.push(cv[i as int]));
        }
        i = i + 1;
    }
    assert(cv.take(i as int) =~= cv);
    out
}

impl<Scalar: Field> MonomialQuiverAlgebraHH<Scalar> {
    /// The decompositions `(left, subchain, right)` of `chain`, a chain of
    /// degree `degree`, that Bardzell's differential sums over: in degree 2
    /// each arrow of the word; in odd degree the chains spanned by all
    /// relations but the first, and all but the last; in even degree the
    /// chains spanned by all relations but one, for each. The subchain must be
    /// a chain of degree `degree - 1`; repeated decompositions are kept once
    /// (past degree 2).
    pub fn subchains(&self, chain: &Chain, degree: usize) -> (r: Vec<(Vec<String>, Chain, Vec<String>)>)
        requires
            degree >= 3 ==> valid_history(chain@.0, chain@.1),
        ensures
            subchains_view(r@) == spec_subchains(self.known_chains(degree - 1), chain@, degree as int),
    {
        let ghost w = chain@.0;
        let ghost rv = chain@.1;
        let ghost known = self.known_chains(degree - 1);
        let mut out: Vec<(Vec<String>, Chain, Vec<String>)> = Vec::new();
        if degree <= 1 {
            assert(subchains_view(out@) =~= Seq::<SubchainView>::empty());
            return out;
        }
        let word = &chain.word;
        if degree == 2 {
            let mut i: usize = 0;
            assert(subchains_view(out@) =~= arrow_subchains(w, 0));
            while i < word.len()
                invariant
                    w == word.deep_view(),
                    i <= w.len(),
                    subchains_view(out@) == arrow_subchains(w, i as int),
                decreases w.len() - i,
            {
                let mut single: Vec<String> = Vec::new();
                single.push(word[i].clone());
                let c = Chain { word: single, rels: Vec::new() };
                let t = cut(word, c, i, i + 1);
                let ghost before = subchains_view(out@);
                out.push(t);
                proof {
                    assert(single.deep_view() =~= seq![w[i as int]]);
                    assert(rels_view(c.rels@) =~= Seq::<(usize, Seq<Seq<char>>)>::empty());
                    assert(subchains_view(out@) =~= before.push((t.0.deep_view(), t.1@, t.2.deep_view())));
                }
                i = i + 1;
            }
            return out;
        }
        let rels = &chain.rels;
        assert(rels_view(rels@) == rv);
        if degree % 2 == 1 {
            if rels.len() >= 2 {
                let n = rels.len();
                proof {
                    assert forall|i: int, j: int| 0 <= i <= j < rv.len() implies rv[i].0 <= rv[j].0 by {
                        lemma_history_sorted(w, rv, i, j);
                    }
                }
                let sel1 = copy_rels(rels, 1, n);
                assert(spans_within(w, rels_view(sel1@))) by {
                    assert forall|k: int| 0 <= k < rels_view(sel1@).len() implies rels_view(sel1@)[0].0 <= (#[trigger] rels_view(
                        sel1@,
                    )[k]).0 && rels_view(sel1@)[k].0 + rels_view(sel1@)[k].1.len() <= w.len() by {
                        assert(rels_view(sel1@)[k] == rv[k + 1]);
                        assert(rels_view(sel1@)[0] == rv[1]);
                    }
                }
                let ghost t1 = cut_around(
                    known,
                    w,
                    rv.subrange(1, rv.len() as int),
                    rv[1].0 as int,
                    rv.last().0 + rv.last().1.len(),
                );
                let ghost before1 = subchains_view(out@);
                match self.chain_from_rels(word, &sel1, degree - 1) {
                    Some(c1) => {
                        let start = rels[1].0;
                        let wl = word.len();
                        assert(rv[n - 1].0 + rv[n - 1].1.len() <= w.len());
                        assert(rels@[n - 1].1@.len() == rv[n - 1].1.len());
                        let end = rels[n - 1].0 + rels[n - 1].1.len();
                        let t = cut(word, c1, start, end);
                        out.push(t);
                        assert(subchains_view(out@) =~= before1 + t1);
                    },
                    None => {
                        assert(subchains_view(out@) =~= before1 + t1);
                    },
                }
                let sel2 = copy_rels(rels, 0, n - 1);
                assert(spans_within(w, rels_view(sel2@))) by {
                    assert forall|k: int| 0 <= k < rels_view(sel2@).len() implies rels_view(sel2@)[0].0 <= (#[trigger] rels_view(
                        sel2@,
                    )[k]).0 && rels_view(sel2@)[k].0 + rels_view(sel2@)[k].1.len() <= w.len() by {
                        assert(rels_view(sel2@)[k] == rv[k]);
                        assert(rels_view(sel2@)[0] == rv[0]);
                    }
                }
                let ghost t2 = cut_around(
                    known,
                    w,
                    rv.subrange(0, rv.len() - 1),
                    rv[0].0 as int,
                    rv[rv.len() - 2].0 + rv[rv.len() - 2].1.len(),
                );
                let ghost before2 = subchains_view(out@);
                match self.chain_from_rels(word, &sel2, degree - 1) {
                    Some(c2) => {
                        let start = rels[0].0;
                        let wl = word.len();
                        assert(rv[n - 2].0 + rv[n - 2].1.len() <= w.len());
                        assert(rels@[n - 2].1@.len() == rv[n - 2].1.len());
                        let end = rels[n - 2].0 + rels[n - 2].1.len();
                        let t = cut(word, c2, start, end);
                        out.push(t);
                        assert(subchains_view(out@) =~= before2 + t2);
                    },
                    None => {
                        assert(subchains_view(out@) =~= before2 + t2);
                    },
                }
                return dedup_subchains(out);
            }
            assert(subchains_view(out@) =~= Seq::<SubchainView>::empty());
            return out;
        }
        proof {
            assert forall|i: int, j: int| 0 <= i <= j < rv.len() implies rv[i].0 <= rv[j].0 by {
                lemma_history_sorted(w, rv, i, j);
            }
        }
        let mut j: usize = 0;
        assert(subchains_view(out@) =~= even_subchains(known, w, rv, 0));
        while j < rels.len()
            invariant
                w == word.deep_view(),
                rv == rels_view(rels@),
                known == self.known_chains(degree - 1),
                degree >= 3,
                valid_history(w, rv),
                forall|a: int, b: int| 0 <= a <= b < rv.len() ==> rv[a].0 <= rv[b].0,
                j <= rv.len(),
                subchains_view(out@) == even_subchains(known, w, rv, j as int),
            decreases rv.len() - j,
        {
            let mut more = self.subchain_dropping(word, rels, j, degree - 1);
            let ghost before = subchains_view(out@);
            let ghost added = subchains_view(more@);
            out.append(&mut more);
            assert(subchains_view(out@) =~= before + added);
            j = j + 1;
        }
        dedup_subchains(out)
    }
}


impl<Scalar: Field> MonomialQuiverAlgebraHH<Scalar> {
    /// The decomposition of the chain `(word, rels)` around the chain spanned
    /// by all its relations but the one at `j`, where that is a known chain of
    /// degree `degree`.
    fn subchain_dropping(&self, word: &Vec<String>, rels: &Vec<(usize, Vec<String>)>, j: usize, degree: usize) -> (r:
        Vec<(Vec<String>, Chain, Vec<String>)>)
        requires
            valid_history(word.deep_view(), rels_view(rels@)),
            forall|a: int, b: int|
                0 <= a <= b < rels_view(rels@).len() ==> rels_view(rels@)[a].0 <= rels_view(rels@)[b].0,
            j < rels@.len(),
        ensures
            ({
                let sv = without(rels_view(rels@), j as int);
                subchains_view(r@) == if sv.len() == 0 {
                    Seq::<SubchainView>::empty()
                } else {
                    cut_around(
                        self.known_chains(degree as int),
                        word.deep_view(),
                        sv,
                        sv[0].0 as int,
                        sv.last().0 + sv.last().1.len(),
                    )
                }
            }),
    {
        let ghost w = word.deep_view();
        let ghost rv = rels_view(rels@);
        let mut out: Vec<(Vec<String>, Chain, Vec<String>)> = Vec::new();
        let sel = copy_rels_without(rels, j);
        let ghost sv = rels_view(sel@);
        if sel.len() == 0 {
            assert(subchains_view(out@) =~= Seq::<SubchainView>::empty());
            return out;
        }
        assert(spans_within(w, sv)) by {
            assert forall|k: int| 0 <= k < sv.len() implies sv[0].0 <= (#[trigger] sv[k]).0 && sv[k].0 + sv[k].1.len()
                <= w.len() by {
                let ok = if k < j {
                    k
                } else {
                    k + 1
                };
                let o0 = if 0 < j {
                    0
                } else {
                    1int
                };
                assert(sv[k] == rv[ok]);
                assert(sv[0] == rv[o0]);
            }
        }
        let ghost tj = cut_around(self.known_chains(degree as int), w, sv, sv[0].0 as int, sv.last().0 + sv.last().1.len());
        match self.chain_from_rels(word, &sel, degree) {
            Some(c) => {
                let start = sel[0].0;
                let m = sel.len() - 1;
                let wl = word.len();
                assert(sv[m as int].0 + sv[m as int].1.len() <= w.len());
                assert(sel@[m as int].1@.len() == sv[m as int].1.len());
                let end = sel[m].0 + sel[m].1.len();
                let t = cut(word, c, start, end);
                out.push(t);
                assert(subchains_view(out@) =~= tj);
            },
            None => {
                assert(subchains_view(out@) =~= tj);
            },
        }
        out
    }
}

} // verus!

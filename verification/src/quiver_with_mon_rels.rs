//! Quivers with monomial relations: path algebras `kQ^op / I` where the ideal
//! `I` is generated by paths.
use crate::graph::edge_at_node;
use crate::quiver::{BasisElt, BasisView, Quiver, pairs_view};
use crate::utils::{is_subword, labels_contain, labels_equal};
use crate::words::{word_labels, word_to_vec};
use crate::checked_arith::Ring;
use crate::path_algebra::arc_clone;
use crate::quiver_with_rels::QuiverWithRelations;
use nonempty::NonEmpty;
use std::sync::Arc;
use vstd::prelude::*;

verus! {

/// Why the relations of an algebra do not generate a monomial ideal.
#[derive(Debug, Clone, PartialEq, Eq)]
pub enum NonMonomialIdeal {
    /// The relation at this position has more than one term.
    NonMonomialRelation { relation_index: usize },
    /// The relation at this position is an idempotent.
    IdempotentRelation { relation_index: usize },
}

/// The words of `s` without repetitions, each at its first occurrence.
pub open spec fn dedup_first<T>(s: Seq<T>) -> Seq<T>
    decreases s.len(),
{
    if s.len() == 0 {
        s
    } else {
        let d = dedup_first(s.drop_last());
        if d.contains(s.last()) {
            d
        } else {
            d.push(s.last())
        }
    }
}

/// Some word of `gens` shorter than `g` is a block of `g`.
pub open spec fn has_shorter_block(gens: Seq<Seq<Seq<char>>>, g: Seq<Seq<char>>) -> bool {
    exists|j: int| 0 <= j < gens.len() && (#[trigger] gens[j]).len() < g.len() && is_subword(g, gens[j])
}

/// The words of `gens` that contain no shorter word of `gens` as a block.
pub open spec fn minimal_pred(gens: Seq<Seq<Seq<char>>>) -> spec_fn(Seq<Seq<char>>) -> bool {
    |g: Seq<Seq<char>>| !has_shorter_block(gens, g)
}

/// The minimal generators of the monomial ideal generated by `gens`: each
/// distinct word once, in order of first occurrence, dropping those that
/// contain a shorter generator as a block.
pub open spec fn minimal_antichain_spec(gens: Seq<Seq<Seq<char>>>) -> Seq<Seq<Seq<char>>> {
    dedup_first(gens).filter(minimal_pred(gens))
}

/// The word `w` is zero in `kQ^op / I`: it is not a path of `q`, or some
/// relation is a block of it.
pub open spec fn zero_word(q: Quiver, rels: Seq<Seq<Seq<char>>>, w: Seq<Seq<char>>) -> bool {
    !q.is_path(w) || exists|k: int| 0 <= k < rels.len() && is_subword(w, #[trigger] rels[k])
}

/// A quiver with monomial relations: the algebra `kQ^op / I` where `I` is
/// generated by the relation paths.
pub struct QuiverWithMonomialRelations {
    quiver: Arc<Quiver>,
    relations: Vec<Vec<String>>,
}

/// Whether the word `w` is among the words of `list`.
pub(crate) fn contains_word(list: &Vec<Vec<String>>, w: &Vec<String>) -> (r: bool)
    ensures
        r == list.deep_view().contains(w.deep_view()),
{
    let mut i: usize = 0;
    while i < list.len()
        invariant
            i <= list@.len(),
            forall|j: int| 0 <= j < i ==> list.deep_view()[j] != w.deep_view(),
        decreases list@.len() - i,
    {
        if labels_equal(list[i].as_slice(), w.as_slice()) {
            assert(list.deep_view()[i as int] == w.deep_view());
            return true;
        }
        i = i + 1;
    }
    proof {
        if list.deep_view().contains(w.deep_view()) {
            let j = choose|j: int| 0 <= j < list.deep_view().len() && list.deep_view()[j] == w.deep_view();
            assert(list.deep_view()[j] != w.deep_view());
        }
    }
    false
}

/// A copy of a word of labels.
pub(crate) fn copy_word(w: &Vec<String>) -> (r: Vec<String>)
    ensures
        r.deep_view() == w.deep_view(),
{
    let mut out: Vec<String> = Vec::new();
    let mut i: usize = 0;
    while i < w.len()
        invariant
            i <= w@.len(),
            out.deep_view() == w.deep_view().take(i as int),
        decreases w@.len() - i,
    {
        let ghost before = out.deep_view();
        out.push(w[i].clone());
        assert(out.deep_view() =~= before.push(w@[i as int]@));
        assert(w.deep_view()[i as int] == w@[i as int]@);
        assert(out.deep_view() =~= w.deep_view().take(i + 1));
        i = i + 1;
    }
    assert(w.deep_view().take(i as int) =~= w.deep_view());
    out
}

impl QuiverWithMonomialRelations {
    /// The quiver.
    pub closed spec fn spec_quiver(self) -> Quiver {
        *self.quiver
    }

    /// The relation paths, as words of labels.
    pub closed spec fn rels(self) -> Seq<Seq<Seq<char>>> {
        self.relations.deep_view()
    }

    /// The quiver is well formed.
    pub open spec fn wf(self) -> bool {
        self.spec_quiver().wf()
    }

    /// The algebra `kQ^op / I` with `I` generated by `ideal_generators`,
    /// kept as its minimal generators.
    pub fn new(quiver: Arc<Quiver>, ideal_generators: Vec<Vec<String>>) -> (r: Self)
        ensures
            r.spec_quiver() == *quiver,
            r.rels() == minimal_antichain_spec(ideal_generators.deep_view()),
    {
        let relations = Self::minimal_antichain(ideal_generators);
        QuiverWithMonomialRelations { quiver, relations }
    }

    /// The shared quiver.
    pub(crate) fn quiver_arc(&self) -> (r: &Arc<Quiver>)
        ensures
            **r == self.spec_quiver(),
    {
        &self.quiver
    }

    /// The vertex labels, each once.
    pub fn vertices(&self) -> (r: Vec<String>)
        requires
            self.wf(),
        ensures
            r.deep_view().no_duplicates(),
            forall|a: Seq<char>| #[trigger] r.deep_view().contains(a) <==> self.spec_quiver().has_vertex(a),
    {
        self.quiver.vertex_labels()
    }

    /// The arrow labels, each once.
    pub fn edge_labels(&self) -> (r: Vec<String>)
        requires
            self.wf(),
        ensures
            r.deep_view().no_duplicates(),
            forall|a: Seq<char>| #[trigger] r.deep_view().contains(a) <==> self.spec_quiver().has_arrow(a),
    {
        self.quiver.edge_labels()
    }

    /// The relation paths.
    pub fn relations(&self) -> (r: &[Vec<String>])
        ensures
            r.deep_view() == self.rels(),
    {
        self.relations.as_slice()
    }

    /// The source and target vertex labels of a basis element.
    pub fn basis_endpoints(&self, b: &BasisElt) -> (r: Option<(String, String)>)
        requires
            self.wf(),
        ensures
            r matches Some((s, t)) ==> self.spec_quiver().spec_basis_ends(b@) == Some((s@, t@)),
            r is None ==> self.spec_quiver().spec_basis_ends(b@) is None,
    {
        self.quiver.basis_endpoints(b)
    }

    /// Each distinct generator once, in order of first occurrence, without
    /// those that contain a shorter generator as a block.
    fn minimal_antichain(gens: Vec<Vec<String>>) -> (r: Vec<Vec<String>>)
        ensures
            r.deep_view() == minimal_antichain_spec(gens.deep_view()),
    {
        let ghost g = gens.deep_view();
        let mut dedup: Vec<Vec<String>> = Vec::new();
        let mut i: usize = 0;
        assert(g.take(0) =~= Seq::<Seq<Seq<char>>>::empty());
        while i < gens.len()
            invariant
                g == gens.deep_view(),
                i <= g.len(),
                dedup.deep_view() == dedup_first(g.take(i as int)),
            decreases g.len() - i,
        {
            proof {
                assert(g.take(i + 1).drop_last() =~= g.take(i as int));
                assert(g.take(i + 1).last() == g[i as int]);
            }
            if !contains_word(&dedup, &gens[i]) {
                let w = copy_word(&gens[i]);
                let ghost before = dedup.deep_view();
                dedup.push(w);
                assert(dedup.deep_view() =~= before.push(g[i as int]));
            }
            i = i + 1;
        }
        assert(g.take(i as int) =~= g);
        let ghost d = dedup.deep_view();
        let ghost p = minimal_pred(g);
        let mut out: Vec<Vec<String>> = Vec::new();
        let mut k: usize = 0;
        proof {
            reveal_with_fuel(Seq::filter, 1);
            assert(d.take(0) =~= Seq::<Seq<Seq<char>>>::empty());
            assert(out.deep_view() =~= d.take(0).filter(p));
        }
        while k < dedup.len()
            invariant
                g == gens.deep_view(),
                d == dedup.deep_view(),
                p == minimal_pred(g),
                k <= d.len(),
                out.deep_view() == d.take(k as int).filter(p),
            decreases d.len() - k,
        {
            let cand = &dedup[k];
            let mut shorter = false;
            let mut j: usize = 0;
            while j < gens.len()
                invariant
                    g == gens.deep_view(),
                    d == dedup.deep_view(),
                    k < d.len(),
                    cand.deep_view() == d[k as int],
                    j <= g.len(),
                    shorter == exists|m: int|
                        0 <= m < j && (#[trigger] g[m]).len() < d[k as int].len() && is_subword(d[k as int], g[m]),
                decreases g.len() - j,
            {
                let h = &gens[j];
                assert(g[j as int] == h.deep_view());
                if h.len() < cand.len() && labels_contain(cand.as_slice(), h.as_slice()) {
                    shorter = true;
                }
                proof {
                    if shorter {
                        if h.len() < cand.len() && is_subword(d[k as int], g[j as int]) {
                            assert(g[j as int].len() < d[k as int].len());
                        }
                    } else {
                        assert forall|m: int|
                            0 <= m < j + 1 && (#[trigger] g[m]).len() < d[k as int].len() implies !is_subword(
                            d[k as int],
                            g[m],
                        ) by {
                            if m == j {
                                assert(g[m].len() == h@.len());
                            }
                        }
                    }
                }
                j = j + 1;
            }
            proof {
                reveal_with_fuel(Seq::filter, 1);
                assert(d.take(k + 1).drop_last() =~= d.take(k as int));
                assert(d.take(k + 1).last() == d[k as int]);
                assert(p(d[k as int]) == !shorter);
            }
            if !shorter {
                let w = copy_word(cand);
                let ghost before = out.deep_view();
                out.push(w);
                assert(out.deep_view() =~= before.push(d[k as int]));
            }
            k = k + 1;
        }
        assert(d.take(k as int) =~= d);
        out
    }

    /// The source and target vertex labels of the sequence of arrows `word`.
    pub(crate) fn path_source_target(&self, word: &[String]) -> (r: Option<(String, String)>)
        requires
            self.wf(),
        ensures
            r matches Some((s, t)) ==> self.spec_quiver().spec_path_ends(word.deep_view()) == Some((s@, t@)),
            r is None ==> self.spec_quiver().spec_path_ends(word.deep_view()) is None,
    {
        self.quiver.path_source_target_labels(word)
    }

    /// The source and target vertex labels of the arrow `a`.
    pub(crate) fn edge_endpoint_labels(&self, a: &String) -> (r: Option<(String, String)>)
        requires
            self.wf(),
        ensures
            r matches Some((s, t)) ==> self.spec_quiver().has_arrow(a@) && s@ == self.spec_quiver().nodes()[self.spec_quiver().source_node(a@)]
                && t@ == self.spec_quiver().nodes()[self.spec_quiver().target_node(a@)],
            r is None ==> !self.spec_quiver().has_arrow(a@),
    {
        self.quiver.edge_endpoint_labels(a)
    }

    /// Whether some relation is a block of `word`.
    fn contains_relation(&self, word: &[String]) -> (r: bool)
        ensures
            r == exists|k: int| 0 <= k < self.rels().len() && is_subword(word.deep_view(), #[trigger] self.rels()[k]),
    {
        let mut k: usize = 0;
        while k < self.relations.len()
            invariant
                k <= self.rels().len(),
                forall|m: int| 0 <= m < k ==> !is_subword(word.deep_view(), #[trigger] self.rels()[m]),
            decreases self.rels().len() - k,
        {
            if labels_contain(word, self.relations[k].as_slice()) {
                assert(is_subword(word.deep_view(), self.rels()[k as int]));
                return true;
            }
            k = k + 1;
        }
        false
    }

    /// The word `word` is zero in the algebra: not a path, or containing a relation.
    pub(crate) fn is_zero_path_word(&self, word: &[String]) -> (r: bool)
        requires
            self.wf(),
        ensures
            r == zero_word(self.spec_quiver(), self.rels(), word.deep_view()),
    {
        if !self.quiver.is_composable_path(word) {
            return true;
        }
        self.contains_relation(word)
    }

    /// The nonempty word `word` is zero in the algebra.
    fn is_zero_path_nonempty(&self, word: &NonEmpty<String>) -> (r: bool)
        requires
            self.wf(),
        ensures
            r == zero_word(self.spec_quiver(), self.rels(), word_labels(*word)),
    {
        let v = word_to_vec(word);
        self.is_zero_path_word(v.as_slice())
    }

    /// `candidate` where it is nonzero in the algebra: idempotents always,
    /// paths unless they are zero words.
    pub fn retain_if_nonzero(&self, candidate: BasisElt) -> (r: Option<BasisElt>)
        requires
            self.wf(),
        ensures
            candidate@.0 ==> r == Some(candidate),
            !candidate@.0 ==> (r is None <==> zero_word(self.spec_quiver(), self.rels(), candidate@.1)),
            r matches Some(b) ==> b == candidate,
    {
        match candidate {
            BasisElt::Idempotent(v) => Some(BasisElt::Idempotent(v)),
            BasisElt::Path(non_empty) => {
                if self.is_zero_path_nonempty(&non_empty) {
                    None
                } else {
                    Some(BasisElt::Path(non_empty))
                }
            },
        }
    }

    /// The product of two basis elements in the algebra, in the `kQ^op`
    /// convention (`left` followed by `right`): `None` where it is zero, which
    /// for two paths includes a product containing a relation.
    pub fn multiply_basis_elts(&self, left: &BasisElt, right: &BasisElt) -> (r: Option<BasisElt>)
        requires
            self.wf(),
            self.spec_quiver().multiply_defined(left@, right@),
        ensures
            r matches Some(b) ==> spec_algebra_product(self.spec_quiver(), self.rels(), left@, right@) == Some(b@),
            r is None <==> spec_algebra_product(self.spec_quiver(), self.rels(), left@, right@) is None,
    {
        let left_was_idempotent = match left {
            BasisElt::Idempotent(_) => true,
            BasisElt::Path(_) => false,
        };
        let right_was_idempotent = match right {
            BasisElt::Idempotent(_) => true,
            BasisElt::Path(_) => false,
        };
        let product = match self.quiver.multiply_basis::<true>(left, right) {
            Some(p) => p,
            None => {
                return None;
            },
        };
        if !left_was_idempotent && !right_was_idempotent {
            self.retain_if_nonzero(product)
        } else {
            Some(product)
        }
    }
}

/// The product of two basis elements in `kQ^op / I` (`l` followed by `r`):
/// the product in `kQ^op`, unless it is zero there or, for two paths, a zero word.
pub open spec fn spec_algebra_product(
    q: Quiver,
    rels: Seq<Seq<Seq<char>>>,
    l: BasisView,
    r: BasisView,
) -> Option<BasisView> {
    match q.spec_multiply(true, l, r) {
        None => None,
        Some(p) => if !l.0 && !r.0 && zero_word(q, rels, p.1) {
            None
        } else {
            Some(p)
        },
    }
}


/// `format!("{prefix}{x:?}{suffix}")` for a label.
#[verifier::external_body]
fn describe_label(prefix: &str, x: &String, suffix: &str) -> String {
    format!("{prefix}{x:?}{suffix}")
}

/// `format!("{prefix}{x:?}{suffix}")` for a word of labels.
#[verifier::external_body]
fn describe_word(prefix: &str, x: &Vec<String>, suffix: &str) -> String {
    format!("{prefix}{x:?}{suffix}")
}

/// The number of edges at node `i` (leaving it where `outgoing`, entering it
/// otherwise) whose label satisfies `extra`.
pub open spec fn edges_at_where(q: Quiver, i: nat, outgoing: bool, extra: spec_fn(Seq<char>) -> bool) -> nat {
    Set::new(|e: usize| at_node(q, i, outgoing)(e) && label_satisfies(q, extra)(e)).len()
}

/// The edges at node `i`, leaving it where `outgoing`, entering it otherwise.
pub open spec fn at_node(q: Quiver, i: nat, outgoing: bool) -> spec_fn(usize) -> bool {
    |e: usize| edge_at_node(q.edges(), e as nat, i, outgoing)
}

/// The edges whose label satisfies `extra`.
pub open spec fn label_satisfies(q: Quiver, extra: spec_fn(Seq<char>) -> bool) -> spec_fn(usize) -> bool {
    |e: usize| extra(q.edges()[e as nat].2)
}

/// Every label.
pub open spec fn any_label() -> spec_fn(Seq<char>) -> bool {
    |l: Seq<char>| true
}

/// Some relation is the path `a b`.
pub open spec fn rel_pair(rels: Seq<Seq<Seq<char>>>, a: Seq<char>, b: Seq<char>) -> bool {
    exists|k: int| 0 <= k < rels.len() && (#[trigger] rels[k])[0] == a && rels[k][1] == b
}

/// The labels `l` for which `a l` (`a_first`) or `l a` is no relation.
pub open spec fn unrelated_to(rels: Seq<Seq<Seq<char>>>, a: Seq<char>, a_first: bool) -> spec_fn(Seq<char>) -> bool {
    |l: Seq<char>| if a_first {
        !rel_pair(rels, a, l)
    } else {
        !rel_pair(rels, l, a)
    }
}

/// The relations whose first (`first`) or last arrow is `a`.
pub open spec fn rel_at_end(a: Seq<char>, first: bool) -> spec_fn(Seq<Seq<char>>) -> bool {
    |rel: Seq<Seq<char>>| rel.len() > 0 && if first {
        rel[0] == a
    } else {
        rel.last() == a
    }
}

/// The algebra `kQ^op / I` is gentle: at most two arrows start and at most
/// two end at each vertex; every relation has length two; each arrow begins
/// at most one relation and ends at most one; and for each arrow `a`, at most
/// one arrow `b` after it has `a b` outside the relations, and at most one
/// arrow `c` before it has `c a` outside the relations.
pub open spec fn spec_is_gentle(q: Quiver, rels: Seq<Seq<Seq<char>>>) -> bool {
    &&& forall|v: Seq<char>|
        #[trigger] q.has_vertex(v) ==> edges_at_where(q, q.node_of(v), true, any_label()) <= 2 && edges_at_where(
            q,
            q.node_of(v),
            false,
            any_label(),
        ) <= 2
    &&& forall|k: int| 0 <= k < rels.len() ==> (#[trigger] rels[k]).len() == 2
    &&& forall|a: Seq<char>|
        #[trigger] q.has_arrow(a) ==> rels.filter(rel_at_end(a, true)).len() <= 1 && rels.filter(
            rel_at_end(a, false),
        ).len() <= 1
    &&& forall|a: Seq<char>|
        #[trigger] q.has_arrow(a) ==> edges_at_where(
            q,
            q.node_of(q.nodes()[q.target_node(a)]),
            true,
            unrelated_to(rels, a, true),
        ) <= 1 && edges_at_where(q, q.node_of(q.nodes()[q.source_node(a)]), false, unrelated_to(rels, a, false))
            <= 1
}

/// Filtering a duplicate-free list of everything satisfying `p` by `f` counts
/// what satisfies both.
proof fn lemma_count_listed(es: Seq<usize>, p: spec_fn(usize) -> bool, f: spec_fn(usize) -> bool)
    requires
        es.no_duplicates(),
        forall|e: usize| #[trigger] es.contains(e) <==> p(e),
    ensures
        es.filter(f).len() == Set::new(|e: usize| p(e) && f(e)).len(),
{
    lemma_filter_no_dup(es, f);
    let fs = es.filter(f);
    es.filter_lemma(f);
    assert(fs.to_set() =~= Set::new(|e: usize| p(e) && f(e))) by {
        assert forall|e: usize| fs.to_set().contains(e) <==> p(e) && f(e) by {
            assert(fs.to_set().contains(e) == fs.contains(e));
            if fs.contains(e) {
                es.lemma_filter_contains_rev(f, e);
                assert(es.contains(e));
            }
            if p(e) && f(e) {
                assert(es.contains(e));
                let k = choose|k: int| 0 <= k < es.len() && es[k] == e;
                assert(fs.contains(es[k]));
            }
        }
    }
    fs.unique_seq_to_set();
}

/// Filtering a sequence without duplicates leaves one without duplicates.
pub(crate) proof fn lemma_filter_no_dup<A>(s: Seq<A>, f: spec_fn(A) -> bool)
    requires
        s.no_duplicates(),
    ensures
        s.filter(f).no_duplicates(),
    decreases s.len(),
{
    reveal_with_fuel(Seq::filter, 1);
    if s.len() > 0 {
        let d = s.drop_last();
        assert(d.no_duplicates()) by {
            assert forall|i: int, j: int| 0 <= i < d.len() && 0 <= j < d.len() && i != j implies d[i] != d[j] by {
                assert(s[i] != s[j]);
            }
        }
        lemma_filter_no_dup(d, f);
        if f(s.last()) {
            let fd = d.filter(f);
            assert forall|i: int| 0 <= i < fd.len() implies fd[i] != s.last() by {
                if fd[i] == s.last() {
                    assert(fd.contains(s.last()));
                    d.lemma_filter_contains_rev(f, s.last());
                    let k = choose|k: int| 0 <= k < d.len() && d[k] == s.last();
                    assert(s[k] == s[s.len() - 1]);
                }
            }
            let r = fd.push(s.last());
            assert forall|i: int, j: int| 0 <= i < r.len() && 0 <= j < r.len() && i != j implies r[i] != r[j] by {
                if i < fd.len() && j < fd.len() {
                } else if i == fd.len() {
                    assert(fd[j] != s.last());
                } else {
                    assert(fd[i] != s.last());
                }
            }
        }
    }
}

impl QuiverWithMonomialRelations {
    /// Whether `a b` is one of the relations, all of which have length two.
    fn has_rel_pair(&self, a: &String, b: &String) -> (r: bool)
        requires
            forall|k: int| 0 <= k < self.rels().len() ==> (#[trigger] self.rels()[k]).len() == 2,
        ensures
            r == rel_pair(self.rels(), a@, b@),
    {
        let mut k: usize = 0;
        while k < self.relations.len()
            invariant
                forall|m: int| 0 <= m < self.rels().len() ==> (#[trigger] self.rels()[m]).len() == 2,
                k <= self.rels().len(),
                forall|m: int| 0 <= m < k ==> !((#[trigger] self.rels()[m])[0] == a@ && self.rels()[m][1] == b@),
            decreases self.rels().len() - k,
        {
            let rel = &self.relations[k];
            assert(self.rels()[k as int] == rel.deep_view());
            assert(rel@.len() == 2);
            if rel[0] == *a && rel[1] == *b {
                assert(self.rels()[k as int][0] == a@ && self.rels()[k as int][1] == b@);
                return true;
            }
            k = k + 1;
        }
        false
    }

    /// The number of the listed arrows `nbrs` (the neighbours at some node,
    /// enumerated by the edges `es`) whose label `l` has `a l` (`a_first`) or
    /// `l a` outside the relations.
    fn count_unrelated(
        &self,
        nbrs: &Vec<(String, String)>,
        a: &String,
        a_first: bool,
        Ghost(es): Ghost<Seq<usize>>,
        Ghost(q): Ghost<Quiver>,
    ) -> (c: usize)
        requires
            forall|k: int| 0 <= k < self.rels().len() ==> (#[trigger] self.rels()[k]).len() == 2,
            es.len() == nbrs@.len(),
            forall|k: int| 0 <= k < es.len() ==> #[trigger] pairs_view(nbrs@)[k].0 == q.edges()[es[k] as nat].2,
        ensures
            c == es.filter(label_satisfies(q, unrelated_to(self.rels(), a@, a_first))).len(),
    {
        let ghost f = label_satisfies(q, unrelated_to(self.rels(), a@, a_first));
        let mut c: usize = 0;
        let mut k: usize = 0;
        proof {
            reveal_with_fuel(Seq::filter, 1);
            assert(es.take(0) =~= Seq::<usize>::empty());
        }
        while k < nbrs.len()
            invariant
                forall|m: int| 0 <= m < self.rels().len() ==> (#[trigger] self.rels()[m]).len() == 2,
                es.len() == nbrs@.len(),
                forall|m: int| 0 <= m < es.len() ==> #[trigger] pairs_view(nbrs@)[m].0 == q.edges()[es[m] as nat].2,
                f == label_satisfies(q, unrelated_to(self.rels(), a@, a_first)),
                k <= es.len(),
                c == es.take(k as int).filter(f).len(),
                c <= k,
            decreases es.len() - k,
        {
            let l = &nbrs[k].0;
            assert(pairs_view(nbrs@)[k as int].0 == l@);
            let related = if a_first {
                self.has_rel_pair(a, l)
            } else {
                self.has_rel_pair(l, a)
            };
            proof {
                reveal_with_fuel(Seq::filter, 1);
                assert(es.take(k + 1).drop_last() =~= es.take(k as int));
                assert(es.take(k + 1).last() == es[k as int]);
                assert(f(es[k as int]) == !related);
            }
            if !related {
                c = c + 1;
            }
            k = k + 1;
        }
        assert(es.take(k as int) =~= es);
        c
    }

    /// Whether the algebra `kQ^op / I` is gentle; where it is not, the reason.
    pub fn is_gentle(&self) -> (r: Result<(), String>)
        requires
            self.wf(),
        ensures
            r is Ok <==> spec_is_gentle(self.spec_quiver(), self.rels()),
    {
        let ghost q = self.spec_quiver();
        let ghost rels = self.rels();
        let vertices = self.quiver.vertex_labels();
        let mut i: usize = 0;
        while i < vertices.len()
            invariant
                q == self.spec_quiver(),
                q.wf(),
                forall|v: Seq<char>| #[trigger] vertices.deep_view().contains(v) <==> q.has_vertex(v),
                i <= vertices@.len(),
                forall|j: int|
                    0 <= j < i ==> edges_at_where(q, q.node_of(#[trigger] vertices.deep_view()[j]), true, any_label()) <= 2
                        && edges_at_where(q, q.node_of(vertices.deep_view()[j]), false, any_label()) <= 2,
            decreases vertices@.len() - i,
        {
            let vertex = &vertices[i];
            assert(vertices.deep_view()[i as int] == vertex@);
            assert(vertices.deep_view().contains(vertex@));
            let succ = self.quiver.successors(vertex);
            let pred = self.quiver.predecessors(vertex);
            proof {
                let n = q.node_of(vertex@);
                let es = choose|es: Seq<usize>| #[trigger] q.lists_neighbours(n, true, es, pairs_view(succ@));
                lemma_count_listed(es, at_node(q, n, true), label_satisfies(q, any_label()));
                lemma_filter_all(es, label_satisfies(q, any_label()));
                let ps = choose|es: Seq<usize>| #[trigger] q.lists_neighbours(n, false, es, pairs_view(pred@));
                lemma_count_listed(ps, at_node(q, n, false), label_satisfies(q, any_label()));
                lemma_filter_all(ps, label_satisfies(q, any_label()));
                assert(succ@.len() == edges_at_where(q, n, true, any_label()));
                assert(pred@.len() == edges_at_where(q, n, false, any_label()));
            }
            if succ.len() > 2 || pred.len() > 2 {
                return Err(
                    describe_label("Vertex ", vertex, " has more than 2 arrows starting or ending at it"),
                );
            }
            i = i + 1;
        }
        assert forall|v: Seq<char>| #[trigger] q.has_vertex(v) implies edges_at_where(
            q,
            q.node_of(v),
            true,
            any_label(),
        ) <= 2 && edges_at_where(q, q.node_of(v), false, any_label()) <= 2 by {
            assert(vertices.deep_view().contains(v));
            let j = choose|j: int| 0 <= j < vertices.deep_view().len() && vertices.deep_view()[j] == v;
        }
        let mut k: usize = 0;
        while k < self.relations.len()
            invariant
                rels == self.rels(),
                k <= rels.len(),
                forall|m: int| 0 <= m < k ==> (#[trigger] rels[m]).len() == 2,
            decreases rels.len() - k,
        {
            assert(rels[k as int] == self.relations@[k as int].deep_view());
            if self.relations[k].len() != 2 {
                return Err(describe_word("Relation ", &self.relations[k], " is monomial but not of length 2"));
            }
            k = k + 1;
        }
        let labels = self.quiver.edge_labels();
        let mut e: usize = 0;
        while e < labels.len()
            invariant
                q == self.spec_quiver(),
                rels == self.rels(),
                q.wf(),
                forall|m: int| 0 <= m < rels.len() ==> (#[trigger] rels[m]).len() == 2,
                forall|a: Seq<char>| #[trigger] labels.deep_view().contains(a) <==> q.has_arrow(a),
                e <= labels@.len(),
                forall|j: int|
                    0 <= j < e ==> rels.filter(rel_at_end(#[trigger] labels.deep_view()[j], true)).len() <= 1
                        && rels.filter(rel_at_end(labels.deep_view()[j], false)).len() <= 1,
            decreases labels@.len() - e,
        {
            let a = &labels[e];
            assert(labels.deep_view()[e as int] == a@);
            assert(labels.deep_view().contains(a@));
            assert(q.has_arrow(a@));
            let starting = self.count_rels_at_end(a, true);
            if starting > 1 {
                return Err(describe_label("There are too many relations of the form ", a, "*? in the ideal"));
            }
            let ending = self.count_rels_at_end(a, false);
            if ending > 1 {
                return Err(describe_label("There are too many relations of the form ?*", a, " in the ideal"));
            }
            e = e + 1;
        }
        let mut e: usize = 0;
        while e < labels.len()
            invariant
                q == self.spec_quiver(),
                rels == self.rels(),
                q.wf(),
                forall|m: int| 0 <= m < rels.len() ==> (#[trigger] rels[m]).len() == 2,
                forall|a: Seq<char>| #[trigger] labels.deep_view().contains(a) <==> q.has_arrow(a),
                e <= labels@.len(),
                forall|j: int|
                    0 <= j < e ==> edges_at_where(
                        q,
                        q.node_of(q.nodes()[q.target_node(#[trigger] labels.deep_view()[j])]),
                        true,
                        unrelated_to(rels, labels.deep_view()[j], true),
                    ) <= 1 && edges_at_where(
                        q,
                        q.node_of(q.nodes()[q.source_node(labels.deep_view()[j])]),
                        false,
                        unrelated_to(rels, labels.deep_view()[j], false),
                    ) <= 1,
            decreases labels@.len() - e,
        {
            let a = &labels[e];
            assert(labels.deep_view()[e as int] == a@);
            assert(labels.deep_view().contains(a@));
            let (src, tgt) = match self.quiver.edge_endpoint_labels(a) {
                Some(p) => p,
                None => {
                    assert(false);
                    return Ok(());
                },
            };
            proof {
                assert(q.edges().contains_key(q.arrow_index()[a@] as nat));
                assert(q.vertex_index().contains_key(q.nodes()[q.target_node(a@)]));
                assert(q.vertex_index().contains_key(q.nodes()[q.source_node(a@)]));
            }
            let succ = self.quiver.successors(&tgt);
            let ghost nt = q.node_of(tgt@);
            let ghost es = choose|es: Seq<usize>| #[trigger] q.lists_neighbours(nt, true, es, pairs_view(succ@));
            let after = self.count_unrelated(&succ, a, true, Ghost(es), Ghost(q));
            proof {
                lemma_count_listed(es, at_node(q, nt, true), label_satisfies(q, unrelated_to(rels, a@, true)));
                assert(after == edges_at_where(q, nt, true, unrelated_to(rels, a@, true)));
            }
            if after > 1 {
                return Err(
                    describe_label(
                        "There are too many composable pairs of the form ",
                        a,
                        "*? that are not in the ideal",
                    ),
                );
            }
            let pred = self.quiver.predecessors(&src);
            let ghost ns = q.node_of(src@);
            let ghost ps = choose|es: Seq<usize>| #[trigger] q.lists_neighbours(ns, false, es, pairs_view(pred@));
            let before = self.count_unrelated(&pred, a, false, Ghost(ps), Ghost(q));
            proof {
                lemma_count_listed(ps, at_node(q, ns, false), label_satisfies(q, unrelated_to(rels, a@, false)));
                assert(before == edges_at_where(q, ns, false, unrelated_to(rels, a@, false)));
            }
            if before > 1 {
                return Err(
                    describe_label(
                        "There are too many composable pairs of the form ?*",
                        a,
                        " that are not in the ideal",
                    ),
                );
            }
            e = e + 1;
        }
        proof {
            assert forall|a: Seq<char>| #[trigger] q.has_arrow(a) implies edges_at_where(
                q,
                q.node_of(q.nodes()[q.target_node(a)]),
                true,
                unrelated_to(rels, a, true),
            ) <= 1 && edges_at_where(q, q.node_of(q.nodes()[q.source_node(a)]), false, unrelated_to(rels, a, false))
                <= 1 && rels.filter(rel_at_end(a, true)).len() <= 1 && rels.filter(rel_at_end(a, false)).len() <= 1 by {
                assert(labels.deep_view().contains(a));
                let j = choose|j: int| 0 <= j < labels.deep_view().len() && labels.deep_view()[j] == a;
            }
        }
        Ok(())
    }

    /// The number of relations whose first (`first`) or last arrow is `a`.
    fn count_rels_at_end(&self, a: &String, first: bool) -> (c: usize)
        requires
            forall|m: int| 0 <= m < self.rels().len() ==> (#[trigger] self.rels()[m]).len() == 2,
        ensures
            c == self.rels().filter(rel_at_end(a@, first)).len(),
    {
        let ghost rels = self.rels();
        let mut c: usize = 0;
        let mut k: usize = 0;
        proof {
            reveal_with_fuel(Seq::filter, 1);
            assert(rels.take(0) =~= Seq::<Seq<Seq<char>>>::empty());
        }
        while k < self.relations.len()
            invariant
                rels == self.rels(),
                forall|m: int| 0 <= m < rels.len() ==> (#[trigger] rels[m]).len() == 2,
                k <= rels.len(),
                c == rels.take(k as int).filter(rel_at_end(a@, first)).len(),
                c <= k,
            decreases rels.len() - k,
        {
            let rel = &self.relations[k];
            assert(rels[k as int] == rel.deep_view());
            assert(rel@.len() == 2);
            let hit = if first {
                rel[0] == *a
            } else {
                rel[1] == *a
            };
            proof {
                reveal_with_fuel(Seq::filter, 1);
                assert(rels.take(k + 1).drop_last() =~= rels.take(k as int));
                assert(rels.take(k + 1).last() == rels[k as int]);
                assert(rels[k as int].last() == rels[k as int][1]);
                assert(rel_at_end(a@, first)(rels[k as int]) == hit);
            }
            if hit {
                c = c + 1;
            }
            k = k + 1;
        }
        assert(rels.take(k as int) =~= rels);
        c
    }
}

/// Filtering by a predicate every entry satisfies keeps the whole sequence.
proof fn lemma_filter_all<A>(s: Seq<A>, f: spec_fn(A) -> bool)
    requires
        forall|x: A| #[trigger] f(x),
    ensures
        s.filter(f) == s,
    decreases s.len(),
{
    reveal_with_fuel(Seq::filter, 1);
    if s.len() > 0 {
        lemma_filter_all(s.drop_last(), f);
        assert(s.drop_last().push(s.last()) =~= s);
    }
}


/// The words of the first `n` relations `rels`, each a single path, or the
/// error for the first relation that is not.
pub open spec fn monomial_words<C>(rels: Seq<Seq<(BasisView, C)>>, n: int) -> Result<
    Seq<Seq<Seq<char>>>,
    NonMonomialIdeal,
>
    decreases n,
{
    if n <= 0 {
        Ok(Seq::empty())
    } else {
        match monomial_words(rels, n - 1) {
            Err(e) => Err(e),
            Ok(prev) => if rels[n - 1].len() != 1 {
                Err(NonMonomialIdeal::NonMonomialRelation { relation_index: (n - 1) as usize })
            } else if rels[n - 1][0].0.0 {
                Err(NonMonomialIdeal::IdempotentRelation { relation_index: (n - 1) as usize })
            } else {
                Ok(prev.push(rels[n - 1][0].0.1))
            },
        }
    }
}

/// Once a relation is rejected, the outcome stays that rejection.
proof fn lemma_monomial_err_stays<C>(rels: Seq<Seq<(BasisView, C)>>, j: int, n: int)
    requires
        j <= n,
        monomial_words(rels, j) is Err,
    ensures
        monomial_words(rels, n) == monomial_words(rels, j),
    decreases n - j,
{
    if j < n {
        lemma_monomial_err_stays(rels, j, n - 1);
    }
}

impl QuiverWithMonomialRelations {
    /// The monomial algebra of `algebra`, whose relations must each be a
    /// single path (its coefficient ignored): the relations' paths are kept as
    /// they are. The first relation with several terms, or that is an
    /// idempotent, is reported.
    pub fn try_from_relations<Coeffs: Ring + Copy, const OP_ALG: bool>(
        algebra: &QuiverWithRelations<Coeffs, OP_ALG>,
    ) -> (r: Result<Self, NonMonomialIdeal>)
        ensures
            match monomial_words(algebra.rels(), algebra.rels().len() as int) {
                Ok(ws) => r matches Ok(m) && m.spec_quiver() == algebra.spec_quiver() && m.rels() == ws,
                Err(e) => r == Err::<Self, NonMonomialIdeal>(e),
            },
    {
        let relations = algebra.relations();
        let ghost rs = algebra.rels();
        let mut words: Vec<Vec<String>> = Vec::new();
        assert(words.deep_view() =~= Seq::<Seq<Seq<char>>>::empty());
        let mut i: usize = 0;
        while i < relations.len()
            invariant
                rs == crate::quiver_with_rels::relation_terms(relations@),
                rs == algebra.rels(),
                i <= relations@.len(),
                monomial_words(rs, i as int) == Ok::<Seq<Seq<Seq<char>>>, NonMonomialIdeal>(words.deep_view()),
            decreases relations@.len() - i,
        {
            let rel = &relations[i];
            assert(rs[i as int] == rel.terms());
            if !rel.is_monomial() {
                proof {
                    assert(monomial_words(rs, i + 1) == Err::<Seq<Seq<Seq<char>>>, NonMonomialIdeal>(
                        NonMonomialIdeal::NonMonomialRelation { relation_index: i },
                    ));
                    lemma_monomial_err_stays(rs, i + 1, rs.len() as int);
                }
                return Err(NonMonomialIdeal::NonMonomialRelation { relation_index: i });
            }
            let terms = rel.iter();
            assert(crate::path_algebra::terms_of(terms@)[0] == rs[i as int][0]);
            match &terms[0].0 {
                BasisElt::Path(w) => {
                    let v = word_to_vec(w);
                    let ghost before = words.deep_view();
                    words.push(v);
                    assert(words.deep_view() =~= before.push(rs[i as int][0].0.1));
                },
                BasisElt::Idempotent(_) => {
                    proof {
                        assert(monomial_words(rs, i + 1) == Err::<Seq<Seq<Seq<char>>>, NonMonomialIdeal>(
                            NonMonomialIdeal::IdempotentRelation { relation_index: i },
                        ));
                        lemma_monomial_err_stays(rs, i + 1, rs.len() as int);
                    }
                    return Err(NonMonomialIdeal::IdempotentRelation { relation_index: i });
                },
            }
            i = i + 1;
        }
        Ok(QuiverWithMonomialRelations { quiver: arc_clone(algebra.quiver()), relations: words })
    }
}


} // verus!

//! Quivers of Dynkin type `A_n`, `D_n`, `B_n` and `C_n` in a default
//! orientation, from given vertex and arrow labels.
use crate::graph::{edges_between, index_limit};
use crate::quiver::Quiver;
use vstd::prelude::*;

verus! {

/// The number of arrows among the first `n` of `arrows` that join the same
/// pair of vertex positions as an earlier one.
pub open spec fn repeated_pairs(arrows: Seq<(usize, usize, String)>, n: int) -> nat
    decreases n,
{
    if n <= 0 {
        0
    } else {
        repeated_pairs(arrows, n - 1) + if exists|j: int|
            0 <= j < n - 1 && (#[trigger] arrows[j]).0 == arrows[n - 1].0 && arrows[j].1 == arrows[n - 1].1 {
            1nat
        } else {
            0nat
        }
    }
}

/// No arrow after the `k`-th of `labels` carries its label.
pub open spec fn last_with_label(labels: Seq<Seq<char>>, k: int) -> bool {
    forall|j: int| k < j < labels.len() ==> labels[j] != labels[k]
}

/// `q` has the vertices `names` and, for each `k`, an arrow `labels[k]` from
/// `names[shape[k].0]` to `names[shape[k].1]` (where a label is given twice,
/// it names its last arrow).
pub open spec fn built_from(
    q: Quiver,
    names: Seq<Seq<char>>,
    shape: Seq<(int, int)>,
    labels: Seq<Seq<char>>,
) -> bool {
    &&& q.wf()
    &&& forall|v: Seq<char>| #[trigger] q.has_vertex(v) <==> names.contains(v)
    &&& forall|a: Seq<char>| #[trigger] q.has_arrow(a) <==> labels.contains(a)
    &&& forall|k: int|
        0 <= k < labels.len() && last_with_label(labels, k) ==> q.nodes()[q.source_node(
            #[trigger] labels[k],
        )] == names[shape[k].0] && q.nodes()[q.target_node(labels[k])] == names[shape[k].1]
}

/// The positions joined by the arrows of `A_n`: `k -> k + 1`.
pub open spec fn a_n_shape(n: nat) -> Seq<(int, int)> {
    Seq::new((if n == 0 { 0 } else { n - 1 }) as nat, |k: int| (k, k + 1))
}

/// The positions joined by the arrows of `D_n`: a chain `0 -> 1 -> ... -> n-2`
/// and a last arrow `n-3 -> n-1`.
pub open spec fn d_n_shape(n: nat) -> Seq<(int, int)> {
    Seq::new(
        (if n < 3 { 0 } else { n - 1 }) as nat,
        |k: int|
            if k < n - 2 {
                (k, k + 1)
            } else {
                (n - 3, n - 1)
            },
    )
}

/// How many of the first `m` arrows of `shape` have the position `v` as an end.
pub open spec fn touches(shape: Seq<(int, int)>, v: int, m: int) -> nat
    decreases m,
{
    if m <= 0 {
        0
    } else {
        touches(shape, v, m - 1) + if shape[m - 1].0 == v || shape[m - 1].1 == v {
            1nat
        } else {
            0nat
        }
    }
}

/// Along `A_n`, a position is an end of the arrow before it and of the arrow
/// after it, where they exist.
proof fn lemma_a_n_touches(n: nat, v: int, m: int)
    requires
        n >= 1,
        0 <= m <= n - 1,
    ensures
        touches(a_n_shape(n), v, m) == (if 0 <= v < m {
            1nat
        } else {
            0nat
        }) + (if 1 <= v <= m {
            1nat
        } else {
            0nat
        }),
    decreases m,
{
    if m > 0 {
        lemma_a_n_touches(n, v, m - 1);
        assert(a_n_shape(n)[m - 1] == (m - 1, m));
    }
}

/// `A_n` (for `n >= 2`) is a path: its `n - 1` arrows each go from a
/// position to the next one, the two end positions are each an end of one
/// arrow, and every other position of exactly two.
pub proof fn law_a_n_is_a_path(n: nat)
    requires
        n >= 2,
    ensures
        a_n_shape(n).len() == n - 1,
        forall|k: int| 0 <= k < n - 1 ==> #[trigger] a_n_shape(n)[k] == (k, k + 1),
        touches(a_n_shape(n), 0, n - 1) == 1,
        touches(a_n_shape(n), n - 1, n - 1) == 1,
        forall|v: int| 0 < v < n - 1 ==> #[trigger] touches(a_n_shape(n), v, n - 1) == 2,
{
    lemma_a_n_touches(n, 0, n - 1);
    lemma_a_n_touches(n, n - 1, n - 1);
    assert forall|v: int| 0 < v < n - 1 implies #[trigger] touches(a_n_shape(n), v, n - 1) == 2 by {
        lemma_a_n_touches(n, v, n - 1);
    }
}

/// Along the chain part of `D_n`, a position is an end of the arrow before
/// it and of the arrow after it, where they exist.
proof fn lemma_d_n_chain_touches(n: nat, v: int, m: int)
    requires
        n >= 4,
        0 <= m <= n - 2,
    ensures
        touches(d_n_shape(n), v, m) == (if 0 <= v < m {
            1nat
        } else {
            0nat
        }) + (if 1 <= v <= m {
            1nat
        } else {
            0nat
        }),
    decreases m,
{
    if m > 0 {
        lemma_d_n_chain_touches(n, v, m - 1);
        assert(d_n_shape(n)[m - 1] == (m - 1, m));
    }
}

/// `D_n` (for `n >= 4`) is a tree with a single branch point: its `n - 1`
/// arrows each go from a smaller to a larger position among `0..n`, every
/// position is an end of some arrow, the position `n - 3` is an end of
/// exactly three arrows, and every other position of at most two.
pub proof fn law_d_n_has_one_branch_point(n: nat)
    requires
        n >= 4,
    ensures
        d_n_shape(n).len() == n - 1,
        forall|k: int|
            0 <= k < n - 1 ==> 0 <= (#[trigger] d_n_shape(n)[k]).0 < d_n_shape(n)[k].1 < n,
        touches(d_n_shape(n), n - 3, n - 1) == 3,
        forall|v: int|
            0 <= v < n && v != n - 3 ==> 1 <= #[trigger] touches(d_n_shape(n), v, n - 1) <= 2,
{
    let shape = d_n_shape(n);
    assert(shape[n - 2] == (n - 3, n - 1));
    lemma_d_n_chain_touches(n, n - 3, n - 2);
    assert forall|v: int| 0 <= v < n && v != n - 3 implies 1 <= #[trigger] touches(shape, v, n - 1) <= 2 by {
        lemma_d_n_chain_touches(n, v, n - 2);
    }
}

/// The positions joined by the arrows of `B_n` (`type_b`) or `C_n`: a chain
/// `0 -> ... -> n-2`, then a double arrow `n-2 -> n-1` for `B_n`, or
/// `n-1 -> n-2` for `C_n`.
pub open spec fn bc_n_shape(type_b: bool, n: nat) -> Seq<(int, int)> {
    Seq::new(
        (if n < 2 { 0 } else { n }) as nat,
        |k: int|
            if k < n - 2 {
                (k, k + 1)
            } else if type_b {
                (n - 2, n - 1)
            } else {
                (n - 1, n - 2)
            },
    )
}

/// The arrows of `shape` labelled by `labels`, as positions.
pub open spec fn labelled(shape: Seq<(int, int)>, labels: Seq<String>) -> Seq<(usize, usize, String)> {
    Seq::new(shape.len(), |k: int| (shape[k].0 as usize, shape[k].1 as usize, labels[k]))
}

proof fn lemma_distinct_pairs(arrows: Seq<(usize, usize, String)>, n: int)
    requires
        0 <= n <= arrows.len(),
        forall|j: int, k: int|
            0 <= j < k < n ==> arrows[j].0 != arrows[k].0 || arrows[j].1 != arrows[k].1,
    ensures
        repeated_pairs(arrows, n) == 0,
    decreases n,
{
    if n > 0 {
        lemma_distinct_pairs(arrows, n - 1);
    }
}

/// Build the quiver with the vertices `names` (added in order) and, for each
/// `(i, j, l)` of `arrows` in order, an arrow `l: names[i] -> names[j]`.
#[verifier::rlimit(40)]
fn quiver_from_positions(names: &[String], arrows: Vec<(usize, usize, String)>) -> (q: Quiver)
    requires
        names@.len() + 3 < index_limit(),
        arrows@.len() + 2 < index_limit(),
        forall|k: int| 0 <= k < arrows@.len() ==> (#[trigger] arrows@[k]).0 < names@.len() && arrows@[k].1 < names@.len(),
        arrows@.len() < 255 || (names.deep_view().no_duplicates() && repeated_pairs(arrows@, arrows@.len() as int) < 255),
    ensures
        q.wf(),
        q.nodes().len() == names@.len(),
        q.edges().len() == arrows@.len(),
        forall|v: Seq<char>| #[trigger] q.has_vertex(v) <==> names.deep_view().contains(v),
        forall|a: Seq<char>| #[trigger] q.has_arrow(a) <==> exists|k: int| 0 <= k < arrows@.len() && (#[trigger] arrows@[k]).2@ == a,
        forall|k: int|
            0 <= k < arrows@.len() && (forall|j: int| k < j < arrows@.len() ==> arrows@[j].2@ != arrows@[k].2@)
                ==> q.nodes()[q.source_node((#[trigger] arrows@[k]).2@)] == names@[arrows@[k].0 as int]@
                && q.nodes()[q.target_node(arrows@[k].2@)] == names@[arrows@[k].1 as int]@,
{
    let ghost nv = names.deep_view();
    let mut q = Quiver::new();
    let mut i: usize = 0;
    while i < names.len()
        invariant
            nv == names.deep_view(),
            names@.len() + 3 < index_limit(),
            i <= names@.len(),
            q.wf(),
            q.nodes().len() == i,
            q.edges() =~= Map::empty(),
            q.arrow_index() =~= Map::empty(),
            q.parallel_pairs() == 0,
            forall|v: Seq<char>| #[trigger] q.has_vertex(v) <==> exists|m: int| 0 <= m < i && nv[m] == v,
        decreases names@.len() - i,
    {
        let ghost before = q;
        q.add_vertex(names[i].clone());
        proof {
            assert(q.nodes().len() == before.nodes().len() + 1);
            assert(nv[i as int] == names@[i as int]@);
            assert forall|v: Seq<char>| #[trigger] q.has_vertex(v) <==> exists|m: int| 0 <= m < i + 1 && nv[m] == v by {
                if q.has_vertex(v) {
                    if v == nv[i as int] {
                        assert(nv[i as int] == v);
                    } else {
                        assert(before.has_vertex(v));
                        let m = choose|m: int| 0 <= m < i && nv[m] == v;
                        assert(nv[m] == v);
                    }
                }
                if exists|m: int| 0 <= m < i + 1 && nv[m] == v {
                    let m = choose|m: int| 0 <= m < i + 1 && nv[m] == v;
                    if m < i {
                        assert(before.has_vertex(v));
                    }
                }
            }
        }
        i = i + 1;
    }
    assert forall|v: Seq<char>| #[trigger] q.has_vertex(v) <==> nv.contains(v) by {
        if nv.contains(v) {
            let m = choose|m: int| 0 <= m < nv.len() && nv[m] == v;
            assert(nv[m] == v);
        }
    }
    let ghost q0 = q;
    let mut k: usize = 0;
    while k < arrows.len()
        invariant
            nv == names.deep_view(),
            names@.len() + 3 < index_limit(),
            arrows@.len() + 2 < index_limit(),
            forall|m: int| 0 <= m < arrows@.len() ==> (#[trigger] arrows@[m]).0 < names@.len() && arrows@[m].1 < names@.len(),
            arrows@.len() < 255 || (nv.no_duplicates() && repeated_pairs(arrows@, arrows@.len() as int) < 255),
            k <= arrows@.len(),
            q.wf(),
            q.nodes() == q0.nodes(),
            q.vertex_index() == q0.vertex_index(),
            q.nodes().len() == names@.len(),
            q.edges().len() == k,
            forall|v: Seq<char>| #[trigger] q.has_vertex(v) <==> nv.contains(v),
            q.parallel_pairs() <= k,
            nv.no_duplicates() ==> q.parallel_pairs() <= repeated_pairs(arrows@, k as int),
            forall|e: nat| #[trigger] q.edges().contains_key(e) ==> exists|m: int| 0 <= m < k
                && q.edges()[e].0 == q.node_of(nv[arrows@[m].0 as int])
                && q.edges()[e].1 == q.node_of(nv[arrows@[m].1 as int]),
            forall|a: Seq<char>| #[trigger] q.has_arrow(a) <==> exists|m: int| 0 <= m < k && (#[trigger] arrows@[m]).2@ == a,
            forall|m: int|
                0 <= m < k && (forall|j: int| m < j < k ==> arrows@[j].2@ != arrows@[m].2@)
                    ==> q.nodes()[q.source_node((#[trigger] arrows@[m]).2@)] == nv[arrows@[m].0 as int]
                    && q.nodes()[q.target_node(arrows@[m].2@)] == nv[arrows@[m].1 as int],
        decreases arrows@.len() - k,
    {
        let from = names[arrows[k].0].clone();
        let to = names[arrows[k].1].clone();
        let label = arrows[k].2.clone();
        let ghost before = q;
        let ghost fi = arrows@[k as int].0 as int;
        let ghost ti = arrows@[k as int].1 as int;
        proof {
            assert(nv[fi] == from@);
            assert(nv[ti] == to@);
            assert(nv.contains(from@));
            assert(nv.contains(to@));
            if before.has_vertex(from@) && before.has_vertex(to@)
                && edges_between(before.edges(), before.node_of(from@), before.node_of(to@)).len() > 0 {
                if nv.no_duplicates() {
                    lemma_parallel_is_repeat(before, nv, arrows@, k as int);
                    lemma_mono(arrows@, k + 1, arrows@.len() as int);
                }
            }
            if nv.no_duplicates() {
                lemma_mono(arrows@, k as int, k + 1);
            }
        }
        q.add_edge(from, to, label);
        proof {
            assert(q.edges().len() == before.edges().len() + 1);
            if nv.no_duplicates() {
                assert(repeated_pairs(arrows@, k + 1) >= repeated_pairs(arrows@, k as int));
            }
            assert forall|e: nat| #[trigger] q.edges().contains_key(e) implies exists|m: int| 0 <= m < k + 1
                && q.edges()[e].0 == q.node_of(nv[arrows@[m].0 as int])
                && q.edges()[e].1 == q.node_of(nv[arrows@[m].1 as int]) by {
                if before.edges().contains_key(e) {
                    let m = choose|m: int| 0 <= m < k
                        && before.edges()[e].0 == before.node_of(nv[arrows@[m].0 as int])
                        && before.edges()[e].1 == before.node_of(nv[arrows@[m].1 as int]);
                    assert(q.edges()[e] == before.edges()[e]);
                } else {
                    assert(q.edges()[e].0 == q.node_of(nv[fi]));
                }
            }
            assert forall|a: Seq<char>| #[trigger] q.has_arrow(a) <==> exists|m: int| 0 <= m < k + 1 && (#[trigger] arrows@[m]).2@ == a by {
                if a == label@ {
                    assert(arrows@[k as int].2@ == a);
                } else if before.has_arrow(a) {
                    let m = choose|m: int| 0 <= m < k && (#[trigger] arrows@[m]).2@ == a;
                    assert(arrows@[m].2@ == a);
                }
            }
            assert forall|m: int|
                0 <= m < k + 1 && (forall|j: int| m < j < k + 1 ==> arrows@[j].2@ != arrows@[m].2@)
                    implies q.nodes()[q.source_node((#[trigger] arrows@[m]).2@)] == nv[arrows@[m].0 as int]
                    && q.nodes()[q.target_node(arrows@[m].2@)] == nv[arrows@[m].1 as int] by {
                if m == k {
                    assert(q.has_vertex(from@));
                    assert(q.has_vertex(to@));
                    assert(q.nodes()[q.node_of(from@)] == from@);
                    assert(q.nodes()[q.node_of(to@)] == to@);
                } else {
                    assert(arrows@[k as int].2@ != arrows@[m].2@);
                    assert(before.has_arrow(arrows@[m].2@));
                    assert(q.arrow_index()[arrows@[m].2@] == before.arrow_index()[arrows@[m].2@]);
                    assert(before.edges().contains_key(before.arrow_index()[arrows@[m].2@] as nat));
                }
            }
        }
        k = k + 1;
    }
    q
}

/// With distinct vertex names, an arrow parallel to one already built joins
/// the same pair of positions as an earlier arrow.
proof fn lemma_parallel_is_repeat(q: Quiver, nv: Seq<Seq<char>>, arrows: Seq<(usize, usize, String)>, k: int)
    requires
        q.wf(),
        nv.no_duplicates(),
        0 <= k < arrows.len(),
        forall|m: int| 0 <= m < arrows.len() ==> (#[trigger] arrows[m]).0 < nv.len() && arrows[m].1 < nv.len(),
        forall|v: Seq<char>| #[trigger] q.has_vertex(v) <==> nv.contains(v),
        forall|e: nat| #[trigger] q.edges().contains_key(e) ==> exists|m: int| 0 <= m < k
            && q.edges()[e].0 == q.node_of(nv[arrows[m].0 as int])
            && q.edges()[e].1 == q.node_of(nv[arrows[m].1 as int]),
        edges_between(q.edges(), q.node_of(nv[arrows[k].0 as int]), q.node_of(nv[arrows[k].1 as int])).len() > 0,
    ensures
        repeated_pairs(arrows, k + 1) == repeated_pairs(arrows, k) + 1,
{
    let fi = arrows[k].0 as int;
    let ti = arrows[k].1 as int;
    let between = edges_between(q.edges(), q.node_of(nv[fi]), q.node_of(nv[ti]));
    assert(q.edges().dom().finite());
    assert(between.finite());
    let e = between.choose();
    assert(between.contains(e));
    let m = choose|m: int| 0 <= m < k
        && q.edges()[e].0 == q.node_of(nv[arrows[m].0 as int])
        && q.edges()[e].1 == q.node_of(nv[arrows[m].1 as int]);
    let fm = arrows[m].0 as int;
    let tm = arrows[m].1 as int;
    assert(nv.contains(nv[fm]));
    assert(nv.contains(nv[tm]));
    assert(nv.contains(nv[fi]));
    assert(nv.contains(nv[ti]));
    assert(q.has_vertex(nv[fm]));
    assert(q.has_vertex(nv[tm]));
    assert(q.has_vertex(nv[fi]));
    assert(q.has_vertex(nv[ti]));
    assert(q.nodes()[q.node_of(nv[fm])] == nv[fm]);
    assert(q.nodes()[q.node_of(nv[fi])] == nv[fi]);
    assert(q.nodes()[q.node_of(nv[tm])] == nv[tm]);
    assert(q.nodes()[q.node_of(nv[ti])] == nv[ti]);
    assert(fm == fi);
    assert(tm == ti);
    assert(arrows[m].0 == arrows[k].0);
}

proof fn lemma_mono(arrows: Seq<(usize, usize, String)>, n: int, m: int)
    requires
        0 <= n <= m,
    ensures
        repeated_pairs(arrows, n) <= repeated_pairs(arrows, m),
    decreases m - n,
{
    if n < m {
        lemma_mono(arrows, n, m - 1);
    }
}

/// The arrows of `shape` with their labels, as positions in the vertex list.
fn positions(shape: Ghost<Seq<(int, int)>>, from: Vec<usize>, to: Vec<usize>, labels: Vec<String>) -> (r: Vec<(usize, usize, String)>)
    requires
        from@.len() == shape@.len(),
        to@.len() == shape@.len(),
        labels@.len() == shape@.len(),
        forall|k: int| 0 <= k < shape@.len() ==> from@[k] == shape@[k].0 && to@[k] == (#[trigger] shape@[k]).1,
    ensures
        r@ == labelled(shape@, labels@),
{
    let mut r: Vec<(usize, usize, String)> = Vec::new();
    let mut k: usize = 0;
    while k < labels.len()
        invariant
            from@.len() == shape@.len(),
            to@.len() == shape@.len(),
            labels@.len() == shape@.len(),
            forall|m: int| 0 <= m < shape@.len() ==> from@[m] == shape@[m].0 && to@[m] == (#[trigger] shape@[m]).1,
            k <= labels@.len(),
            r@ == labelled(shape@, labels@).subrange(0, k as int),
        decreases labels@.len() - k,
    {
        r.push((from[k], to[k], labels[k].clone()));
        proof {
            assert(r@ =~= labelled(shape@, labels@).subrange(0, k + 1));
        }
        k = k + 1;
    }
    assert(r@ =~= labelled(shape@, labels@));
    r
}

proof fn lemma_built_from(q: Quiver, names: &[String], shape: Seq<(int, int)>, labels: Seq<String>)
    requires
        names@.len() + 3 < index_limit(),
        shape.len() == labels.len(),
        forall|k: int| 0 <= k < shape.len() ==> 0 <= (#[trigger] shape[k]).0 < names@.len() && 0 <= shape[k].1 < names@.len(),
        q.wf(),
        forall|v: Seq<char>| #[trigger] q.has_vertex(v) <==> names.deep_view().contains(v),
        forall|a: Seq<char>| #[trigger] q.has_arrow(a) <==> exists|k: int| 0 <= k < labelled(shape, labels).len() && (#[trigger] labelled(shape, labels)[k]).2@ == a,
        forall|k: int|
            0 <= k < labelled(shape, labels).len() && (forall|j: int| k < j < labelled(shape, labels).len() ==> labelled(shape, labels)[j].2@ != labelled(shape, labels)[k].2@)
                ==> q.nodes()[q.source_node((#[trigger] labelled(shape, labels)[k]).2@)] == names@[labelled(shape, labels)[k].0 as int]@
                && q.nodes()[q.target_node(labelled(shape, labels)[k].2@)] == names@[labelled(shape, labels)[k].1 as int]@,
    ensures
        built_from(q, names.deep_view(), shape, labels.map_values(|s: String| s@)),
{
    let ar = labelled(shape, labels);
    let lv = labels.map_values(|s: String| s@);
    assert forall|a: Seq<char>| #[trigger] q.has_arrow(a) <==> lv.contains(a) by {
        if q.has_arrow(a) {
            let k = choose|k: int| 0 <= k < ar.len() && (#[trigger] ar[k]).2@ == a;
            assert(lv[k] == a);
        }
        if lv.contains(a) {
            let k = choose|k: int| 0 <= k < lv.len() && lv[k] == a;
            assert(ar[k].2@ == a);
        }
    }
    assert forall|k: int|
        0 <= k < lv.len() && last_with_label(lv, k) implies q.nodes()[q.source_node(#[trigger] lv[k])]
            == names.deep_view()[shape[k].0] && q.nodes()[q.target_node(lv[k])] == names.deep_view()[shape[k].1] by {
        assert(ar[k].2@ == lv[k]);
        assert forall|j: int| k < j < ar.len() implies ar[j].2@ != ar[k].2@ by {
            assert(lv[j] == ar[j].2@);
        }
        assert(0 <= shape[k].0 < names@.len() && 0 <= shape[k].1 < names@.len());
        assert(ar[k] == (shape[k].0 as usize, shape[k].1 as usize, labels[k]));
        assert(ar[k].0 as int == shape[k].0);
        assert(ar[k].1 as int == shape[k].1);
    }
}

impl Quiver {
    /// The quiver of type `A_n` on the vertices `vertex_names`: the arrow
    /// `edge_labels[k]` goes from `vertex_names[k]` to `vertex_names[k + 1]`.
    pub fn make_a_n(vertex_names: &[String], edge_labels: Vec<String>) -> (q: Quiver)
        requires
            vertex_names@.len() + 3 < index_limit(),
            edge_labels@.len() == a_n_shape(vertex_names@.len()).len(),
            edge_labels@.len() < 255 || vertex_names.deep_view().no_duplicates(),
        ensures
            built_from(q, vertex_names.deep_view(), a_n_shape(vertex_names@.len()), edge_labels.deep_view()),
            q.nodes().len() == vertex_names@.len(),
            q.edges().len() == edge_labels@.len(),
    {
        let ghost shape = a_n_shape(vertex_names@.len());
        let n = vertex_names.len();
        let mut from: Vec<usize> = Vec::new();
        let mut to: Vec<usize> = Vec::new();
        let mut k: usize = 0;
        while k + 1 < n
            invariant
                n == vertex_names@.len(),
                n + 3 < index_limit(),
                shape == a_n_shape(n as nat),
                k <= shape.len(),
                from@.len() == k,
                to@.len() == k,
                forall|m: int| 0 <= m < k ==> from@[m] == shape[m].0 && to@[m] == (#[trigger] shape[m]).1,
            decreases n - k,
        {
            from.push(k);
            to.push(k + 1);
            k = k + 1;
        }
        let arrows = positions(Ghost(shape), from, to, edge_labels);
        proof {
            lemma_distinct_pairs(arrows@, arrows@.len() as int);
        }
        let q = quiver_from_positions(vertex_names, arrows);
        proof {
            lemma_built_from(q, vertex_names, shape, edge_labels@);
            assert(edge_labels@.map_values(|s: String| s@) =~= edge_labels.deep_view());
        }
        q
    }

    /// The quiver of type `D_n` on the vertices `vertex_names`: the arrows
    /// `edge_labels[k]: vertex_names[k] -> vertex_names[k + 1]` for `k < n - 2`
    /// and a last arrow from `vertex_names[n - 3]` to `vertex_names[n - 1]`.
    pub fn make_d_n(vertex_names: &[String], edge_labels: Vec<String>) -> (q: Quiver)
        requires
            vertex_names@.len() + 3 < index_limit(),
            edge_labels@.len() == d_n_shape(vertex_names@.len()).len(),
            edge_labels@.len() < 255 || vertex_names.deep_view().no_duplicates(),
        ensures
            built_from(q, vertex_names.deep_view(), d_n_shape(vertex_names@.len()), edge_labels.deep_view()),
            q.nodes().len() == vertex_names@.len(),
            q.edges().len() == edge_labels@.len(),
    {
        let ghost shape = d_n_shape(vertex_names@.len());
        let n = vertex_names.len();
        let mut from: Vec<usize> = Vec::new();
        let mut to: Vec<usize> = Vec::new();
        if n >= 3 {
            let mut k: usize = 0;
            while k + 1 < n
                invariant
                    n == vertex_names@.len(),
                    n >= 3,
                    n + 3 < index_limit(),
                    shape == d_n_shape(n as nat),
                    k <= shape.len(),
                    from@.len() == k,
                    to@.len() == k,
                    forall|m: int| 0 <= m < k ==> from@[m] == shape[m].0 && to@[m] == (#[trigger] shape[m]).1,
                decreases n - k,
            {
                if k + 2 < n {
                    from.push(k);
                    to.push(k + 1);
                } else {
                    from.push(n - 3);
                    to.push(n - 1);
                }
                k = k + 1;
            }
        }
        let arrows = positions(Ghost(shape), from, to, edge_labels);
        proof {
            lemma_distinct_pairs(arrows@, arrows@.len() as int);
        }
        let q = quiver_from_positions(vertex_names, arrows);
        proof {
            lemma_built_from(q, vertex_names, shape, edge_labels@);
            assert(edge_labels@.map_values(|s: String| s@) =~= edge_labels.deep_view());
        }
        q
    }

    /// The quiver of type `B_n` (`type_b`) or `C_n` on the vertices
    /// `vertex_names`: the arrows `edge_labels[k]: vertex_names[k] ->
    /// vertex_names[k + 1]` for `k < n - 2`, then two arrows from
    /// `vertex_names[n - 2]` to `vertex_names[n - 1]` for `B_n`, or back for `C_n`.
    pub fn make_bc_n(type_b: bool, vertex_names: &[String], edge_labels: Vec<String>) -> (q: Quiver)
        requires
            vertex_names@.len() + 3 < index_limit(),
            edge_labels@.len() == bc_n_shape(type_b, vertex_names@.len()).len(),
            edge_labels@.len() < 255 || vertex_names.deep_view().no_duplicates(),
        ensures
            built_from(q, vertex_names.deep_view(), bc_n_shape(type_b, vertex_names@.len()), edge_labels.deep_view()),
            q.nodes().len() == vertex_names@.len(),
            q.edges().len() == edge_labels@.len(),
    {
        let ghost shape = bc_n_shape(type_b, vertex_names@.len());
        let n = vertex_names.len();
        let mut from: Vec<usize> = Vec::new();
        let mut to: Vec<usize> = Vec::new();
        if n >= 2 {
            let mut k: usize = 0;
            while k < n
                invariant
                    n == vertex_names@.len(),
                    n >= 2,
                    n + 3 < index_limit(),
                    shape == bc_n_shape(type_b, n as nat),
                    k <= shape.len(),
                    from@.len() == k,
                    to@.len() == k,
                    forall|m: int| 0 <= m < k ==> from@[m] == shape[m].0 && to@[m] == (#[trigger] shape[m]).1,
                decreases n - k,
            {
                if k + 2 < n {
                    from.push(k);
                    to.push(k + 1);
                } else if type_b {
                    from.push(n - 2);
                    to.push(n - 1);
                } else {
                    from.push(n - 1);
                    to.push(n - 2);
                }
                k = k + 1;
            }
        }
        let arrows = positions(Ghost(shape), from, to, edge_labels);
        proof {
            let len = arrows@.len() as int;
            if len >= 2 {
                lemma_distinct_pairs(arrows@, len - 1);
                assert(repeated_pairs(arrows@, len) <= 1);
            } else {
                lemma_distinct_pairs(arrows@, len);
            }
        }
        let q = quiver_from_positions(vertex_names, arrows);
        proof {
            lemma_built_from(q, vertex_names, shape, edge_labels@);
            assert(edge_labels@.map_values(|s: String| s@) =~= edge_labels.deep_view());
        }
        q
    }
}

} // verus!

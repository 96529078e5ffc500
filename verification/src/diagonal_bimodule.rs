//! The diagonal bimodule of a monomial quiver algebra `A = kQ^op / I`: `A`
//! itself, with the Peirce piece `(v, w)` spanned by the nonzero paths from
//! `v` to `w` (and the idempotent of `v` where `v = w`), and the arrows acting
//! by concatenation.
use crate::bimodule::{BimoduleActions, QuiverBimodule, arrow_source, arrow_target, indexed_by_vertices};
use crate::checked_arith::{Field, ring_ops_total};
use crate::hochschild::{enumerate_paths, lemma_set_len, nonzero_words, nonzero_words_upto};
use crate::quiver::Quiver;
use crate::quiver_bimodule::{DiagonalBimoduleError, PeirceElement};
use crate::quiver_with_mon_rels::{QuiverWithMonomialRelations, copy_word, monomial_words};
use crate::quiver_with_rels::QuiverWithRelations;
use crate::utils::labels_equal;
use std::sync::Arc;
use vstd::prelude::*;
use vstd::std_specs::cmp::PartialEqSpec;
use vstd::std_specs::ops::AddSpec;

verus! {

/// A key of a table: two labels.
pub type KeyView = (Seq<char>, Seq<char>);

/// The keys of a table of entries `(a, b, value)`.
pub open spec fn table_keys<T>(t: Seq<(String, String, T)>) -> Seq<KeyView> {
    t.map_values(|e: (String, String, T)| (e.0@, e.1@))
}

/// The position of the first entry of `keys` equal to `k`.
pub open spec fn first_index(keys: Seq<KeyView>, k: KeyView) -> Option<int>
    decreases keys.len(),
{
    if keys.len() == 0 {
        None
    } else {
        match first_index(keys.drop_last(), k) {
            Some(i) => Some(i),
            None => if keys.last() == k {
                Some(keys.len() - 1)
            } else {
                None
            },
        }
    }
}

/// A first occurrence found in a prefix is the first occurrence.
proof fn lemma_first_index_prefix(keys: Seq<KeyView>, k: KeyView, n: int)
    requires
        0 <= n <= keys.len(),
        first_index(keys.take(n), k) is Some,
    ensures
        first_index(keys, k) == first_index(keys.take(n), k),
    decreases keys.len(),
{
    if n < keys.len() {
        assert(keys.drop_last().take(n) =~= keys.take(n));
        lemma_first_index_prefix(keys.drop_last(), k, n);
    } else {
        assert(keys.take(n) =~= keys);
    }
}

/// The first index is that of an entry equal to `k`.
proof fn lemma_first_index_valid(keys: Seq<KeyView>, k: KeyView)
    ensures
        first_index(keys, k) matches Some(i) ==> 0 <= i < keys.len() && keys[i] == k,
        first_index(keys, k) is None ==> !keys.contains(k),
    decreases keys.len(),
{
    if keys.len() > 0 {
        lemma_first_index_valid(keys.drop_last(), k);
        if first_index(keys.drop_last(), k) is None && keys.last() != k {
            assert forall|j: int| 0 <= j < keys.len() implies keys[j] != k by {
                if j < keys.len() - 1 {
                    assert(keys[j] == keys.drop_last()[j]);
                }
            }
        }
    }
}

/// The position of the first entry of `table` with key `(a, b)`.
fn find_entry<T>(table: &Vec<(String, String, T)>, a: &String, b: &String) -> (r: Option<usize>)
    ensures
        r matches Some(i) ==> first_index(table_keys(table@), (a@, b@)) == Some(i as int),
        r is None ==> first_index(table_keys(table@), (a@, b@)) is None,
{
    let ghost keys = table_keys(table@);
    let mut i: usize = 0;
    while i < table.len()
        invariant
            keys == table_keys(table@),
            i <= keys.len(),
            first_index(keys.take(i as int), (a@, b@)) is None,
        decreases keys.len() - i,
    {
        assert(keys.take(i + 1).drop_last() =~= keys.take(i as int));
        if table[i].0 == *a && table[i].1 == *b {
            assert(keys[i as int] == (a@, b@));
            assert(first_index(keys.take(i + 1), (a@, b@)) == Some(i as int));
            proof {
                lemma_first_index_prefix(keys, (a@, b@), i + 1);
            }
            return Some(i);
        }
        assert(keys[i as int] != (a@, b@));
        i = i + 1;
    }
    assert(keys.take(i as int) =~= keys);
    None
}

/// The diagonal basis of the Peirce piece `(v, w)` built from the list of
/// nonzero paths `paths`: the idempotent (the empty word) where `v = w`, then
/// the paths from `v` to `w`, in the order of `paths`.
pub open spec fn path_piece(q: Quiver, paths: Seq<Seq<Seq<char>>>, v: Seq<char>, w: Seq<char>) -> Seq<
    Seq<Seq<char>>,
> {
    (if v == w {
        seq![Seq::<Seq<char>>::empty()]
    } else {
        Seq::<Seq<Seq<char>>>::empty()
    }) + paths.filter(ends_are(q, v, w))
}

/// The words from `v` to `w` in `q`.
pub open spec fn ends_are(q: Quiver, v: Seq<char>, w: Seq<char>) -> spec_fn(Seq<Seq<char>>) -> bool {
    |p: Seq<Seq<char>>| q.spec_path_ends(p) == Some((v, w))
}

/// The matrix of the left action of the arrow `a` from the piece with basis
/// `dom` to the piece with basis `cod`: entry `(i, j)` is set where
/// `cod[i] = a dom[j]`.
pub open spec fn left_entries(cod: Seq<Seq<Seq<char>>>, dom: Seq<Seq<Seq<char>>>, a: Seq<char>) -> Seq<Seq<bool>> {
    Seq::new(cod.len(), |i: int| Seq::new(dom.len(), |j: int| cod[i] == seq![a] + dom[j]))
}

/// The matrix of the right action of the arrow `b`: entry `(i, j)` is set
/// where `cod[i] = dom[j] b`.
pub open spec fn right_entries(cod: Seq<Seq<Seq<char>>>, dom: Seq<Seq<Seq<char>>>, b: Seq<char>) -> Seq<Seq<bool>> {
    Seq::new(cod.len(), |i: int| Seq::new(dom.len(), |j: int| cod[i] == dom[j].push(b)))
}

/// A matrix of booleans as plain values.
pub open spec fn matrix_view(m: Vec<Vec<bool>>) -> Seq<Seq<bool>> {
    m@.map_values(|r: Vec<bool>| r@)
}

/// The entries of `paths` from `v` to `w`, after the idempotent where `v == w`.
fn build_piece(mon: &QuiverWithMonomialRelations, paths: &Vec<Vec<String>>, v: &String, w: &String) -> (r: Vec<
    Vec<String>,
>)
    requires
        mon.wf(),
    ensures
        r.deep_view() == path_piece(mon.spec_quiver(), paths.deep_view(), v@, w@),
{
    let ghost q = mon.spec_quiver();
    let ghost pv = paths.deep_view();
    let mut out: Vec<Vec<String>> = Vec::new();
    if *v == *w {
        let e: Vec<String> = Vec::new();
        assert(e.deep_view() =~= Seq::<Seq<char>>::empty());
        out.push(e);
        assert(out.deep_view() =~= seq![Seq::<Seq<char>>::empty()]);
    } else {
        assert(out.deep_view() =~= Seq::<Seq<Seq<char>>>::empty());
    }
    let ghost head = out.deep_view();
    assert(head == (if v@ == w@ {
        seq![Seq::<Seq<char>>::empty()]
    } else {
        Seq::<Seq<Seq<char>>>::empty()
    }));
    let mut k: usize = 0;
    while k < paths.len()
        invariant
            mon.wf(),
            q == mon.spec_quiver(),
            pv == paths.deep_view(),
            k <= pv.len(),
            out.deep_view() == head + pv.take(k as int).filter(ends_are(q, v@, w@)),
        decreases pv.len() - k,
    {
        let ghost before = out.deep_view();
        assert(pv[k as int] == paths@[k as int].deep_view());
        let ghost taken = pv.take(k as int).filter(ends_are(q, v@, w@));
        match mon.path_source_target(paths[k].as_slice()) {
            Some((s, t)) => {
                if s == *v && t == *w {
                    out.push(copy_word(&paths[k]));
                    assert(out.deep_view() =~= before.push(pv[k as int]));
                    assert(ends_are(q, v@, w@)(pv[k as int]));
                    assert(pv.take(k + 1).filter(ends_are(q, v@, w@)) == taken.push(pv[k as int])) by {
                        reveal_with_fuel(Seq::filter, 1);
                        assert(pv.take(k + 1).drop_last() =~= pv.take(k as int));
                    }
                    assert(out.deep_view() =~= head + pv.take(k + 1).filter(ends_are(q, v@, w@)));
                } else {
                    assert(!ends_are(q, v@, w@)(pv[k as int]));
                    assert(pv.take(k + 1).filter(ends_are(q, v@, w@)) == taken) by {
                        reveal_with_fuel(Seq::filter, 1);
                        assert(pv.take(k + 1).drop_last() =~= pv.take(k as int));
                    }
                }
            },
            None => {
                assert(!ends_are(q, v@, w@)(pv[k as int]));
                assert(pv.take(k + 1).filter(ends_are(q, v@, w@)) == taken) by {
                    reveal_with_fuel(Seq::filter, 1);
                    assert(pv.take(k + 1).drop_last() =~= pv.take(k as int));
                }
            },
        }
        k = k + 1;
    }
    assert(pv.take(k as int) =~= pv);
    out
}

/// The matrix of the left action of `a` from the piece `dom` to the piece `cod`.
fn left_matrix(cod: &Vec<Vec<String>>, dom: &Vec<Vec<String>>, a: &String) -> (r: Vec<Vec<bool>>)
    ensures
        matrix_view(r) == left_entries(cod.deep_view(), dom.deep_view(), a@),
{
    let ghost cv = cod.deep_view();
    let ghost dv = dom.deep_view();
    let mut m: Vec<Vec<bool>> = Vec::new();
    let mut i: usize = 0;
    while i < cod.len()
        invariant
            cv == cod.deep_view(),
            dv == dom.deep_view(),
            i <= cv.len(),
            matrix_view(m) == left_entries(cv, dv, a@).take(i as int),
        decreases cv.len() - i,
    {
        let mut row: Vec<bool> = Vec::new();
        let mut j: usize = 0;
        while j < dom.len()
            invariant
                cv == cod.deep_view(),
                dv == dom.deep_view(),
                i < cv.len(),
                j <= dv.len(),
                row@ == left_entries(cv, dv, a@)[i as int].take(j as int),
            decreases dv.len() - j,
        {
            let mut candidate: Vec<String> = Vec::new();
            candidate.push(a.clone());
            let mut t: usize = 0;
            while t < dom[j].len()
                invariant
                    j < dv.len(),
                    dv == dom.deep_view(),
                    t <= dv[j as int].len(),
                    candidate.deep_view() == seq![a@] + dv[j as int].take(t as int),
                decreases dv[j as int].len() - t,
            {
                assert(dv[j as int][t as int] == dom@[j as int]@[t as int]@);
                let ghost before = candidate.deep_view();
                candidate.push(dom[j][t].clone());
                assert(candidate.deep_view() =~= before.push(dv[j as int][t as int]));
                assert(seq![a@] + dv[j as int].take(t + 1) =~= (seq![a@] + dv[j as int].take(t as int)).push(
                    dv[j as int][t as int],
                ));
                t = t + 1;
            }
            assert(dv[j as int].take(t as int) =~= dv[j as int]);
            assert(cv[i as int] == cod@[i as int].deep_view());
            let e = labels_equal(cod[i].as_slice(), candidate.as_slice());
            row.push(e);
            assert(row@ =~= left_entries(cv, dv, a@)[i as int].take(j + 1));
            j = j + 1;
        }
        assert(row@ =~= left_entries(cv, dv, a@)[i as int]);
        let ghost before = m@;
        m.push(row);
        assert(m@.map_values(|r: Vec<bool>| r@) =~= before.map_values(|r: Vec<bool>| r@).push(row@));
        assert(matrix_view(m) =~= left_entries(cv, dv, a@).take(i + 1));
        i = i + 1;
    }
    assert(left_entries(cv, dv, a@).take(i as int) =~= left_entries(cv, dv, a@));
    m
}

/// The matrix of the right action of `b` from the piece `dom` to the piece `cod`.
fn right_matrix(cod: &Vec<Vec<String>>, dom: &Vec<Vec<String>>, b: &String) -> (r: Vec<Vec<bool>>)
    ensures
        matrix_view(r) == right_entries(cod.deep_view(), dom.deep_view(), b@),
{
    let ghost cv = cod.deep_view();
    let ghost dv = dom.deep_view();
    let mut m: Vec<Vec<bool>> = Vec::new();
    let mut i: usize = 0;
    while i < cod.len()
        invariant
            cv == cod.deep_view(),
            dv == dom.deep_view(),
            i <= cv.len(),
            matrix_view(m) == right_entries(cv, dv, b@).take(i as int),
        decreases cv.len() - i,
    {
        let mut row: Vec<bool> = Vec::new();
        let mut j: usize = 0;
        while j < dom.len()
            invariant
                cv == cod.deep_view(),
                dv == dom.deep_view(),
                i < cv.len(),
                j <= dv.len(),
                row@ == right_entries(cv, dv, b@)[i as int].take(j as int),
            decreases dv.len() - j,
        {
            let mut candidate = copy_word(&dom[j]);
            let ghost before = candidate.deep_view();
            candidate.push(b.clone());
            assert(candidate.deep_view() =~= before.push(b@));
            assert(cv[i as int] == cod@[i as int].deep_view());
            let e = labels_equal(cod[i].as_slice(), candidate.as_slice());
            row.push(e);
            assert(row@ =~= right_entries(cv, dv, b@)[i as int].take(j + 1));
            j = j + 1;
        }
        assert(row@ =~= right_entries(cv, dv, b@)[i as int]);
        let ghost before = m@;
        m.push(row);
        assert(m@.map_values(|r: Vec<bool>| r@) =~= before.map_values(|r: Vec<bool>| r@).push(row@));
        assert(matrix_view(m) =~= right_entries(cv, dv, b@).take(i + 1));
        i = i + 1;
    }
    assert(right_entries(cv, dv, b@).take(i as int) =~= right_entries(cv, dv, b@));
    m
}


/// The key `k` pairs an entry of `xs` with one of `ys`, at positions before
/// `(a, b)` in the order of rows `a` and columns `b`.
pub open spec fn built_before(xs: Seq<Seq<char>>, ys: Seq<Seq<char>>, a: int, b: int, k: KeyView) -> bool {
    exists|i: int, j: int|
        #![trigger xs[i], ys[j]]
        0 <= i < xs.len() && 0 <= j < ys.len() && (i < a || (i == a && j < b)) && xs[i] == k.0 && ys[j] == k.1
}

/// The table with an entry for each pair of an entry of `xs` and one of
/// `ys`, made by `make`, in the order of `xs` then `ys`.
fn build_table<T, F: Fn(&String, &String) -> T>(xs: &Vec<String>, ys: &Vec<String>, make: &F) -> (r: Vec<
    (String, String, T),
>)
    requires
        xs.deep_view().no_duplicates(),
        ys.deep_view().no_duplicates(),
        forall|x: &String, y: &String|
            xs.deep_view().contains(x@) && ys.deep_view().contains(y@) ==> #[trigger] call_requires(*make, (x, y)),
    ensures
        forall|k: KeyView|
            #[trigger] first_index(table_keys(r@), k) is Some <==> xs.deep_view().contains(k.0) && ys.deep_view().contains(
                k.1,
            ),
        forall|k: KeyView|
            #[trigger] first_index(table_keys(r@), k) matches Some(i) ==> 0 <= i < r@.len() && r@[i].0@ == k.0
                && r@[i].1@ == k.1 && call_ensures(*make, (&r@[i].0, &r@[i].1), r@[i].2),
{
    let ghost xv = xs.deep_view();
    let ghost yv = ys.deep_view();
    let mut table: Vec<(String, String, T)> = Vec::new();
    let mut a: usize = 0;
    while a < xs.len()
        invariant
            xv == xs.deep_view(),
            yv == ys.deep_view(),
            xv.no_duplicates(),
            yv.no_duplicates(),
            forall|x: &String, y: &String|
                xv.contains(x@) && yv.contains(y@) ==> #[trigger] call_requires(*make, (x, y)),
            a <= xv.len(),
            forall|k: KeyView| #[trigger] first_index(table_keys(table@), k) is Some <==> built_before(xv, yv, a as int, 0, k),
            forall|k: KeyView|
                #[trigger] first_index(table_keys(table@), k) matches Some(i) ==> 0 <= i < table@.len() && table@[i].0@
                    == k.0 && table@[i].1@ == k.1 && call_ensures(*make, (&table@[i].0, &table@[i].1), table@[i].2),
        decreases xv.len() - a,
    {
        let mut b: usize = 0;
        while b < ys.len()
            invariant
                xv == xs.deep_view(),
                yv == ys.deep_view(),
                xv.no_duplicates(),
                yv.no_duplicates(),
                forall|x: &String, y: &String|
                    xv.contains(x@) && yv.contains(y@) ==> #[trigger] call_requires(*make, (x, y)),
                a < xv.len(),
                b <= yv.len(),
                forall|k: KeyView|
                    #[trigger] first_index(table_keys(table@), k) is Some <==> built_before(xv, yv, a as int, b as int, k),
                forall|k: KeyView|
                    #[trigger] first_index(table_keys(table@), k) matches Some(i) ==> 0 <= i < table@.len()
                        && table@[i].0@ == k.0 && table@[i].1@ == k.1 && call_ensures(
                        *make,
                        (&table@[i].0, &table@[i].1),
                        table@[i].2,
                    ),
            decreases yv.len() - b,
        {
            let x = xs[a].clone();
            let y = ys[b].clone();
            assert(xv[a as int] == x@ && yv[b as int] == y@);
            assert(xv.contains(x@) && yv.contains(y@));
            let v = make(&x, &y);
            let ghost k0: KeyView = (x@, y@);
            let ghost old_table = table@;
            let ghost old_keys = table_keys(table@);
            proof {
                if built_before(xv, yv, a as int, b as int, k0) {
                    let (i, j) = choose|i: int, j: int|
                        #![trigger xv[i], yv[j]]
                        0 <= i < xv.len() && 0 <= j < yv.len() && (i < a || (i == a && j < b)) && xv[i] == k0.0
                            && yv[j] == k0.1;
                    assert(xv[i] == xv[a as int]);
                    assert(yv[j] == yv[b as int]);
                    assert(i == a) by {
                        if i != a {
                            assert(xv[i] != xv[a as int]);
                        }
                    }
                    assert(j == b) by {
                        if j != b {
                            assert(yv[j] != yv[b as int]);
                        }
                    }
                }
                assert(!built_before(xv, yv, a as int, b as int, k0));
                assert(first_index(old_keys, k0) is None);
            }
            table.push((x, y, v));
            proof {
                let keys = table_keys(table@);
                assert(keys.drop_last() =~= old_keys);
                assert(keys.last() == k0);
                assert forall|k: KeyView| #[trigger] first_index(keys, k) is Some <==> built_before(
                    xv,
                    yv,
                    a as int,
                    b + 1,
                    k,
                ) by {
                    assert(first_index(keys, k) == match first_index(old_keys, k) {
                        Some(i) => Some(i),
                        None => if k0 == k {
                            Some(old_keys.len() as int)
                        } else {
                            None
                        },
                    });
                    if built_before(xv, yv, a as int, b + 1, k) && !built_before(xv, yv, a as int, b as int, k) {
                        let (i, j) = choose|i: int, j: int|
                            #![trigger xv[i], yv[j]]
                            0 <= i < xv.len() && 0 <= j < yv.len() && (i < a || (i == a && j < b + 1)) && xv[i]
                                == k.0 && yv[j] == k.1;
                        if i < a || (i == a && j < b) {
                            assert(built_before(xv, yv, a as int, b as int, k));
                        }
                        assert(k == k0);
                    }
                    if built_before(xv, yv, a as int, b as int, k) {
                        let (i, j) = choose|i: int, j: int|
                            #![trigger xv[i], yv[j]]
                            0 <= i < xv.len() && 0 <= j < yv.len() && (i < a || (i == a && j < b)) && xv[i] == k.0
                                && yv[j] == k.1;
                        assert(built_before(xv, yv, a as int, b + 1, k));
                    }
                    if k == k0 {
                        assert(built_before(xv, yv, a as int, b + 1, k)) by {
                            assert(xv[a as int] == k.0 && yv[b as int] == k.1);
                        }
                    }
                }
                assert forall|k: KeyView| #[trigger] first_index(keys, k) matches Some(i) ==> 0 <= i < table@.len()
                    && table@[i].0@ == k.0 && table@[i].1@ == k.1 && call_ensures(
                    *make,
                    (&table@[i].0, &table@[i].1),
                    table@[i].2,
                ) by {
                    assert(first_index(keys, k) == match first_index(old_keys, k) {
                        Some(i) => Some(i),
                        None => if k0 == k {
                            Some(old_keys.len() as int)
                        } else {
                            None
                        },
                    });
                    if first_index(old_keys, k) is Some {
                        let i = first_index(old_keys, k).unwrap();
                        assert(table@[i] == old_table[i]);
                    }
                }
            }
            b = b + 1;
        }
        proof {
            assert forall|k: KeyView| built_before(xv, yv, a as int, yv.len() as int, k) <==> built_before(
                xv,
                yv,
                a + 1,
                0,
                k,
            ) by {
                if built_before(xv, yv, a as int, yv.len() as int, k) {
                    let (i, j) = choose|i: int, j: int|
                        #![trigger xv[i], yv[j]]
                        0 <= i < xv.len() && 0 <= j < yv.len() && (i < a || (i == a && j < yv.len())) && xv[i]
                            == k.0 && yv[j] == k.1;
                    assert(built_before(xv, yv, a + 1, 0, k));
                }
                if built_before(xv, yv, a + 1, 0, k) {
                    let (i, j) = choose|i: int, j: int|
                        #![trigger xv[i], yv[j]]
                        0 <= i < xv.len() && 0 <= j < yv.len() && (i < a + 1 || (i == a + 1 && j < 0)) && xv[i]
                            == k.0 && yv[j] == k.1;
                    assert(built_before(xv, yv, a as int, yv.len() as int, k));
                }
            }
        }
        a = a + 1;
    }
    proof {
        assert forall|k: KeyView| built_before(xv, yv, xv.len() as int, 0, k) <==> xv.contains(k.0) && yv.contains(k.1) by {
            if built_before(xv, yv, xv.len() as int, 0, k) {
                let (i, j) = choose|i: int, j: int|
                    #![trigger xv[i], yv[j]]
                    0 <= i < xv.len() && 0 <= j < yv.len() && (i < xv.len() || (i == xv.len() && j < 0)) && xv[i]
                        == k.0 && yv[j] == k.1;
            }
            if xv.contains(k.0) && yv.contains(k.1) {
                let i = choose|i: int| 0 <= i < xv.len() && xv[i] == k.0;
                let j = choose|j: int| 0 <= j < yv.len() && yv[j] == k.1;
                assert(built_before(xv, yv, xv.len() as int, 0, k)) by {
                    assert(xv[i] == k.0 && yv[j] == k.1);
                }
            }
        }
    }
    table
}


/// The words of arrows that are nonzero paths of `kQ^op / I` for the
/// quiver `q` and the monomial relations `rels`.
pub open spec fn admissible_words(q: Quiver, rels: Seq<Seq<Seq<char>>>) -> Set<Seq<Seq<char>>> {
    Set::new(|w: Seq<Seq<char>>| w.len() >= 1 && !crate::quiver_with_mon_rels::zero_word(q, rels, w))
}

/// There are no more than `max_paths` nonzero paths (and finitely many).
pub open spec fn within_bound(words: Set<Seq<Seq<char>>>, max_paths: usize) -> bool {
    words.finite() && words.len() <= max_paths
}

/// The tables of the diagonal bimodule for the list of nonzero paths
/// `paths`: the basis of each Peirce piece `(v, w)` of two vertices, the
/// matrix of the left action of each arrow on each piece `(t(a), w)`, and of
/// the right action of each arrow on each piece `(v, s(b))`.
pub open spec fn tables_of(
    q: Quiver,
    paths: Seq<Seq<Seq<char>>>,
    pieces: Seq<(String, String, Vec<Vec<String>>)>,
    lefts: Seq<(String, String, Vec<Vec<bool>>)>,
    rights: Seq<(String, String, Vec<Vec<bool>>)>,
) -> bool {
    &&& forall|k: KeyView|
        #[trigger] first_index(table_keys(pieces), k) is Some <==> q.has_vertex(k.0) && q.has_vertex(k.1)
    &&& forall|k: KeyView|
        #[trigger] first_index(table_keys(pieces), k) matches Some(i) ==> pieces[i].2.deep_view() == path_piece(
            q,
            paths,
            k.0,
            k.1,
        )
    &&& forall|k: KeyView|
        #[trigger] first_index(table_keys(lefts), k) is Some <==> q.has_arrow(k.0) && q.has_vertex(k.1)
    &&& forall|k: KeyView|
        #[trigger] first_index(table_keys(lefts), k) matches Some(i) ==> matrix_view(lefts[i].2) == left_entries(
            path_piece(q, paths, arrow_source(q, k.0), k.1),
            path_piece(q, paths, arrow_target(q, k.0), k.1),
            k.0,
        )
    &&& forall|k: KeyView|
        #[trigger] first_index(table_keys(rights), k) is Some <==> q.has_arrow(k.0) && q.has_vertex(k.1)
    &&& forall|k: KeyView|
        #[trigger] first_index(table_keys(rights), k) matches Some(i) ==> matrix_view(rights[i].2) == right_entries(
            path_piece(q, paths, k.1, arrow_target(q, k.0)),
            path_piece(q, paths, k.1, arrow_source(q, k.0)),
            k.0,
        )
}

/// The algebra behind the reference is well formed.
pub open spec fn wf_at(a: &QuiverWithMonomialRelations) -> bool {
    a.wf()
}

/// The quiver of the algebra behind the reference.
pub open spec fn quiver_at(a: &QuiverWithMonomialRelations) -> Quiver {
    a.spec_quiver()
}

/// The words of the list behind the reference.
pub open spec fn words_at(v: &Vec<Vec<String>>) -> Seq<Seq<Seq<char>>> {
    v.deep_view()
}

/// The admissible paths of `algebra` (at most `max_paths` of them) and the
/// tables of its diagonal bimodule: the basis of each Peirce piece and the
/// matrices of the arrow actions.
#[verifier::rlimit(40)]
fn build_action_matrices(algebra: &QuiverWithMonomialRelations, max_paths: usize) -> (r: Result<
    (
        Vec<(String, String, Vec<Vec<String>>)>,
        Vec<(String, String, Vec<Vec<bool>>)>,
        Vec<(String, String, Vec<Vec<bool>>)>,
        Ghost<Seq<Seq<Seq<char>>>>,
    ),
    DiagonalBimoduleError,
>)
    requires
        algebra.wf(),
    ensures
        r is Err <==> !within_bound(admissible_words(algebra.spec_quiver(), algebra.rels()), max_paths),
        r is Err ==> r == Err::<
            (
                Vec<(String, String, Vec<Vec<String>>)>,
                Vec<(String, String, Vec<Vec<bool>>)>,
                Vec<(String, String, Vec<Vec<bool>>)>,
                Ghost<Seq<Seq<Seq<char>>>>,
            ),
            DiagonalBimoduleError,
        >(DiagonalBimoduleError::TooManyPaths { max_paths }),
        r matches Ok((pieces, lefts, rights, paths)) ==> {
            &&& paths@.no_duplicates()
            &&& paths@.to_set() == admissible_words(algebra.spec_quiver(), algebra.rels())
            &&& tables_of(algebra.spec_quiver(), paths@, pieces@, lefts@, rights@)
        },
{
    let ghost q = algebra.spec_quiver();
    assert(nonzero_words(*algebra) =~= admissible_words(q, algebra.rels()));
    let paths = match enumerate_paths(algebra, max_paths) {
        Some(p) => p,
        None => {
            proof {
                let n1 = nonzero_words_upto(*algebra, 1).len();
                if within_bound(admissible_words(q, algebra.rels()), max_paths) {
                    assert(nonzero_words(*algebra).len() <= max_paths);
                }
            }
            return Err(DiagonalBimoduleError::TooManyPaths { max_paths });
        },
    };
    let ghost pv = paths.deep_view();
    proof {
        lemma_set_len(pv);
    }
    if paths.len() > max_paths {
        return Err(DiagonalBimoduleError::TooManyPaths { max_paths });
    }
    let vertices = algebra.vertices();
    let edges = algebra.edge_labels();
    let make_piece = |v: &String, w: &String| -> (p: Vec<Vec<String>>)
        requires
            wf_at(algebra),
        ensures
            p.deep_view() == path_piece(quiver_at(algebra), words_at(&paths), v@, w@),
        { build_piece(algebra, &paths, v, w) };
    let make_left = |a: &String, w: &String| -> (m: Vec<Vec<bool>>)
        requires
            wf_at(algebra),
            quiver_at(algebra).has_arrow(a@),
        ensures
            matrix_view(m) == left_entries(
                path_piece(quiver_at(algebra), words_at(&paths), arrow_source(quiver_at(algebra), a@), w@),
                path_piece(quiver_at(algebra), words_at(&paths), arrow_target(quiver_at(algebra), a@), w@),
                a@,
            ),
        {
            match algebra.edge_endpoint_labels(a) {
                Some((s, t)) => {
                    let cod = build_piece(algebra, &paths, &s, w);
                    let dom = build_piece(algebra, &paths, &t, w);
                    left_matrix(&cod, &dom, a)
                },
                None => Vec::new(),
            }
        };
    let make_right = |b: &String, v: &String| -> (m: Vec<Vec<bool>>)
        requires
            wf_at(algebra),
            quiver_at(algebra).has_arrow(b@),
        ensures
            matrix_view(m) == right_entries(
                path_piece(quiver_at(algebra), words_at(&paths), v@, arrow_target(quiver_at(algebra), b@)),
                path_piece(quiver_at(algebra), words_at(&paths), v@, arrow_source(quiver_at(algebra), b@)),
                b@,
            ),
        {
            match algebra.edge_endpoint_labels(b) {
                Some((s, t)) => {
                    let cod = build_piece(algebra, &paths, v, &t);
                    let dom = build_piece(algebra, &paths, v, &s);
                    right_matrix(&cod, &dom, b)
                },
                None => Vec::new(),
            }
        };
    let pieces = build_table(&vertices, &vertices, &make_piece);
    let lefts = build_table(&edges, &vertices, &make_left);
    let rights = build_table(&edges, &vertices, &make_right);
    Ok((pieces, lefts, rights, Ghost(pv)))
}


/// `A = kQ^op / I` as an `(A, A)`-bimodule over itself, for a monomial
/// algebra: the Peirce piece `(v, w)` has as basis the idempotent of `v`
/// (the empty word) where `v = w` and the nonzero paths from `v` to `w`; the
/// arrows act by concatenation.
pub struct DiagonalBimodule<Coeffs: Field + Copy, const OP_ALG: bool> {
    algebra: Arc<QuiverWithRelations<Coeffs, OP_ALG>>,
    basis_by_pair: Vec<(String, String, Vec<Vec<String>>)>,
    left_matrices: Vec<(String, String, Vec<Vec<bool>>)>,
    right_matrices: Vec<(String, String, Vec<Vec<bool>>)>,
    paths: Ghost<Seq<Seq<Seq<char>>>>,
}

/// The signed sum of the coordinates `coords` below `n` selected by row `i`
/// of the matrix `mat`: those that are nonzero and whose entry is set.
pub open spec fn act_sum<C: Field>(mat: Seq<Seq<bool>>, coords: Seq<C>, i: int, n: int) -> C
    decreases n,
{
    if n <= 0 {
        C::spec_zero()
    } else {
        let prev = act_sum(mat, coords, i, n - 1);
        if !coords[n - 1].eq_spec(&C::spec_zero()) && mat[i][n - 1] {
            prev.add_spec(coords[n - 1])
        } else {
            prev
        }
    }
}

/// The coordinates of the image of `coords` under the 0/1 matrix `mat` with `rows` rows.
pub open spec fn act_coords<C: Field>(mat: Seq<Seq<bool>>, coords: Seq<C>, rows: nat) -> Seq<C> {
    Seq::new(rows, |i: int| act_sum(mat, coords, i, coords.len() as int))
}

impl<Coeffs: Field + Copy, const OP_ALG: bool> DiagonalBimodule<Coeffs, OP_ALG> {
    /// The basis of the Peirce piece `(v, w)` as words (empty where `v` or
    /// `w` is not a vertex).
    pub closed spec fn spec_piece(self, v: Seq<char>, w: Seq<char>) -> Seq<Seq<Seq<char>>> {
        match first_index(table_keys(self.basis_by_pair@), (v, w)) {
            Some(i) => self.basis_by_pair@[i].2.deep_view(),
            None => Seq::empty(),
        }
    }

    /// The nonzero paths of the algebra, in the order the pieces list them.
    pub closed spec fn admissible_paths(self) -> Seq<Seq<Seq<char>>> {
        self.paths@
    }

    /// The tables agree with the algebra.
    #[verifier::type_invariant]
    closed spec fn inv(self) -> bool {
        &&& self.algebra.wf()
        &&& monomial_words(self.algebra.rels(), self.algebra.rels().len() as int) is Ok
        &&& self.paths@.no_duplicates()
        &&& self.paths@.to_set() == admissible_words(
            self.algebra.spec_quiver(),
            monomial_words(self.algebra.rels(), self.algebra.rels().len() as int)->Ok_0,
        )
        &&& tables_of(
            self.algebra.spec_quiver(),
            self.paths@,
            self.basis_by_pair@,
            self.left_matrices@,
            self.right_matrices@,
        )
    }

    /// The diagonal bimodule of `algebra`, whose relations must each be a
    /// single path, with at most `max_paths` nonzero paths.
    pub fn try_new(algebra: Arc<QuiverWithRelations<Coeffs, OP_ALG>>, max_paths: usize) -> (r: Result<
        Self,
        DiagonalBimoduleError,
    >)
        requires
            algebra.wf(),
        ensures
            match monomial_words(algebra.rels(), algebra.rels().len() as int) {
                Err(e) => r == Err::<Self, DiagonalBimoduleError>(DiagonalBimoduleError::NonMonomialRelations(e)),
                Ok(ws) => {
                    &&& r is Err <==> !within_bound(admissible_words(algebra.spec_quiver(), ws), max_paths)
                    &&& r is Err ==> r == Err::<Self, DiagonalBimoduleError>(
                        DiagonalBimoduleError::TooManyPaths { max_paths },
                    )
                    &&& r matches Ok(d) ==> d.spec_algebra() == *algebra && d.admissible_paths().to_set()
                        == admissible_words(algebra.spec_quiver(), ws) && d.admissible_paths().no_duplicates()
                        && forall|v: Seq<char>, w: Seq<char>|
                        #[trigger] d.spec_piece(v, w) == if algebra.spec_quiver().has_vertex(v)
                            && algebra.spec_quiver().has_vertex(w) {
                            path_piece(algebra.spec_quiver(), d.admissible_paths(), v, w)
                        } else {
                            Seq::empty()
                        }
                },
            },
    {
        let mon = match QuiverWithMonomialRelations::try_from_relations(&*algebra) {
            Ok(m) => m,
            Err(e) => {
                return Err(DiagonalBimoduleError::NonMonomialRelations(e));
            },
        };
        match build_action_matrices(&mon, max_paths) {
            Ok((basis_by_pair, left_matrices, right_matrices, paths)) => {
                let r = DiagonalBimodule { algebra, basis_by_pair, left_matrices, right_matrices, paths };
                proof {
                    let q = r.spec_algebra().spec_quiver();
                    assert forall|v: Seq<char>, w: Seq<char>|
                        #[trigger] r.spec_piece(v, w) == if q.has_vertex(v) && q.has_vertex(w) {
                            path_piece(q, r.admissible_paths(), v, w)
                        } else {
                            Seq::empty()
                        } by {
                        assert(first_index(table_keys(r.basis_by_pair@), (v, w)) is Some <==> q.has_vertex(v)
                            && q.has_vertex(w));
                    }
                }
                Ok(r)
            },
            Err(e) => Err(e),
        }
    }
}


impl<Coeffs: Field + Copy, const OP_ALG: bool> DiagonalBimodule<Coeffs, OP_ALG> {
    /// The image of `coords` under the 0/1 matrix `mat` with `rows` rows:
    /// each row sums the nonzero coordinates its entries select.
    fn apply_matrix(mat: &Vec<Vec<bool>>, coords: &Vec<Coeffs>, rows: usize) -> (r: Vec<Coeffs>)
        requires
            ring_ops_total::<Coeffs>(),
            mat@.len() == rows,
            forall|i: int| 0 <= i < rows ==> (#[trigger] mat@[i])@.len() == coords@.len(),
        ensures
            r@.len() == rows,
            Coeffs::obeys_add_spec() && Coeffs::obeys_eq_spec() ==> r@ == act_coords(
                matrix_view(*mat),
                coords@,
                rows as nat,
            ),
    {
        let ghost mv = matrix_view(*mat);
        let mut out: Vec<Coeffs> = Vec::new();
        let mut i: usize = 0;
        while i < rows
            invariant
                i <= rows,
                out@.len() == i,
                forall|k: int| 0 <= k < i ==> #[trigger] out@[k] == Coeffs::spec_zero(),
            decreases rows - i,
        {
            out.push(Coeffs::zero());
            i = i + 1;
        }
        let mut j: usize = 0;
        while j < coords.len()
            invariant
                ring_ops_total::<Coeffs>(),
                mv == matrix_view(*mat),
                mat@.len() == rows,
                forall|i: int| 0 <= i < rows ==> (#[trigger] mat@[i])@.len() == coords@.len(),
                j <= coords@.len(),
                out@.len() == rows,
                Coeffs::obeys_add_spec() && Coeffs::obeys_eq_spec() ==> forall|k: int|
                    0 <= k < rows ==> #[trigger] out@[k] == act_sum(mv, coords@, k, j as int),
            decreases coords@.len() - j,
        {
            let c = coords[j];
            if !c.is_zero() {
                let mut i: usize = 0;
                while i < rows
                    invariant
                        ring_ops_total::<Coeffs>(),
                        mv == matrix_view(*mat),
                        mat@.len() == rows,
                        forall|i: int| 0 <= i < rows ==> (#[trigger] mat@[i])@.len() == coords@.len(),
                        j < coords@.len(),
                        c == coords@[j as int],
                        Coeffs::obeys_eq_spec() ==> !c.eq_spec(&Coeffs::spec_zero()),
                        i <= rows,
                        out@.len() == rows,
                        Coeffs::obeys_add_spec() && Coeffs::obeys_eq_spec() ==> forall|k: int|
                            0 <= k < i ==> #[trigger] out@[k] == act_sum(mv, coords@, k, j + 1),
                        Coeffs::obeys_add_spec() && Coeffs::obeys_eq_spec() ==> forall|k: int|
                            i <= k < rows ==> #[trigger] out@[k] == act_sum(mv, coords@, k, j as int),
                    decreases rows - i,
                {
                    assert(mv[i as int] == mat@[i as int]@);
                    if mat[i][j] {
                        let updated = out[i] + c;
                        out.set(i, updated);
                    }
                    i = i + 1;
                }
            } else {
                proof {
                    if Coeffs::obeys_add_spec() && Coeffs::obeys_eq_spec() {
                        assert forall|k: int| 0 <= k < rows implies #[trigger] out@[k] == act_sum(
                            mv,
                            coords@,
                            k,
                            j + 1,
                        ) by {}
                    }
                }
            }
            j = j + 1;
        }
        out
    }
}

impl<Coeffs: Field + Copy, const OP_ALG: bool> DiagonalBimodule<Coeffs, OP_ALG> {
    /// The 0/1 matrix of the left action `L_{alpha,w}: e_{t(alpha)} A e_w ->
    /// e_{s(alpha)} A e_w` (rows: the basis of the target piece, columns: that
    /// of the source piece), or nothing where `alpha` is not an arrow or `w`
    /// not a vertex.
    pub fn left_action(&self, alpha: &String, w: &String) -> (r: Option<&Vec<Vec<bool>>>)
        ensures
            r is Some <==> self.spec_algebra().spec_quiver().has_arrow(alpha@)
                && self.spec_algebra().spec_quiver().has_vertex(w@),
            r matches Some(m) ==> matrix_view(*m) == left_entries(
                self.spec_piece(arrow_source(self.spec_algebra().spec_quiver(), alpha@), w@),
                self.spec_piece(arrow_target(self.spec_algebra().spec_quiver(), alpha@), w@),
                alpha@,
            ),
    {
        proof {
            use_type_invariant(self);
        }
        let ghost q = self.spec_algebra().spec_quiver();
        match find_entry(&self.left_matrices, alpha, w) {
            Some(i) => {
                let quiver = self.algebra.quiver();
                let ends = quiver.edge_endpoint_labels(alpha);
                proof {
                    lemma_first_index_valid(table_keys(self.left_matrices@), (alpha@, w@));
                    let (src_a, tgt_a) = ends.unwrap();
                    assert(first_index(table_keys(self.basis_by_pair@), (src_a@, w@)) is Some);
                    assert(first_index(table_keys(self.basis_by_pair@), (tgt_a@, w@)) is Some);
                }
                Some(&self.left_matrices[i].2)
            },
            None => None,
        }
    }

    /// The 0/1 matrix of the right action `R_{beta,v}: e_v A e_{s(beta)} ->
    /// e_v A e_{t(beta)}`, or nothing where `beta` is not an arrow or `v` not a
    /// vertex.
    pub fn right_action(&self, beta: &String, v: &String) -> (r: Option<&Vec<Vec<bool>>>)
        ensures
            r is Some <==> self.spec_algebra().spec_quiver().has_arrow(beta@)
                && self.spec_algebra().spec_quiver().has_vertex(v@),
            r matches Some(m) ==> matrix_view(*m) == right_entries(
                self.spec_piece(v@, arrow_target(self.spec_algebra().spec_quiver(), beta@)),
                self.spec_piece(v@, arrow_source(self.spec_algebra().spec_quiver(), beta@)),
                beta@,
            ),
    {
        proof {
            use_type_invariant(self);
        }
        let ghost q = self.spec_algebra().spec_quiver();
        match find_entry(&self.right_matrices, beta, v) {
            Some(i) => {
                let quiver = self.algebra.quiver();
                let ends = quiver.edge_endpoint_labels(beta);
                proof {
                    lemma_first_index_valid(table_keys(self.right_matrices@), (beta@, v@));
                    let (src_b, tgt_b) = ends.unwrap();
                    assert(first_index(table_keys(self.basis_by_pair@), (v@, src_b@)) is Some);
                    assert(first_index(table_keys(self.basis_by_pair@), (v@, tgt_b@)) is Some);
                }
                Some(&self.right_matrices[i].2)
            },
            None => None,
        }
    }
}

impl<Coeffs: Field + Copy, const OP_ALG: bool> BimoduleActions<Coeffs, OP_ALG> for DiagonalBimodule<
    Coeffs,
    OP_ALG,
> {
    closed spec fn spec_algebra(&self) -> QuiverWithRelations<Coeffs, OP_ALG> {
        *self.algebra
    }

    closed spec fn spec_dim(&self, v: Seq<char>, w: Seq<char>) -> nat {
        self.spec_piece(v, w).len()
    }

    /// Zero outside the piece `(t(alpha), right)`; there, the matrix of the
    /// left action of `alpha` applied to `coords`.
    closed spec fn spec_left_act(&self, alpha: Seq<char>, left: Seq<char>, right: Seq<char>, coords: Seq<Coeffs>) -> Seq<Coeffs> {
        let q = self.spec_algebra().spec_quiver();
        let src = arrow_source(q, alpha);
        let out = self.spec_piece(src, right).len();
        if left != arrow_target(q, alpha) {
            Seq::new(out, |i: int| Coeffs::spec_zero())
        } else {
            act_coords(left_entries(self.spec_piece(src, right), self.spec_piece(left, right), alpha), coords, out)
        }
    }

    /// Zero outside the piece `(left, s(beta))`; there, the matrix of the
    /// right action of `beta` applied to `coords`.
    closed spec fn spec_right_act(&self, beta: Seq<char>, left: Seq<char>, right: Seq<char>, coords: Seq<Coeffs>) -> Seq<Coeffs> {
        let q = self.spec_algebra().spec_quiver();
        let tgt = arrow_target(q, beta);
        let out = self.spec_piece(left, tgt).len();
        if right != arrow_source(q, beta) {
            Seq::new(out, |i: int| Coeffs::spec_zero())
        } else {
            act_coords(right_entries(self.spec_piece(left, tgt), self.spec_piece(left, right), beta), coords, out)
        }
    }
}

impl<Coeffs: Field + Copy, const OP_ALG: bool> QuiverBimodule<Coeffs, Vec<String>, OP_ALG> for DiagonalBimodule<
    Coeffs,
    OP_ALG,
> {
    fn algebra(&self) -> (r: &Arc<QuiverWithRelations<Coeffs, OP_ALG>>) {
        &self.algebra
    }

    /// The nonzero paths from `v` to `w` (the idempotent first where `v = w`),
    /// as words.
    fn peirce_basis(&self, v: &String, w: &String) -> (r: &[Vec<String>])
        ensures
            r.deep_view() == self.spec_piece(v@, w@),
    {
        match find_entry(&self.basis_by_pair, v, w) {
            Some(i) => {
                proof {
                    lemma_first_index_valid(table_keys(self.basis_by_pair@), (v@, w@));
                }
                self.basis_by_pair[i].2.as_slice()
            },
            None => {
                let empty: &[Vec<String>] = &[];
                assert(empty.deep_view() =~= Seq::<Seq<Seq<char>>>::empty());
                empty
            },
        }
    }

    /// Left action by `alpha`: the path `alpha q` for each basis path `q` of
    /// the piece `(t(alpha), w)`, where it is a basis element of `(s(alpha), w)`.
    fn left_act(&self, alpha: &String, elt: &PeirceElement<String, Coeffs>) -> (r: PeirceElement<String, Coeffs>)
        ensures
            elt.left@ != arrow_target(self.spec_algebra().spec_quiver(), alpha@) ==> r.coords@ == Seq::new(
                r.coords@.len(),
                |i: int| Coeffs::spec_zero(),
            ),
            elt.left@ == arrow_target(self.spec_algebra().spec_quiver(), alpha@) && Coeffs::obeys_add_spec()
                && Coeffs::obeys_eq_spec() && ring_ops_total::<Coeffs>() ==> r.coords@ == act_coords(
                left_entries(self.spec_piece(r.left@, r.right@), self.spec_piece(elt.left@, elt.right@), alpha@),
                elt.coords@,
                r.coords@.len(),
            ),
    {
        proof {
            use_type_invariant(self);
        }
        let ghost q = self.spec_algebra().spec_quiver();
        let quiver = self.algebra.quiver();
        let (src_a, tgt_a) = match quiver.edge_endpoint_labels(alpha) {
            Some(p) => p,
            None => {
                return PeirceElement::zero(elt.left.clone(), elt.right.clone(), 0);
            },
        };
        let out_dim = self.peirce_dim(&src_a, &elt.right);
        if !(elt.left == tgt_a) {
            return PeirceElement::zero(src_a, elt.right.clone(), out_dim);
        }
        let i = match find_entry(&self.left_matrices, alpha, &elt.right) {
            Some(i) => i,
            None => {
                return PeirceElement::zero(src_a, elt.right.clone(), out_dim);
            },
        };
        proof {
            lemma_first_index_valid(table_keys(self.left_matrices@), (alpha@, elt.right@));
            assert(first_index(table_keys(self.basis_by_pair@), (src_a@, elt.right@)) is Some);
            assert(first_index(table_keys(self.basis_by_pair@), (tgt_a@, elt.right@)) is Some);
        }
        let mat = &self.left_matrices[i].2;
        let ghost mv = matrix_view(*mat);
        assert(mv == left_entries(self.spec_piece(src_a@, elt.right@), self.spec_piece(tgt_a@, elt.right@), alpha@));
        assert forall|k: int| 0 <= k < out_dim implies (#[trigger] mat@[k])@.len() == elt.coords@.len() by {
            assert(mv[k] == mat@[k]@);
        }
        let coords = Self::apply_matrix(mat, &elt.coords, out_dim);
        assert(self.spec_left_act(alpha@, elt.left@, elt.right@, elt.coords@) == act_coords(
            left_entries(self.spec_piece(src_a@, elt.right@), self.spec_piece(elt.left@, elt.right@), alpha@),
            elt.coords@,
            out_dim as nat,
        ));
        PeirceElement { left: src_a, right: elt.right.clone(), coords }
    }

    /// Right action by `beta`: the path `q beta` for each basis path `q` of
    /// the piece `(v, s(beta))`, where it is a basis element of `(v, t(beta))`.
    fn right_act(&self, beta: &String, elt: &PeirceElement<String, Coeffs>) -> (r: PeirceElement<String, Coeffs>)
        ensures
            elt.right@ != arrow_source(self.spec_algebra().spec_quiver(), beta@) ==> r.coords@ == Seq::new(
                r.coords@.len(),
                |i: int| Coeffs::spec_zero(),
            ),
            elt.right@ == arrow_source(self.spec_algebra().spec_quiver(), beta@) && Coeffs::obeys_add_spec()
                && Coeffs::obeys_eq_spec() && ring_ops_total::<Coeffs>() ==> r.coords@ == act_coords(
                right_entries(self.spec_piece(r.left@, r.right@), self.spec_piece(elt.left@, elt.right@), beta@),
                elt.coords@,
                r.coords@.len(),
            ),
    {
        proof {
            use_type_invariant(self);
        }
        let ghost q = self.spec_algebra().spec_quiver();
        let quiver = self.algebra.quiver();
        let (src_b, tgt_b) = match quiver.edge_endpoint_labels(beta) {
            Some(p) => p,
            None => {
                return PeirceElement::zero(elt.left.clone(), elt.right.clone(), 0);
            },
        };
        let out_dim = self.peirce_dim(&elt.left, &tgt_b);
        if !(elt.right == src_b) {
            return PeirceElement::zero(elt.left.clone(), tgt_b, out_dim);
        }
        let i = match find_entry(&self.right_matrices, beta, &elt.left) {
            Some(i) => i,
            None => {
                return PeirceElement::zero(elt.left.clone(), tgt_b, out_dim);
            },
        };
        proof {
            lemma_first_index_valid(table_keys(self.right_matrices@), (beta@, elt.left@));
            assert(first_index(table_keys(self.basis_by_pair@), (elt.left@, tgt_b@)) is Some);
            assert(first_index(table_keys(self.basis_by_pair@), (elt.left@, src_b@)) is Some);
        }
        let mat = &self.right_matrices[i].2;
        let ghost mv = matrix_view(*mat);
        assert(mv == right_entries(self.spec_piece(elt.left@, tgt_b@), self.spec_piece(elt.left@, src_b@), beta@));
        assert forall|k: int| 0 <= k < out_dim implies (#[trigger] mat@[k])@.len() == elt.coords@.len() by {
            assert(mv[k] == mat@[k]@);
        }
        let coords = Self::apply_matrix(mat, &elt.coords, out_dim);
        assert(self.spec_right_act(beta@, elt.left@, elt.right@, elt.coords@) == act_coords(
            right_entries(self.spec_piece(elt.left@, tgt_b@), self.spec_piece(elt.left@, elt.right@), beta@),
            elt.coords@,
            out_dim as nat,
        ));
        PeirceElement { left: elt.left.clone(), right: tgt_b, coords }
    }
}

} // verus!

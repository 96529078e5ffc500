//! Rational polyhedral cones `Cone(v_1, ..., v_n)` in `R^d`, spanned by
//! integer rays and stored by their primitive forms in lexicographic order.
use crate::cone_errors::ConeError;
use crate::toric_ideal::{abs_int, divides, gcd_u64, gcd_upto, lemma_gcd_upto_is_gcd, magnitude, spec_gcd, times};
use vstd::prelude::*;

verus! {

/// The lexicographic order on integer sequences (a proper prefix comes first).
pub open spec fn lex_lt(a: Seq<i64>, b: Seq<i64>) -> bool
    decreases a.len(),
{
    if a.len() == 0 {
        b.len() > 0
    } else if b.len() == 0 {
        false
    } else if a[0] != b[0] {
        a[0] < b[0]
    } else {
        lex_lt(a.drop_first(), b.drop_first())
    }
}

/// `lex_lt` is irreflexive and asymmetric.
proof fn lemma_lex_asym(a: Seq<i64>, b: Seq<i64>)
    ensures
        !lex_lt(a, a),
        lex_lt(a, b) ==> !lex_lt(b, a),
    decreases a.len(),
{
    if a.len() > 0 {
        lemma_lex_asym(a.drop_first(), a.drop_first());
        if b.len() > 0 {
            lemma_lex_asym(a.drop_first(), b.drop_first());
        }
    }
}

/// `lex_lt` is transitive.
proof fn lemma_lex_trans(a: Seq<i64>, b: Seq<i64>, c: Seq<i64>)
    requires
        lex_lt(a, b),
        lex_lt(b, c),
    ensures
        lex_lt(a, c),
    decreases a.len(),
{
    if a.len() > 0 && b.len() > 0 && c.len() > 0 && a[0] == b[0] && b[0] == c[0] {
        lemma_lex_trans(a.drop_first(), b.drop_first(), c.drop_first());
    }
}

/// Two different sequences are comparable.
proof fn lemma_lex_total(a: Seq<i64>, b: Seq<i64>)
    ensures
        a != b ==> lex_lt(a, b) || lex_lt(b, a),
    decreases a.len(),
{
    if a.len() > 0 && b.len() > 0 && a[0] == b[0] {
        lemma_lex_total(a.drop_first(), b.drop_first());
        if a.drop_first() == b.drop_first() {
            assert(a =~= seq![a[0]] + a.drop_first());
            assert(b =~= seq![b[0]] + b.drop_first());
        }
    } else if a.len() == 0 && b.len() == 0 {
        assert(a =~= b);
    }
}

/// Whether `a` comes strictly before `b` lexicographically.
fn lex_less(a: &Vec<i64>, b: &Vec<i64>) -> (r: bool)
    ensures
        r == lex_lt(a@, b@),
{
    let mut i: usize = 0;
    assert(a@.skip(0) =~= a@ && b@.skip(0) =~= b@);
    while i < a.len() && i < b.len()
        invariant
            i <= a.len(),
            i <= b.len(),
            lex_lt(a@, b@) == lex_lt(a@.skip(i as int), b@.skip(i as int)),
        decreases a.len() - i,
    {
        if a[i] != b[i] {
            return a[i] < b[i];
        }
        proof {
            assert(a@.skip(i as int).drop_first() =~= a@.skip(i + 1));
            assert(b@.skip(i as int).drop_first() =~= b@.skip(i + 1));
        }
        i = i + 1;
    }
    i == a.len() && i < b.len()
}

/// Whether every entry of `v` is zero.
pub open spec fn is_zero_ray(v: Seq<i64>) -> bool {
    forall|i: int| 0 <= i < v.len() ==> v[i] == 0
}

/// An entry `x` divided by the positive divisor `g` of its absolute value,
/// keeping its sign.
pub open spec fn divided_entry(x: i64, g: nat) -> int {
    if x < 0 {
        -(abs_int(x as int) / g)
    } else {
        (abs_int(x as int) / g) as int
    }
}

/// The primitive form of a nonzero integer vector: each entry divided by the
/// greatest common divisor of the absolute values of all entries.
pub open spec fn primitive_form(v: Seq<i64>) -> Seq<i64> {
    let g = gcd_upto(v, v.len() as int);
    Seq::new(v.len(), |i: int| divided_entry(v[i], g) as i64)
}

proof fn lemma_gcd_zero(a: nat, b: nat)
    ensures
        spec_gcd(a, b) == 0 <==> (a == 0 && b == 0),
    decreases b,
{
    if b > 0 {
        lemma_gcd_zero(b, a % b);
    }
}

proof fn lemma_gcd_upto_zero(v: Seq<i64>, n: int)
    requires
        0 <= n <= v.len(),
    ensures
        gcd_upto(v, n) == 0 <==> forall|i: int| 0 <= i < n ==> v[i] == 0,
    decreases n,
{
    if n > 0 {
        lemma_gcd_upto_zero(v, n - 1);
        lemma_gcd_zero(gcd_upto(v, n - 1), abs_int(v[n - 1] as int));
    }
}

/// The primitive form of the integer vector `v`, or `None` where `v` is zero.
pub fn primitive_vector(v: &Vec<i64>) -> (r: Option<Vec<i64>>)
    ensures
        r is None <==> is_zero_ray(v@),
        r is Some ==> r->0@ == primitive_form(v@),
{
    let mut g: u64 = 0;
    let mut i: usize = 0;
    while i < v.len()
        invariant
            i <= v.len(),
            g == gcd_upto(v@, i as int),
        decreases v.len() - i,
    {
        let m = magnitude(v[i]);
        g = gcd_u64(g, m);
        i = i + 1;
    }
    proof {
        lemma_gcd_upto_zero(v@, v@.len() as int);
    }
    if g == 0 {
        return None;
    }
    let ghost gn = g as nat;
    let mut out: Vec<i64> = Vec::new();
    let mut j: usize = 0;
    while j < v.len()
        invariant
            j <= v.len(),
            g > 0,
            gn == g as nat,
            gn == gcd_upto(v@, v@.len() as int),
            out@.len() == j,
            forall|t: int| 0 <= t < j ==> out@[t] == divided_entry(v@[t], gn) as i64,
        decreases v.len() - j,
    {
        let x = v[j];
        let m = magnitude(x);
        let q: u64 = m / g;
        assert(q <= m) by (nonlinear_arith)
            requires
                q == m / g,
                g > 0,
        ;
        let e: i64 = if x < 0 {
            if q == 9223372036854775808u64 {
                i64::MIN
            } else {
                -(q as i64)
            }
        } else {
            q as i64
        };
        assert(e == divided_entry(x, gn) as i64);
        out.push(e);
        j = j + 1;
    }
    assert(out@ =~= primitive_form(v@));
    Some(out)
}

/// The rays as integer sequences.
pub open spec fn rays_view(rays: Seq<Vec<i64>>) -> Seq<Seq<i64>> {
    rays.map_values(|v: Vec<i64>| v@)
}

/// The nonzero rays of `rays`, each in primitive form, in their given order.
pub open spec fn primitive_rays(rays: Seq<Seq<i64>>) -> Seq<Seq<i64>>
    decreases rays.len(),
{
    if rays.len() == 0 {
        Seq::empty()
    } else {
        let prev = primitive_rays(rays.drop_last());
        if is_zero_ray(rays.last()) {
            prev
        } else {
            prev.push(primitive_form(rays.last()))
        }
    }
}

/// Whether the index `t` occurs in `p`.
pub open spec fn lists(p: Seq<usize>, t: int) -> bool {
    exists|k: int| 0 <= k < p.len() && p[k] == t
}

/// `p` lists each of the indices `0..n` exactly once.
pub open spec fn is_index_permutation(p: Seq<usize>, n: nat) -> bool {
    &&& p.len() == n
    &&& forall|k: int| 0 <= k < n ==> p[k] < n
    &&& forall|k: int, l: int| 0 <= k < l < n ==> p[k] != p[l]
    &&& forall|t: int| 0 <= t < n ==> #[trigger] lists(p, t)
}

/// `p` puts `s` in lexicographic order, equal entries keeping their relative
/// order (the order of a stable sort).
pub open spec fn stable_sort_order(s: Seq<Seq<i64>>, p: Seq<usize>) -> bool {
    &&& is_index_permutation(p, s.len())
    &&& forall|k: int, l: int|
        0 <= k < l < p.len() ==> lex_lt(#[trigger] s[p[k] as int], #[trigger] s[p[l] as int]) || (s[p[k] as int]
            == s[p[l] as int] && p[k] < p[l])
}

/// The entries of `s` in the order `p`.
pub open spec fn arranged(s: Seq<Seq<i64>>, p: Seq<usize>) -> Seq<Seq<i64>> {
    Seq::new(p.len(), |k: int| s[p[k] as int])
}

/// A copy of the ray `v`.
pub(crate) fn copy_ray(v: &Vec<i64>) -> (r: Vec<i64>)
    ensures
        r@ == v@,
{
    let mut out: Vec<i64> = Vec::new();
    let mut i: usize = 0;
    while i < v.len()
        invariant
            i <= v.len(),
            out@ == v@.take(i as int),
        decreases v.len() - i,
    {
        out.push(v[i]);
        i = i + 1;
        assert(out@ =~= v@.take(i as int));
    }
    assert(v@.take(v@.len() as int) =~= v@);
    out
}

/// Inserting index `i` at position `j` keeps a stable lexicographic order.
proof fn lemma_insert_sorted(sv: Seq<Seq<i64>>, p: Seq<usize>, np: Seq<usize>, i: int, j: int)
    requires
        np == p.insert(j, i as usize),
        0 <= j <= i < sv.len(),
        i < usize::MAX,
        p.len() == i,
        forall|k: int| 0 <= k < i ==> p[k] < i,
        forall|k: int, l: int| 0 <= k < l < i ==> p[k] != p[l],
        forall|t: int| 0 <= t < i ==> #[trigger] lists(p, t),
        forall|k: int, l: int|
            0 <= k < l < i ==> lex_lt(#[trigger] sv[p[k] as int], #[trigger] sv[p[l] as int]) || (sv[p[k] as int]
                == sv[p[l] as int] && p[k] < p[l]),
        forall|k: int| j <= k < i ==> lex_lt(sv[i], #[trigger] sv[p[k] as int]),
        j > 0 ==> !lex_lt(sv[i], sv[p[j - 1] as int]),
    ensures
        forall|k: int| 0 <= k <= i ==> np[k] <= i,
        forall|k: int, l: int| 0 <= k < l <= i ==> np[k] != np[l],
        forall|t: int| 0 <= t <= i ==> #[trigger] lists(np, t),
        forall|k: int, l: int|
            0 <= k < l <= i ==> lex_lt(#[trigger] sv[np[k] as int], #[trigger] sv[np[l] as int]) || (
            sv[np[k] as int] == sv[np[l] as int] && np[k] < np[l]),
{
    assert forall|t: int| 0 <= t <= i implies #[trigger] lists(np, t) by {
        if t == i {
            assert(np[j] == t);
        } else {
            assert(lists(p, t));
            let k = choose|k: int| 0 <= k < p.len() && p[k] == t;
            if k < j {
                assert(np[k] == t);
            } else {
                assert(np[k + 1] == t);
            }
        }
    }
    assert forall|k: int, l: int|
        0 <= k < l <= i implies lex_lt(#[trigger] sv[np[k] as int], #[trigger] sv[np[l] as int]) || (sv[np[k] as int]
        == sv[np[l] as int] && np[k] < np[l]) by {
        let x = sv[i];
        if l == j {
            // np[k] = p[k] with k < j; compare with p[j - 1]
            let y = sv[p[j - 1] as int];
            lemma_lex_total(x, y);
            if k < j - 1 {
                assert(lex_lt(sv[p[k] as int], y) || sv[p[k] as int] == y);
                if lex_lt(sv[p[k] as int], y) && lex_lt(y, x) {
                    lemma_lex_trans(sv[p[k] as int], y, x);
                }
            }
        } else if k == j {
            assert(np[l] == p[l - 1]);
        } else if k < j && l < j {
            assert(np[k] == p[k] && np[l] == p[l]);
        } else if k < j {
            assert(np[k] == p[k] && np[l] == p[l - 1]);
        } else {
            assert(np[k] == p[k - 1] && np[l] == p[l - 1]);
        }
    }
}

/// The rays of `s` stably sorted into lexicographic order, with the order used.
fn stable_sort(s: &Vec<Vec<i64>>) -> (r: (Vec<Vec<i64>>, Vec<usize>))
    ensures
        stable_sort_order(rays_view(s@), r.1@),
        rays_view(r.0@) == arranged(rays_view(s@), r.1@),
{
    let ghost sv = rays_view(s@);
    let mut out: Vec<Vec<i64>> = Vec::new();
    let mut perm: Vec<usize> = Vec::new();
    let mut i: usize = 0;
    while i < s.len()
        invariant
            i <= s.len(),
            sv == rays_view(s@),
            sv.len() == s@.len(),
            perm@.len() == i,
            out@.len() == i,
            forall|k: int| 0 <= k < i ==> perm@[k] < i,
            forall|k: int, l: int| 0 <= k < l < i ==> perm@[k] != perm@[l],
            forall|t: int| 0 <= t < i ==> #[trigger] lists(perm@, t),
            forall|k: int, l: int|
                0 <= k < l < i ==> lex_lt(#[trigger] sv[perm@[k] as int], #[trigger] sv[perm@[l] as int]) || (
                sv[perm@[k] as int] == sv[perm@[l] as int] && perm@[k] < perm@[l]),
            forall|k: int| 0 <= k < i ==> (#[trigger] out@[k])@ == sv[perm@[k] as int],
        decreases s.len() - i,
    {
        let mut j: usize = out.len();
        while j > 0 && lex_less(&s[i], &out[j - 1])
            invariant
                j <= i,
                i < s.len(),
                out@.len() == i,
                perm@.len() == i,
                sv == rays_view(s@),
                sv.len() == s@.len(),
                forall|k: int| 0 <= k < i ==> perm@[k] < i,
                forall|k: int| 0 <= k < i ==> (#[trigger] out@[k])@ == sv[perm@[k] as int],
                forall|k: int| j <= k < i ==> lex_lt(sv[i as int], #[trigger] sv[perm@[k] as int]),
            decreases j,
        {
            assert(out@[j - 1]@ == sv[perm@[j - 1] as int]);
            j = j - 1;
        }
        proof {
            if j > 0 {
                assert(out@[j - 1]@ == sv[perm@[j - 1] as int]);
            }
        }
        let x = copy_ray(&s[i]);
        let ghost old_out = out@;
        let ghost old_perm = perm@;
        out.insert(j, x);
        perm.insert(j, i);
        assert(perm@ == old_perm.insert(j as int, i));
        proof {
            lemma_insert_sorted(sv, old_perm, perm@, i as int, j as int);
        }
        assert forall|k: int| 0 <= k < i + 1 implies (#[trigger] out@[k])@ == sv[perm@[k] as int] by {
            if k < j {
                assert(out@[k] == old_out[k] && perm@[k] == old_perm[k]);
            } else if k > j {
                assert(out@[k] == old_out[k - 1] && perm@[k] == old_perm[k - 1]);
            }
        }
        i = i + 1;
    }
    assert(rays_view(out@) =~= arranged(sv, perm@));
    (out, perm)
}

/// Every entry of `s` is strictly before the next ones.
pub open spec fn lex_strictly_sorted(s: Seq<Seq<i64>>) -> bool {
    forall|k: int, l: int| 0 <= k < l < s.len() ==> lex_lt(#[trigger] s[k], #[trigger] s[l])
}

/// `s` with each run of equal neighbours kept once.
fn dedup_sorted(s: &Vec<Vec<i64>>) -> (r: Vec<Vec<i64>>)
    requires
        forall|k: int, l: int|
            0 <= k < l < s@.len() ==> !lex_lt(#[trigger] rays_view(s@)[l], #[trigger] rays_view(s@)[k]),
    ensures
        lex_strictly_sorted(rays_view(r@)),
        rays_view(r@).to_set() == rays_view(s@).to_set(),
        r@.len() == s@.len() ==> rays_view(r@) == rays_view(s@),
{
    let ghost sv = rays_view(s@);
    let mut out: Vec<Vec<i64>> = Vec::new();
    let mut i: usize = 0;
    while i < s.len()
        invariant
            i <= s.len(),
            sv == rays_view(s@),
            sv.len() == s@.len(),
            forall|k: int, l: int| 0 <= k < l < sv.len() ==> !lex_lt(#[trigger] sv[l], #[trigger] sv[k]),
            out@.len() <= i,
            out@.len() == i ==> rays_view(out@) == sv.take(i as int),
            out@.len() > 0 ==> i > 0 && rays_view(out@).last() == sv[i - 1],
            lex_strictly_sorted(rays_view(out@)),
            forall|x: Seq<i64>| rays_view(out@).contains(x) <==> sv.take(i as int).contains(x),
        decreases s.len() - i,
    {
        let ghost before = rays_view(out@);
        let push = out.len() == 0 || lex_less(&out[out.len() - 1], &s[i]);
        if push {
            let x = copy_ray(&s[i]);
            out.push(x);
            assert(rays_view(out@) =~= before.push(sv[i as int]));
            assert forall|k: int, l: int|
                0 <= k < l < rays_view(out@).len() implies lex_lt(
                #[trigger] rays_view(out@)[k],
                #[trigger] rays_view(out@)[l],
            ) by {
                if l == before.len() && k < before.len() - 1 {
                    lemma_lex_trans(before[k], before.last(), sv[i as int]);
                }
            }
        } else {
            proof {
                lemma_lex_total(before.last(), sv[i as int]);
                assert(!lex_lt(sv[i as int], sv[i - 1]));
                assert(before.last() == sv[i as int]);
                assert(before.contains(sv[i as int]));
            }
        }
        proof {
            assert(sv.take(i + 1) =~= sv.take(i as int).push(sv[i as int]));
            let now = rays_view(out@);
            assert forall|x: Seq<i64>| now.contains(x) <==> sv.take(i + 1).contains(x) by {
                if sv.take(i + 1).contains(x) {
                    if x == sv[i as int] {
                        if push {
                            assert(now[now.len() - 1] == x);
                        } else {
                            assert(before.contains(x));
                        }
                    } else {
                        let t = choose|t: int| 0 <= t < i + 1 && #[trigger] sv.take(i + 1)[t] == x;
                        assert(sv.take(i as int)[t] == x);
                        assert(before.contains(x));
                        let u = choose|u: int| 0 <= u < before.len() && #[trigger] before[u] == x;
                        assert(now[u] == x);
                    }
                }
                if now.contains(x) {
                    let u = choose|u: int| 0 <= u < now.len() && #[trigger] now[u] == x;
                    if push && u == now.len() - 1 {
                        assert(sv.take(i + 1)[i as int] == x);
                    } else {
                        assert(before[u] == x);
                        assert(before.contains(x));
                        assert(sv.take(i as int).contains(x));
                        let t = choose|t: int| 0 <= t < i && #[trigger] sv.take(i as int)[t] == x;
                        assert(sv.take(i + 1)[t] == x);
                    }
                }
            }
        }
        i = i + 1;
    }
    assert(sv.take(sv.len() as int) =~= sv);
    assert(rays_view(out@).to_set() =~= sv.to_set());
    out
}

/// Where the reordering `p` sends the index `idx`: an index of `p` goes to
/// its position in `p`, any other index stays as it is.
pub open spec fn moved_index(p: Seq<usize>, idx: usize, x: usize) -> bool {
    if idx < p.len() {
        x < p.len() && p[x as int] == idx
    } else {
        x == idx
    }
}

/// Whether `x` is where `p` sends some index of `f`.
pub open spec fn remaps_to(p: Seq<usize>, f: Seq<usize>, x: usize) -> bool {
    exists|t: int| 0 <= t < f.len() && #[trigger] moved_index(p, f[t], x)
}

/// `g` lists, in increasing order and once each, the indices that `p` sends
/// the indices of `f` to.
pub open spec fn facet_remapped(g: Seq<usize>, f: Seq<usize>, p: Seq<usize>) -> bool {
    &&& forall|k: int, l: int| 0 <= k < l < g.len() ==> g[k] < g[l]
    &&& forall|x: usize| g.contains(x) <==> remaps_to(p, f, x)
}

/// `g` is the remapped form of one of the facets `fs`.
pub open spec fn facet_of(g: Seq<usize>, fs: Seq<Seq<usize>>, p: Seq<usize>) -> bool {
    exists|j: int| 0 <= j < fs.len() && #[trigger] facet_remapped(g, fs[j], p)
}

/// One of the lists `out` is the remapped form of the facet `f`.
pub open spec fn facet_listed(out: Seq<Seq<usize>>, f: Seq<usize>, p: Seq<usize>) -> bool {
    exists|k: int| 0 <= k < out.len() && #[trigger] facet_remapped(out[k], f, p)
}

/// `out` lists the facets `fs` with their indices sent through `p`.
pub open spec fn facets_remapped(out: Seq<Seq<usize>>, fs: Seq<Seq<usize>>, p: Seq<usize>) -> bool {
    &&& out.len() == fs.len()
    &&& forall|k: int| 0 <= k < out.len() ==> #[trigger] facet_of(out[k], fs, p)
    &&& forall|j: int| 0 <= j < fs.len() ==> #[trigger] facet_listed(out, fs[j], p)
}

/// The index sequences.
pub open spec fn index_lists(v: Seq<Vec<usize>>) -> Seq<Seq<usize>> {
    v.map_values(|x: Vec<usize>| x@)
}

/// Where the permutation `perm` sends `idx`.
fn remap_index(perm: &Vec<usize>, idx: usize) -> (r: usize)
    requires
        is_index_permutation(perm@, perm@.len()),
    ensures
        moved_index(perm@, idx, r),
{
    if idx >= perm.len() {
        return idx;
    }
    assert(lists(perm@, idx as int));
    let mut k: usize = 0;
    while k < perm.len()
        invariant
            k <= perm@.len(),
            idx < perm@.len(),
            lists(perm@, idx as int),
            forall|t: int| 0 <= t < k ==> perm@[t] != idx,
        decreases perm.len() - k,
    {
        if perm[k] == idx {
            return k;
        }
        k = k + 1;
    }
    idx
}

/// Whether `x` occurs in `v`.
fn contains_index(v: &Vec<usize>, x: usize) -> (r: bool)
    ensures
        r == v@.contains(x),
{
    let mut k: usize = 0;
    while k < v.len()
        invariant
            k <= v.len(),
            forall|t: int| 0 <= t < k ==> v@[t] != x,
        decreases v.len() - k,
    {
        if v[k] == x {
            return true;
        }
        k = k + 1;
    }
    false
}

/// The entries of `v` in increasing order, each once where `dedup`.
fn sorted_indices(v: &Vec<usize>, dedup: bool) -> (r: Vec<usize>)
    ensures
        forall|x: usize| r@.contains(x) <==> v@.contains(x),
        dedup ==> forall|k: int, l: int| 0 <= k < l < r@.len() ==> r@[k] < r@[l],
{
    let mut out: Vec<usize> = Vec::new();
    let mut i: usize = 0;
    while i < v.len()
        invariant
            i <= v.len(),
            forall|x: usize| out@.contains(x) <==> v@.take(i as int).contains(x),
            dedup ==> forall|k: int, l: int| 0 <= k < l < out@.len() ==> out@[k] < out@[l],
        decreases v.len() - i,
    {
        let x = v[i];
        let ghost before = out@;
        if !(dedup && contains_index(&out, x)) {
            let mut j: usize = out.len();
            while j > 0 && x < out[j - 1]
                invariant
                    j <= out@.len(),
                    out@ == before,
                    forall|k: int| j <= k < out@.len() ==> x < out@[k],
                decreases j,
            {
                j = j - 1;
            }
            out.insert(j, x);
            assert(out@ == before.insert(j as int, x));
            proof {
                if dedup {
                    assert(!before.contains(x));
                    assert forall|k: int, l: int| 0 <= k < l < out@.len() implies out@[k] < out@[l] by {
                        if j > 0 {
                            assert(before[j - 1] != x);
                        }
                        if k < j && l < j {
                            assert(out@[k] == before[k] && out@[l] == before[l]);
                        } else if k < j && l == j {
                            assert(out@[k] == before[k]);
                            assert(before[k] <= before[j - 1]);
                        } else if k < j {
                            assert(out@[k] == before[k] && out@[l] == before[l - 1]);
                        } else if k == j {
                            assert(out@[l] == before[l - 1]);
                        } else {
                            assert(out@[k] == before[k - 1] && out@[l] == before[l - 1]);
                        }
                    }
                }
            }
        }
        proof {
            assert(v@.take(i + 1) =~= v@.take(i as int).push(x));
            assert forall|y: usize| out@.contains(y) <==> v@.take(i + 1).contains(y) by {
                if out@.contains(y) {
                    let u = choose|u: int| 0 <= u < out@.len() && #[trigger] out@[u] == y;
                    if out@ != before && y != x {
                        let j = choose|j: int| 0 <= j <= before.len() && out@ == before.insert(j, x);
                        if u < j {
                            assert(before[u] == y);
                        } else {
                            assert(before[u - 1] == y);
                        }
                        assert(before.contains(y));
                    } else if y != x {
                        assert(before[u] == y);
                        assert(before.contains(y));
                    }
                    if y != x {
                        let t = choose|t: int| 0 <= t < i && #[trigger] v@.take(i as int)[t] == y;
                        assert(v@.take(i + 1)[t] == y);
                    } else {
                        assert(v@.take(i + 1)[i as int] == y);
                    }
                }
                if v@.take(i + 1).contains(y) {
                    if y == x {
                        if out@ == before {
                            assert(before.contains(x));
                        } else {
                            let j = choose|j: int| 0 <= j <= before.len() && out@ == before.insert(j, x);
                            assert(out@[j] == x);
                        }
                    } else {
                        let t = choose|t: int| 0 <= t < i + 1 && #[trigger] v@.take(i + 1)[t] == y;
                        assert(v@.take(i as int)[t] == y);
                        assert(before.contains(y));
                        let u = choose|u: int| 0 <= u < before.len() && #[trigger] before[u] == y;
                        if out@ != before {
                            let j = choose|j: int| 0 <= j <= before.len() && out@ == before.insert(j, x);
                            if u < j {
                                assert(out@[u] == y);
                            } else {
                                assert(out@[u + 1] == y);
                            }
                        } else {
                            assert(out@[u] == y);
                        }
                    }
                }
            }
        }
        i = i + 1;
    }
    assert(v@.take(v@.len() as int) =~= v@);
    out
}

/// Whether the index list `a` comes strictly before `b` lexicographically.
fn indices_less(a: &Vec<usize>, b: &Vec<usize>) -> (r: bool) {
    let mut i: usize = 0;
    while i < a.len() && i < b.len()
        invariant
            i <= a.len(),
            i <= b.len(),
        decreases a.len() - i,
    {
        if a[i] != b[i] {
            return a[i] < b[i];
        }
        i = i + 1;
    }
    i == a.len() && i < b.len()
}

/// A copy of the index list `v`.
fn copy_indices(v: &Vec<usize>) -> (r: Vec<usize>)
    ensures
        r@ == v@,
{
    let mut out: Vec<usize> = Vec::new();
    let mut i: usize = 0;
    while i < v.len()
        invariant
            i <= v.len(),
            out@ == v@.take(i as int),
        decreases v.len() - i,
    {
        out.push(v[i]);
        i = i + 1;
        assert(out@ =~= v@.take(i as int));
    }
    assert(v@.take(v@.len() as int) =~= v@);
    out
}

/// The lists `vals` ordered by their `keys` (lexicographically, stably).
fn order_by_keys(keys: &Vec<Vec<usize>>, vals: &Vec<Vec<usize>>) -> (r: Vec<Vec<usize>>)
    requires
        keys@.len() == vals@.len(),
    ensures
        r@.len() == vals@.len(),
        forall|x: Seq<usize>| index_lists(r@).contains(x) <==> index_lists(vals@).contains(x),
{
    let ghost vv = index_lists(vals@);
    let mut out_keys: Vec<Vec<usize>> = Vec::new();
    let mut out: Vec<Vec<usize>> = Vec::new();
    let mut i: usize = 0;
    while i < vals.len()
        invariant
            i <= vals@.len(),
            keys@.len() == vals@.len(),
            vv == index_lists(vals@),
            out@.len() == i,
            out_keys@.len() == i,
            forall|x: Seq<usize>| index_lists(out@).contains(x) <==> vv.take(i as int).contains(x),
        decreases vals.len() - i,
    {
        let mut j: usize = out.len();
        while j > 0 && indices_less(&keys[i], &out_keys[j - 1])
            invariant
                j <= out@.len(),
                out@.len() == i,
                out_keys@.len() == i,
                i < keys@.len(),
            decreases j,
        {
            j = j - 1;
        }
        let ghost before = index_lists(out@);
        let k = copy_indices(&keys[i]);
        let x = copy_indices(&vals[i]);
        out_keys.insert(j, k);
        out.insert(j, x);
        proof {
            let now = index_lists(out@);
            assert(now =~= before.insert(j as int, vv[i as int]));
            assert(vv.take(i + 1) =~= vv.take(i as int).push(vv[i as int]));
            assert forall|y: Seq<usize>| now.contains(y) <==> vv.take(i + 1).contains(y) by {
                if now.contains(y) {
                    let u = choose|u: int| 0 <= u < now.len() && #[trigger] now[u] == y;
                    if u == j {
                        assert(vv.take(i + 1)[i as int] == y);
                    } else {
                        if u < j {
                            assert(before[u] == y);
                        } else {
                            assert(before[u - 1] == y);
                        }
                        assert(before.contains(y));
                        let t = choose|t: int| 0 <= t < i && #[trigger] vv.take(i as int)[t] == y;
                        assert(vv.take(i + 1)[t] == y);
                    }
                }
                if vv.take(i + 1).contains(y) {
                    let t = choose|t: int| 0 <= t < i + 1 && #[trigger] vv.take(i + 1)[t] == y;
                    if t == i {
                        assert(now[j as int] == y);
                    } else {
                        assert(vv.take(i as int)[t] == y);
                        assert(before.contains(y));
                        let u = choose|u: int| 0 <= u < before.len() && #[trigger] before[u] == y;
                        if u < j {
                            assert(now[u] == y);
                        } else {
                            assert(now[u + 1] == y);
                        }
                    }
                }
            }
        }
        i = i + 1;
    }
    assert(vv.take(vv.len() as int) =~= vv);
    out
}

/// The facets `fs` with their indices sent through the sort order `perm`,
/// each listed increasingly once, and the facets ordered as the stored
/// facet lists are: by the remapped lists, sorted first where `sort_keys`.
fn remap_facets(fs: &Vec<Vec<usize>>, perm: &Vec<usize>, sort_keys: bool) -> (r: Vec<Vec<usize>>)
    requires
        is_index_permutation(perm@, perm@.len()),
    ensures
        facets_remapped(index_lists(r@), index_lists(fs@), perm@),
{
    let mut keys: Vec<Vec<usize>> = Vec::new();
    let mut vals: Vec<Vec<usize>> = Vec::new();
    let mut j: usize = 0;
    while j < fs.len()
        invariant
            j <= fs@.len(),
            is_index_permutation(perm@, perm@.len()),
            keys@.len() == j,
            vals@.len() == j,
            forall|t: int| 0 <= t < j ==> #[trigger] facet_remapped(vals@[t]@, fs@[t]@, perm@),
        decreases fs.len() - j,
    {
        let f = &fs[j];
        let mut mapped: Vec<usize> = Vec::new();
        let mut t: usize = 0;
        while t < f.len()
            invariant
                t <= f@.len(),
                f == &fs@[j as int],
                is_index_permutation(perm@, perm@.len()),
                mapped@.len() == t,
                forall|u: int| 0 <= u < t ==> #[trigger] moved_index(perm@, f@[u], mapped@[u]),
            decreases f.len() - t,
        {
            let m = remap_index(perm, f[t]);
            mapped.push(m);
            t = t + 1;
        }
        let key = if sort_keys {
            sorted_indices(&mapped, false)
        } else {
            copy_indices(&mapped)
        };
        let val = sorted_indices(&mapped, true);
        proof {
            assert forall|x: usize| val@.contains(x) <==> remaps_to(perm@, f@, x) by {
                if val@.contains(x) {
                    assert(mapped@.contains(x));
                    let u = choose|u: int| 0 <= u < mapped@.len() && #[trigger] mapped@[u] == x;
                    assert(moved_index(perm@, f@[u], mapped@[u]));
                }
                if remaps_to(perm@, f@, x) {
                    let u = choose|u: int| 0 <= u < f@.len() && #[trigger] moved_index(perm@, f@[u], x);
                    assert(moved_index(perm@, f@[u], mapped@[u]));
                    if f@[u] < perm@.len() {
                        assert(perm@[x as int] == perm@[mapped@[u] as int]);
                    }
                    assert(mapped@[u] == x);
                    assert(mapped@.contains(x));
                }
            }
        }
        keys.push(key);
        vals.push(val);
        j = j + 1;
    }
    let r = order_by_keys(&keys, &vals);
    proof {
        let out = index_lists(r@);
        let fv = index_lists(fs@);
        assert forall|k: int| 0 <= k < out.len() implies #[trigger] facet_of(out[k], fv, perm@) by {
            assert(out.contains(out[k]));
            let j = choose|j: int| 0 <= j < index_lists(vals@).len() && #[trigger] index_lists(vals@)[j] == out[k];
            assert(facet_remapped(vals@[j]@, fs@[j]@, perm@));
            assert(facet_remapped(out[k], fv[j], perm@));
        }
        assert forall|j: int| 0 <= j < fv.len() implies #[trigger] facet_listed(out, fv[j], perm@) by {
            assert(index_lists(vals@)[j] == vals@[j]@);
            assert(index_lists(vals@).contains(vals@[j]@));
            let k = choose|k: int| 0 <= k < out.len() && #[trigger] out[k] == vals@[j]@;
            assert(facet_remapped(vals@[j]@, fs@[j]@, perm@));
            assert(facet_remapped(out[k], fv[j], perm@));
        }
    }
    r
}

/// The rays of `b` that also occur in `a`, in the order of `b`.
pub open spec fn shared_rays(a: Seq<Seq<i64>>, b: Seq<Seq<i64>>) -> Seq<Seq<i64>>
    decreases b.len(),
{
    if b.len() == 0 {
        Seq::empty()
    } else {
        let prev = shared_rays(a, b.drop_last());
        if a.contains(b.last()) {
            prev.push(b.last())
        } else {
            prev
        }
    }
}

/// Every ray has the length of the first.
pub open spec fn uniform_lengths(rays: Seq<Seq<i64>>) -> bool {
    forall|i: int| 0 <= i < rays.len() ==> #[trigger] rays[i].len() == rays[0].len()
}

/// `i` is the first ray whose length differs from that of the first.
pub open spec fn first_mismatch(rays: Seq<Seq<i64>>, i: int) -> bool {
    &&& 0 <= i < rays.len()
    &&& rays[i].len() != rays[0].len()
    &&& forall|j: int| 0 <= j < i ==> #[trigger] rays[j].len() == rays[0].len()
}

/// Whether equal rays are merged: unless the caller vouches that the rays
/// are already irredundant.
pub open spec fn dedups(no_redundant_parameterization: Option<bool>) -> bool {
    no_redundant_parameterization != Some(true)
}

/// The number of generators kept from the primitive rays `prims`.
pub open spec fn kept_count(prims: Seq<Seq<i64>>, dedup: bool) -> nat {
    if dedup {
        prims.to_set().len()
    } else {
        prims.len()
    }
}

/// Whether normalising the rays changed their number: a zero ray was
/// dropped or equal rays were merged.
pub open spec fn rays_changed(rays: Seq<Seq<i64>>, dedup: bool) -> bool {
    kept_count(primitive_rays(rays), dedup) != rays.len()
}

/// A single generator is kept, while the given spanning dimension is not 1.
pub open spec fn spanning_contradicted(rays: Seq<Seq<i64>>, dedup: bool, known_spanning_dim: Option<usize>) -> bool {
    &&& kept_count(primitive_rays(rays), dedup) == 1
    &&& known_spanning_dim is Some
    &&& known_spanning_dim.unwrap() != 1
}

/// The ray after position `k` is no earlier than the one at `k`.
pub open spec fn in_order_at(s: Seq<Seq<i64>>, k: int) -> bool {
    !lex_lt(s[k + 1], s[k])
}

/// Every ray is no later than the next one.
pub open spec fn adjacent_sorted(s: Seq<Seq<i64>>) -> bool {
    forall|k: int| 0 <= k && k + 1 < s.len() ==> #[trigger] in_order_at(s, k)
}

/// Every facet index is below `n`.
pub open spec fn facets_in_range(fs: Seq<Seq<usize>>, n: nat) -> bool {
    forall|j: int, t: int| 0 <= j < fs.len() && 0 <= t < fs[j].len() ==> #[trigger] fs[j][t] < n
}

/// The facet lists, where given.
pub open spec fn facets_view(fs: Option<Vec<Vec<usize>>>) -> Option<Seq<Seq<usize>>> {
    match fs {
        Some(f) => Some(index_lists(f@)),
        None => None,
    }
}

/// The inputs on which building a cone from valid rays cannot go on: facets
/// are given while the rays are not in order and a facet names no ray, or
/// while normalising changes the rays (and no spanning dimension error comes
/// first).
pub open spec fn facets_unusable(
    rays: Seq<Seq<i64>>,
    no_redundant_parameterization: Option<bool>,
    known_spanning_dim: Option<usize>,
    known_facets: Option<Seq<Seq<usize>>>,
) -> bool {
    let prims = primitive_rays(rays);
    let dedup = dedups(no_redundant_parameterization);
    &&& known_facets is Some
    &&& {
        ||| !adjacent_sorted(prims) && !facets_in_range(known_facets.unwrap(), prims.len())
        ||| rays_changed(rays, dedup) && !spanning_contradicted(rays, dedup, known_spanning_dim)
    }
}

/// Two cones hold the same data: generators, ambient dimension, known
/// spanning dimension and irredundancy, and facets.
pub open spec fn same_cone(a: RationalPolyhedralCone, b: RationalPolyhedralCone) -> bool {
    &&& a.gens() == b.gens()
    &&& a.ambient() == b.ambient()
    &&& a.spanning() == b.spanning()
    &&& a.minimal() == b.minimal()
    &&& a.facets() == b.facets()
}

/// Whether two rays are equal.
pub(crate) fn same_ray(a: &Vec<i64>, b: &Vec<i64>) -> (r: bool)
    ensures
        r == (a@ == b@),
{
    proof {
        lemma_lex_total(a@, b@);
        lemma_lex_asym(a@, a@);
    }
    !lex_less(a, b) && !lex_less(b, a)
}

/// Whether two index lists are equal.
fn same_indices(a: &Vec<usize>, b: &Vec<usize>) -> (r: bool)
    ensures
        r == (a@ == b@),
{
    if a.len() != b.len() {
        return false;
    }
    let mut i: usize = 0;
    while i < a.len()
        invariant
            a@.len() == b@.len(),
            i <= a@.len(),
            forall|j: int| 0 <= j < i ==> a@[j] == b@[j],
        decreases a.len() - i,
    {
        if a[i] != b[i] {
            return false;
        }
        i = i + 1;
    }
    assert(a@ =~= b@);
    true
}

/// Whether two lists of rays are equal.
fn same_rays(a: &Vec<Vec<i64>>, b: &Vec<Vec<i64>>) -> (r: bool)
    ensures
        r == (rays_view(a@) == rays_view(b@)),
{
    if a.len() != b.len() {
        assert(rays_view(a@).len() != rays_view(b@).len());
        return false;
    }
    let mut i: usize = 0;
    while i < a.len()
        invariant
            a@.len() == b@.len(),
            i <= a@.len(),
            forall|j: int| 0 <= j < i ==> a@[j]@ == b@[j]@,
        decreases a.len() - i,
    {
        if !same_ray(&a[i], &b[i]) {
            assert(rays_view(a@)[i as int] != rays_view(b@)[i as int]);
            return false;
        }
        i = i + 1;
    }
    assert(rays_view(a@) =~= rays_view(b@));
    true
}

/// Whether two lists of index lists are equal.
fn same_index_lists(a: &Vec<Vec<usize>>, b: &Vec<Vec<usize>>) -> (r: bool)
    ensures
        r == (index_lists(a@) == index_lists(b@)),
{
    if a.len() != b.len() {
        assert(index_lists(a@).len() != index_lists(b@).len());
        return false;
    }
    let mut i: usize = 0;
    while i < a.len()
        invariant
            a@.len() == b@.len(),
            i <= a@.len(),
            forall|j: int| 0 <= j < i ==> a@[j]@ == b@[j]@,
        decreases a.len() - i,
    {
        if !same_indices(&a[i], &b[i]) {
            assert(index_lists(a@)[i as int] != index_lists(b@)[i as int]);
            return false;
        }
        i = i + 1;
    }
    assert(index_lists(a@) =~= index_lists(b@));
    true
}

/// A copy of a list of rays.
fn copy_rays(v: &Vec<Vec<i64>>) -> (r: Vec<Vec<i64>>)
    ensures
        rays_view(r@) == rays_view(v@),
{
    let mut out: Vec<Vec<i64>> = Vec::new();
    let mut i: usize = 0;
    while i < v.len()
        invariant
            i <= v@.len(),
            rays_view(out@) == rays_view(v@).take(i as int),
        decreases v.len() - i,
    {
        let ghost before = rays_view(out@);
        let x = copy_ray(&v[i]);
        out.push(x);
        assert(rays_view(out@) =~= before.push(v@[i as int]@));
        i = i + 1;
        assert(rays_view(out@) =~= rays_view(v@).take(i as int));
    }
    assert(rays_view(v@).take(v@.len() as int) =~= rays_view(v@));
    out
}

/// A copy of a list of index lists.
fn copy_index_lists(v: &Vec<Vec<usize>>) -> (r: Vec<Vec<usize>>)
    ensures
        index_lists(r@) == index_lists(v@),
{
    let mut out: Vec<Vec<usize>> = Vec::new();
    let mut i: usize = 0;
    while i < v.len()
        invariant
            i <= v@.len(),
            index_lists(out@) == index_lists(v@).take(i as int),
        decreases v.len() - i,
    {
        let ghost before = index_lists(out@);
        let x = copy_indices(&v[i]);
        out.push(x);
        assert(index_lists(out@) =~= before.push(v@[i as int]@));
        i = i + 1;
        assert(index_lists(out@) =~= index_lists(v@).take(i as int));
    }
    assert(index_lists(v@).take(v@.len() as int) =~= index_lists(v@));
    out
}

/// A rational polyhedral cone `Cone(v_1, ..., v_n)` in `R^d` spanned by
/// integer rays, stored as primitive rays in lexicographic order; the zero
/// cone has no generators.
#[derive(Clone, Debug, PartialEq, Eq)]
pub struct RationalPolyhedralCone {
    generators: Vec<Vec<i64>>,
    /// Dimension `d` of the ambient lattice `Z^d`.
    pub ambient_dim: usize,
    spanning_dim: Option<usize>,
    no_redundant_generators_as_cone: Option<bool>,
    facets_idces: Option<Vec<Vec<usize>>>,
}

impl RationalPolyhedralCone {
    /// The generators, primitive and in lexicographic order.
    pub closed spec fn gens(&self) -> Seq<Seq<i64>> {
        rays_view(self.generators@)
    }

    /// The dimension of the ambient lattice.
    pub closed spec fn ambient(&self) -> usize {
        self.ambient_dim
    }

    /// The dimension of the span of the cone, where known.
    pub closed spec fn spanning(&self) -> Option<usize> {
        self.spanning_dim
    }

    /// Whether the generators are known to be irredundant, where known.
    pub closed spec fn minimal(&self) -> Option<bool> {
        self.no_redundant_generators_as_cone
    }

    /// The facets as index lists into the generators, where known.
    pub closed spec fn facets(&self) -> Option<Seq<Seq<usize>>> {
        facets_view(self.facets_idces)
    }

    /// Every generator is a nonzero primitive vector.
    pub open spec fn primitive_generators(self) -> bool {
        forall|x: Seq<i64>| #[trigger] self.gens().contains(x) ==> !is_zero_ray(x) && primitive_form(x) == x
    }

    /// The cone built from valid rays: generators, the known dimension and
    /// irredundancy, and the facets renumbered for the sorted generators.
    pub open spec fn built_from(
        self,
        rays: Seq<Seq<i64>>,
        no_redundant_parameterization: Option<bool>,
        known_spanning_dim: Option<usize>,
        known_facets: Option<Seq<Seq<usize>>>,
    ) -> bool {
        let prims = primitive_rays(rays);
        let dedup = dedups(no_redundant_parameterization);
        &&& self.ambient() == rays[0].len()
        &&& self.gens().len() == kept_count(prims, dedup)
        &&& if dedup {
            lex_strictly_sorted(self.gens()) && self.gens().to_set() == prims.to_set()
        } else {
            exists|p: Seq<usize>| stable_sort_order(prims, p) && self.gens() == arranged(prims, p)
        }
        &&& self.spanning() == if self.gens().len() == 1 {
            Some(1usize)
        } else {
            known_spanning_dim
        }
        &&& self.minimal() == if self.gens().len() == 1 {
            Some(true)
        } else {
            no_redundant_parameterization
        }
        &&& (rays_changed(rays, dedup) || known_facets is None) ==> self.facets() is None
        &&& (!rays_changed(rays, dedup) && known_facets is Some) ==> {
            &&& self.facets() is Some
            &&& exists|p: Seq<usize>|
                stable_sort_order(prims, p) && facets_remapped(self.facets().unwrap(), known_facets.unwrap(), p)
        }
    }

    /// Builds the cone spanned by `generating_rays` (all of one length): each
    /// ray is divided by the greatest common divisor of its entries, zero rays
    /// are dropped, and the rays are sorted lexicographically, so that the cone
    /// does not depend on the order the rays came in. Equal rays are merged
    /// unless `no_redundant_parameterization` is `Some(true)`. The given facets
    /// (index lists into the rays) are renumbered for the sorted order; they
    /// are dropped when normalising changed the rays.
    ///
    /// Errors: `EmptyGeneratorList` for no rays; `DimensionMismatch` for the
    /// first ray of another length, or for a single generator with a given
    /// spanning dimension other than 1.
    pub fn new(
        generating_rays: Vec<Vec<i64>>,
        no_redundant_parameterization: Option<bool>,
        known_spanning_dim: Option<usize>,
        known_facets: Option<Vec<Vec<usize>>>,
    ) -> (r: Result<RationalPolyhedralCone, ConeError>)
        requires
            generating_rays@.len() > 0 && uniform_lengths(rays_view(generating_rays@)) ==> !facets_unusable(
                rays_view(generating_rays@),
                no_redundant_parameterization,
                known_spanning_dim,
                facets_view(known_facets),
            ),
        ensures
            generating_rays@.len() == 0 ==> r == Err::<RationalPolyhedralCone, ConeError>(
                ConeError::EmptyGeneratorList,
            ),
            generating_rays@.len() > 0 && !uniform_lengths(rays_view(generating_rays@)) ==> exists|i: int|
                first_mismatch(rays_view(generating_rays@), i) && r == Err::<RationalPolyhedralCone, ConeError>(
                    ConeError::DimensionMismatch {
                        expected: generating_rays@[0].len(),
                        found: #[trigger] generating_rays@[i].len(),
                    },
                ),
            generating_rays@.len() > 0 && uniform_lengths(rays_view(generating_rays@)) && spanning_contradicted(
                rays_view(generating_rays@),
                dedups(no_redundant_parameterization),
                known_spanning_dim,
            ) ==> r == Err::<RationalPolyhedralCone, ConeError>(
                ConeError::DimensionMismatch { expected: 1, found: known_spanning_dim.unwrap() },
            ),
            generating_rays@.len() > 0 && uniform_lengths(rays_view(generating_rays@)) && !spanning_contradicted(
                rays_view(generating_rays@),
                dedups(no_redundant_parameterization),
                known_spanning_dim,
            ) ==> r is Ok && r.unwrap().built_from(
                rays_view(generating_rays@),
                no_redundant_parameterization,
                known_spanning_dim,
                facets_view(known_facets),
            ),
            r is Ok ==> r.unwrap().primitive_generators(),
    {
        let ghost rv = rays_view(generating_rays@);
        if generating_rays.len() == 0 {
            return Err(ConeError::EmptyGeneratorList);
        }
        let dim = generating_rays[0].len();
        let mut i: usize = 0;
        while i < generating_rays.len()
            invariant
                i <= generating_rays@.len(),
                rv == rays_view(generating_rays@),
                rv.len() == generating_rays@.len(),
                dim == generating_rays@[0].len(),
                forall|j: int| 0 <= j < i ==> #[trigger] rv[j].len() == rv[0].len(),
            decreases generating_rays.len() - i,
        {
            if generating_rays[i].len() != dim {
                assert(first_mismatch(rv, i as int));
                return Err(ConeError::DimensionMismatch { expected: dim, found: generating_rays[i].len() });
            }
            i = i + 1;
        }
        assert(uniform_lengths(rv));
        let count = generating_rays.len();
        let mut prims: Vec<Vec<i64>> = Vec::new();
        let mut k: usize = 0;
        while k < count
            invariant
                k <= count,
                count == generating_rays@.len(),
                rv == rays_view(generating_rays@),
                rv.len() == count,
                rays_view(prims@) == primitive_rays(rv.take(k as int)),
                prims@.len() <= k,
            decreases count - k,
        {
            assert(rv.take(k + 1).drop_last() =~= rv.take(k as int));
            assert(rv.take(k + 1).last() == generating_rays@[k as int]@);
            match primitive_vector(&generating_rays[k]) {
                Some(v) => {
                    prims.push(v);
                    assert(rays_view(prims@) =~= primitive_rays(rv.take(k + 1)));
                },
                None => {},
            }
            k = k + 1;
        }
        assert(rv.take(count as int) =~= rv);
        let ghost pv = primitive_rays(rv);
        let mut already_sorted = true;
        let mut t: usize = 1;
        while t < prims.len()
            invariant
                1 <= t,
                t == 1 || t <= prims@.len(),
                rays_view(prims@) == pv,
                already_sorted <==> forall|u: int| 0 <= u && u + 1 < t ==> #[trigger] in_order_at(pv, u),
            decreases prims.len() - t,
        {
            assert(pv[t as int] == prims@[t as int]@ && pv[t - 1] == prims@[t - 1]@);
            if lex_less(&prims[t], &prims[t - 1]) {
                already_sorted = false;
                assert(!in_order_at(pv, t - 1));
            } else {
                assert(in_order_at(pv, t - 1));
            }
            t = t + 1;
        }
        assert(pv.len() == prims@.len());
        proof {
            if pv.len() > 0 {
                assert(t == pv.len());
            }
            if already_sorted {
                assert forall|k: int| 0 <= k && k + 1 < pv.len() implies #[trigger] in_order_at(pv, k) by {}
                assert(adjacent_sorted(pv));
            } else {
                let u = choose|u: int| 0 <= u && u + 1 < t && !#[trigger] in_order_at(pv, u);
                assert(!in_order_at(pv, u));
                assert(!adjacent_sorted(pv));
            }
        }
        assert(already_sorted == adjacent_sorted(pv));
        let (sorted, perm) = stable_sort(&prims);
        let ghost sv = rays_view(sorted@);
        proof {
            assert forall|a: int, b: int| 0 <= a < b < sv.len() implies !lex_lt(#[trigger] sv[b], #[trigger] sv[a]) by {
                lemma_lex_asym(sv[a], sv[b]);
                lemma_lex_asym(sv[b], sv[b]);
            }
            assert forall|x: Seq<i64>| sv.contains(x) <==> pv.contains(x) by {
                if pv.contains(x) {
                    let u = choose|u: int| 0 <= u < pv.len() && #[trigger] pv[u] == x;
                    assert(lists(perm@, u));
                    let w = choose|w: int| 0 <= w < perm@.len() && perm@[w] == u;
                    assert(sv[w] == x);
                }
                if sv.contains(x) {
                    let w = choose|w: int| 0 <= w < sv.len() && #[trigger] sv[w] == x;
                    assert(pv[perm@[w] as int] == x);
                }
            }
            assert(sv.to_set() =~= pv.to_set());
            pv.lemma_cardinality_of_set();
        }
        let dedup = match no_redundant_parameterization {
            Some(b) => !b,
            None => true,
        };
        assert(dedup == dedups(no_redundant_parameterization));
        let mut changed = prims.len() != count;
        let generators = if dedup {
            let d = dedup_sorted(&sorted);
            proof {
                let dv = rays_view(d@);
                assert(dv.no_duplicates()) by {
                    assert forall|a: int, b: int| 0 <= a < dv.len() && 0 <= b < dv.len() && a != b implies dv[a]
                        != dv[b] by {
                        if a < b {
                            lemma_lex_asym(dv[a], dv[b]);
                        } else {
                            lemma_lex_asym(dv[b], dv[a]);
                        }
                    }
                }
                dv.unique_seq_to_set();
            }
            if d.len() != sorted.len() {
                changed = true;
            }
            d
        } else {
            sorted
        };
        let ghost gv = rays_view(generators@);
        assert(sv.len() == pv.len());
        assert(prims@.len() == pv.len());
        assert(gv.len() == kept_count(pv, dedup));
        assert(changed == rays_changed(rv, dedup));
        let (spanning_dim, minimal) = if generators.len() == 1 {
            if let Some(z) = known_spanning_dim {
                if z != 1 {
                    return Err(ConeError::DimensionMismatch { expected: 1, found: z });
                }
            }
            (Some(1usize), Some(true))
        } else {
            (known_spanning_dim, no_redundant_parameterization)
        };
        let facets_idces = if changed {
            None
        } else {
            match known_facets {
                None => None,
                Some(fs) => Some(remap_facets(&fs, &perm, !already_sorted)),
            }
        };
        let cone = RationalPolyhedralCone {
            generators,
            ambient_dim: dim,
            spanning_dim,
            no_redundant_generators_as_cone: minimal,
            facets_idces,
        };
        proof {
            assert(cone.built_from(rv, no_redundant_parameterization, known_spanning_dim, facets_view(known_facets)));
            assert forall|x: Seq<i64>| #[trigger] cone.gens().contains(x) implies !is_zero_ray(x) && primitive_form(x)
                == x by {
                law_cone_generators_primitive(cone, rv, no_redundant_parameterization, known_spanning_dim, facets_view(known_facets), x);
            }
            assert(cone.primitive_generators());
        }
        Ok(cone)
    }

    /// Whether `self` and `other` hold the same data.
    pub fn same_as(&self, other: &RationalPolyhedralCone) -> (r: bool)
        ensures
            r == same_cone(*self, *other),
    {
        if !same_rays(&self.generators, &other.generators) || self.ambient_dim != other.ambient_dim {
            return false;
        }
        let spanning = match (self.spanning_dim, other.spanning_dim) {
            (Some(x), Some(y)) => x == y,
            (None, None) => true,
            _ => false,
        };
        let minimal = match (self.no_redundant_generators_as_cone, other.no_redundant_generators_as_cone) {
            (Some(x), Some(y)) => x == y,
            (None, None) => true,
            _ => false,
        };
        let facets = match (&self.facets_idces, &other.facets_idces) {
            (Some(x), Some(y)) => same_index_lists(x, y),
            (None, None) => true,
            _ => false,
        };
        spanning && minimal && facets
    }

    /// A copy of the cone.
    pub fn copy(&self) -> (r: RationalPolyhedralCone)
        ensures
            same_cone(r, *self),
    {
        let facets_idces = match &self.facets_idces {
            Some(f) => Some(copy_index_lists(f)),
            None => None,
        };
        RationalPolyhedralCone {
            generators: copy_rays(&self.generators),
            ambient_dim: self.ambient_dim,
            spanning_dim: self.spanning_dim,
            no_redundant_generators_as_cone: self.no_redundant_generators_as_cone,
            facets_idces,
        }
    }

    /// The dimension of the ambient lattice.
    pub fn ambient_dimension(&self) -> (r: usize)
        ensures
            r == self.ambient(),
    {
        self.ambient_dim
    }

    /// The generators, primitive and in lexicographic order.
    pub fn view_generators(&self) -> (r: &Vec<Vec<i64>>)
        ensures
            rays_view(r@) == self.gens(),
    {
        &self.generators
    }

    /// The generators, primitive and in lexicographic order, as a slice.
    pub fn iter_generators(&self) -> (r: &[Vec<i64>])
        ensures
            rays_view(r@) == self.gens(),
    {
        self.generators.as_slice()
    }

    /// The number of rays, where the generators are known to be irredundant.
    pub fn num_rays(&self) -> (r: Result<usize, ConeError>)
        ensures
            self.minimal() == Some(true) ==> r == Ok::<usize, ConeError>(self.gens().len() as usize),
            self.minimal() != Some(true) ==> r == Err::<usize, ConeError>(ConeError::NotMinimallyPresented),
    {
        match self.no_redundant_generators_as_cone {
            Some(true) => Ok(self.generators.len()),
            _ => Err(ConeError::NotMinimallyPresented),
        }
    }

    /// The dimension of the span of the cone, where known.
    pub fn view_spanning_dim(&self) -> (r: Option<usize>)
        ensures
            r == self.spanning(),
    {
        self.spanning_dim
    }

    /// The zero cone `{0}` in the ambient space of dimension `dim`: no
    /// generators, spanning dimension 0, irredundant, with no facets.
    pub fn zero_cone(dim: usize) -> (r: Self)
        ensures
            r.gens().len() == 0,
            r.ambient() == dim,
            r.spanning() == Some(0usize),
            r.minimal() == Some(true),
            r.facets() == Some(Seq::<Seq<usize>>::empty()),
    {
        let r = RationalPolyhedralCone {
            generators: Vec::new(),
            ambient_dim: dim,
            spanning_dim: Some(0),
            no_redundant_generators_as_cone: Some(true),
            facets_idces: Some(Vec::new()),
        };
        assert(r.facets().unwrap() =~= Seq::<Seq<usize>>::empty());
        r
    }

    /// The dimension of the toric variety of the cone: the ambient dimension,
    /// where the cone is irredundant, full-dimensional and has as many rays
    /// as that dimension.
    pub fn variety_dim(&self) -> (r: Result<usize, ()>)
        ensures
            r is Ok <==> (self.minimal() == Some(true) && self.spanning() == Some(self.ambient())
                && self.gens().len() == self.ambient()),
            r is Ok ==> r == Ok::<usize, ()>(self.ambient()),
    {
        let minimal = match self.no_redundant_generators_as_cone {
            Some(b) => b,
            None => false,
        };
        let full = match self.spanning_dim {
            Some(z) => z == self.ambient_dim,
            None => false,
        };
        if minimal && full && self.generators.len() == self.ambient_dim {
            Ok(self.ambient_dim)
        } else {
            Err(())
        }
    }

    /// The facets as index lists into the generators, where known.
    pub fn view_facets_idces(&self) -> (r: Option<&Vec<Vec<usize>>>)
        ensures
            r is Some <==> self.facets() is Some,
            r is Some ==> index_lists(r.unwrap()@) == self.facets().unwrap(),
    {
        match &self.facets_idces {
            Some(f) => Some(f),
            None => None,
        }
    }

    /// The cone spanned by the generators that `self` and `other` share: the
    /// intersection where the two cones meet along a common face.
    ///
    /// Errors: `DimensionMismatch` for different ambient dimensions, then
    /// `NotMinimallyPresented` unless both cones are known to be irredundant.
    pub fn combinatorial_intersection(&self, other: &RationalPolyhedralCone) -> (r: Result<
        RationalPolyhedralCone,
        ConeError,
    >)
        ensures
            self.ambient() != other.ambient() ==> r == Err::<RationalPolyhedralCone, ConeError>(
                ConeError::DimensionMismatch { expected: self.ambient(), found: other.ambient() },
            ),
            self.ambient() == other.ambient() && (self.minimal() != Some(true) || other.minimal() != Some(true))
                ==> r == Err::<RationalPolyhedralCone, ConeError>(ConeError::NotMinimallyPresented),
            self.ambient() == other.ambient() && self.minimal() == Some(true) && other.minimal() == Some(true)
                ==> {
                let common = shared_rays(self.gens(), other.gens());
                &&& common.len() == 0 ==> r is Ok && r.unwrap().gens().len() == 0 && r.unwrap().ambient()
                    == self.ambient() && r.unwrap().spanning() == Some(0usize) && r.unwrap().minimal() == Some(
                    true,
                ) && r.unwrap().facets() == Some(Seq::<Seq<usize>>::empty())
                &&& common.len() > 0 && uniform_lengths(common) ==> r is Ok && r.unwrap().built_from(
                    common,
                    Some(true),
                    None,
                    None,
                )
                &&& common.len() > 0 && !uniform_lengths(common) ==> r is Err
                &&& self.primitive_generators() && other.primitive_generators() && uniform_lengths(common) ==> r is Ok
                    && r.unwrap().gens().to_set() == self.gens().to_set().intersect(other.gens().to_set())
                &&& uniform_lengths(common) ==> r is Ok && forall|x: Seq<i64>|
                    r.unwrap().gens().contains(x) <==> exists|y: Seq<i64>|
                        self.gens().contains(y) && other.gens().contains(y) && !is_zero_ray(y) && #[trigger] primitive_form(y) == x
            },
    {
        if self.ambient_dim != other.ambient_dim {
            return Err(ConeError::DimensionMismatch { expected: self.ambient_dim, found: other.ambient_dim });
        }
        let both = match (self.no_redundant_generators_as_cone, other.no_redundant_generators_as_cone) {
            (Some(true), Some(true)) => true,
            _ => false,
        };
        if !both {
            return Err(ConeError::NotMinimallyPresented);
        }
        let ghost a = self.gens();
        let ghost b = other.gens();
        let mut common: Vec<Vec<i64>> = Vec::new();
        let mut j: usize = 0;
        while j < other.generators.len()
            invariant
                j <= other.generators@.len(),
                a == self.gens(),
                b == other.gens(),
                b.len() == other.generators@.len(),
                rays_view(common@) == shared_rays(a, b.take(j as int)),
            decreases other.generators.len() - j,
        {
            let mut found = false;
            let mut k: usize = 0;
            while k < self.generators.len()
                invariant
                    k <= self.generators@.len(),
                    a == self.gens(),
                    a.len() == self.generators@.len(),
                    j < b.len(),
                    b == other.gens(),
                    found <==> a.take(k as int).contains(b[j as int]),
                decreases self.generators.len() - k,
            {
                assert(a.take(k + 1) =~= a.take(k as int).push(a[k as int]));
                if !found && !lex_less(&self.generators[k], &other.generators[j]) && !lex_less(
                    &other.generators[j],
                    &self.generators[k],
                ) {
                    proof {
                        lemma_lex_total(a[k as int], b[j as int]);
                    }
                    found = true;
                    assert(a.take(k + 1)[k as int] == b[j as int]);
                } else if !found {
                    proof {
                        lemma_lex_asym(a[k as int], a[k as int]);
                        if a.take(k + 1).contains(b[j as int]) {
                            let u = choose|u: int| 0 <= u < k + 1 && #[trigger] a.take(k + 1)[u] == b[j as int];
                            if u < k {
                                assert(a.take(k as int)[u] == b[j as int]);
                            }
                        }
                    }
                } else {
                    proof {
                        let u = choose|u: int| 0 <= u < k && #[trigger] a.take(k as int)[u] == b[j as int];
                        assert(a.take(k + 1)[u] == b[j as int]);
                    }
                }
                k = k + 1;
            }
            assert(a.take(a.len() as int) =~= a);
            assert(b.take(j + 1).drop_last() =~= b.take(j as int));
            if found {
                let x = copy_ray(&other.generators[j]);
                common.push(x);
                assert(rays_view(common@) =~= shared_rays(a, b.take(j + 1)));
            } else {
                assert(rays_view(common@) =~= shared_rays(a, b.take(j + 1)));
            }
            j = j + 1;
        }
        assert(b.take(b.len() as int) =~= b);
        proof {
            law_shared_rays_are_common(a, b);
        }
        if common.len() == 0 {
            let z = Self::zero_cone(self.ambient_dim);
            proof {
                assert forall|x: Seq<i64>| z.gens().contains(x) <==> exists|y: Seq<i64>|
                    a.contains(y) && b.contains(y) && !is_zero_ray(y) && #[trigger] primitive_form(y) == x by {
                    if exists|y: Seq<i64>| a.contains(y) && b.contains(y) && !is_zero_ray(y) && #[trigger] primitive_form(y) == x {
                        let y = choose|y: Seq<i64>| a.contains(y) && b.contains(y) && !is_zero_ray(y) && #[trigger] primitive_form(y) == x;
                        assert(shared_rays(a, b).contains(y));
                    }
                }
            }
            return Ok(z);
        }
        let ghost cv = rays_view(common@);
        let r = RationalPolyhedralCone::new(common, Some(true), None, None);
        proof {
            if uniform_lengths(cv) {
                assert(!spanning_contradicted(cv, dedups(Some(true)), None));
                assert forall|x: Seq<i64>| r.unwrap().gens().contains(x) <==> exists|y: Seq<i64>|
                    a.contains(y) && b.contains(y) && !is_zero_ray(y) && #[trigger] primitive_form(y) == x by {
                    law_intersection_spanned_by_shared_rays(a, b, r.unwrap(), x);
                }
            }
        }
        r
    }
}

/// The rays two lists share are exactly the rays in both: as sets, the
/// intersection.
pub proof fn law_shared_rays_are_common(a: Seq<Seq<i64>>, b: Seq<Seq<i64>>)
    ensures
        forall|y: Seq<i64>| #[trigger] shared_rays(a, b).contains(y) <==> a.contains(y) && b.contains(y),
        shared_rays(a, b).to_set() == a.to_set().intersect(b.to_set()),
    decreases b.len(),
{
    if b.len() > 0 {
        let init = b.drop_last();
        law_shared_rays_are_common(a, init);
        let s = shared_rays(a, b);
        let prev = shared_rays(a, init);
        assert forall|y: Seq<i64>| #[trigger] s.contains(y) <==> a.contains(y) && b.contains(y) by {
            if s.contains(y) {
                let u = choose|u: int| 0 <= u < s.len() && s[u] == y;
                if u < prev.len() {
                    assert(prev[u] == y);
                    assert(prev.contains(y));
                    let v = choose|v: int| 0 <= v < init.len() && init[v] == y;
                    assert(b[v] == y);
                } else {
                    assert(b[b.len() - 1] == y);
                }
            }
            if a.contains(y) && b.contains(y) {
                let v = choose|v: int| 0 <= v < b.len() && b[v] == y;
                if v < b.len() - 1 {
                    assert(init[v] == y);
                    assert(prev.contains(y));
                    let u = choose|u: int| 0 <= u < prev.len() && prev[u] == y;
                    assert(s[u] == y);
                } else {
                    assert(s[s.len() - 1] == y);
                }
            }
        }
    }
    assert(shared_rays(a, b).to_set() =~= a.to_set().intersect(b.to_set()));
}

/// A cone built, keeping every ray, from the rays that two lists of rays
/// share is spanned exactly by the primitive forms of the nonzero rays that
/// both lists hold.
pub proof fn law_intersection_spanned_by_shared_rays(
    a: Seq<Seq<i64>>,
    b: Seq<Seq<i64>>,
    c: RationalPolyhedralCone,
    x: Seq<i64>,
)
    requires
        c.built_from(shared_rays(a, b), Some(true), None, None),
    ensures
        c.gens().contains(x) <==> exists|y: Seq<i64>|
            a.contains(y) && b.contains(y) && !is_zero_ray(y) && #[trigger] primitive_form(y) == x,
{
    let common = shared_rays(a, b);
    let prims = primitive_rays(common);
    law_shared_rays_are_common(a, b);
    lemma_primitive_rays_contains(common, x);
    let p = choose|p: Seq<usize>| stable_sort_order(prims, p) && c.gens() == arranged(prims, p);
    if c.gens().contains(x) {
        let k = choose|k: int| 0 <= k < c.gens().len() && c.gens()[k] == x;
        assert(prims[p[k] as int] == x);
        assert(prims.contains(x));
        let i = choose|i: int| 0 <= i < common.len() && !is_zero_ray(common[i]) && #[trigger] primitive_form(common[i]) == x;
        assert(common.contains(common[i]));
    }
    if exists|y: Seq<i64>| a.contains(y) && b.contains(y) && !is_zero_ray(y) && #[trigger] primitive_form(y) == x {
        let y = choose|y: Seq<i64>| a.contains(y) && b.contains(y) && !is_zero_ray(y) && #[trigger] primitive_form(y) == x;
        assert(common.contains(y));
        let i = choose|i: int| 0 <= i < common.len() && common[i] == y;
        assert(primitive_form(common[i]) == x);
        assert(prims.contains(x));
        let t = choose|t: int| 0 <= t < prims.len() && prims[t] == x;
        assert(lists(p, t));
        let k = choose|k: int| 0 <= k < p.len() && p[k] == t;
        assert(c.gens()[k] == x);
    }
}

/// A primitive form is its own primitive form: dividing a nonzero integer
/// vector by the greatest common divisor of its entries leaves a nonzero
/// vector whose entries have no common divisor but 1.
pub proof fn law_primitive_form_is_primitive(v: Seq<i64>)
    requires
        !is_zero_ray(v),
    ensures
        !is_zero_ray(primitive_form(v)),
        gcd_upto(primitive_form(v), v.len() as int) == 1,
        primitive_form(primitive_form(v)) == primitive_form(v),
{
    let n = v.len() as int;
    let g = gcd_upto(v, n) as int;
    let w = primitive_form(v);
    lemma_gcd_upto_zero(v, n);
    assert(g > 0);
    lemma_gcd_upto_is_gcd(v, n, 1);
    // |w_i| * g == |v_i|
    assert forall|i: int| 0 <= i < n implies #[trigger] abs_int(w[i] as int) as int * g == abs_int(v[i] as int) as int
        && (w[i] == 0 <==> v[i] == 0) by {
        let m = abs_int(v[i] as int) as int;
        assert(divides(g, m));
        let x = choose|x: int| #[trigger] times(g, x) == m;
        assert(m / g == x && x >= 0 && x <= m) by (nonlinear_arith)
            requires
                m == g * x,
                g > 0,
                m >= 0,
        ;
        assert(m <= 9223372036854775808int);
        assert(abs_int(w[i] as int) as int == x);
        assert(x * g == m) by (nonlinear_arith)
            requires
                m == g * x,
        ;
        if x == 0 {
            assert(m == 0);
        }
        if v[i] == 0 {
            assert(x == 0) by (nonlinear_arith)
                requires
                    m == g * x,
                    g > 0,
                    m == 0,
            ;
        }
    }
    let k = choose|k: int| 0 <= k < n && v[k] != 0;
    assert(abs_int(w[k] as int) as int * g == abs_int(v[k] as int) as int);
    assert(w[k] != 0);
    // the content of w is 1
    let h = gcd_upto(w, n) as int;
    lemma_gcd_upto_is_gcd(w, n, 1);
    assert forall|i: int| 0 <= i < n implies divides(h * g, #[trigger] abs_int(v[i] as int) as int) by {
        assert(divides(h, abs_int(w[i] as int) as int));
        let y = choose|y: int| #[trigger] times(h, y) == abs_int(w[i] as int) as int;
        assert(abs_int(v[i] as int) as int == (h * g) * y) by (nonlinear_arith)
            requires
                abs_int(w[i] as int) as int * g == abs_int(v[i] as int) as int,
                h * y == abs_int(w[i] as int) as int,
        ;
        assert(times(h * g, y) == abs_int(v[i] as int) as int);
    }
    lemma_gcd_upto_is_gcd(v, n, h * g);
    assert(divides(h * g, g));
    let z = choose|z: int| #[trigger] times(h * g, z) == g;
    assert(h * z == 1) by (nonlinear_arith)
        requires
            (h * g) * z == g,
            g > 0,
    ;
    assert(h == 1) by (nonlinear_arith)
        requires
            h * z == 1,
            h >= 0,
    ;
    assert forall|i: int| 0 <= i < n implies #[trigger] primitive_form(w)[i] == w[i] by {
        assert(divided_entry(w[i], 1) == w[i] as int);
    }
    assert(primitive_form(w) =~= w);
}

/// The generators of a cone built from rays are nonzero primitive vectors.
pub proof fn law_cone_generators_primitive(
    c: RationalPolyhedralCone,
    rays: Seq<Seq<i64>>,
    no_redundant_parameterization: Option<bool>,
    known_spanning_dim: Option<usize>,
    known_facets: Option<Seq<Seq<usize>>>,
    x: Seq<i64>,
)
    requires
        c.built_from(rays, no_redundant_parameterization, known_spanning_dim, known_facets),
        c.gens().contains(x),
    ensures
        !is_zero_ray(x),
        primitive_form(x) == x,
{
    let prims = primitive_rays(rays);
    lemma_primitive_rays_contains(rays, x);
    if dedups(no_redundant_parameterization) {
        assert(c.gens().to_set().contains(x));
        assert(prims.to_set().contains(x));
    } else {
        let p = choose|p: Seq<usize>| stable_sort_order(prims, p) && c.gens() == arranged(prims, p);
        let k = choose|k: int| 0 <= k < c.gens().len() && c.gens()[k] == x;
        assert(prims[p[k] as int] == x);
    }
    assert(prims.contains(x));
    let i = choose|i: int| 0 <= i < rays.len() && !is_zero_ray(rays[i]) && #[trigger] primitive_form(rays[i]) == x;
    law_primitive_form_is_primitive(rays[i]);
}

/// The primitive rays are the primitive forms of the nonzero rays.
proof fn lemma_primitive_rays_contains(rays: Seq<Seq<i64>>, x: Seq<i64>)
    ensures
        primitive_rays(rays).contains(x) <==> exists|i: int|
            0 <= i < rays.len() && !is_zero_ray(rays[i]) && #[trigger] primitive_form(rays[i]) == x,
    decreases rays.len(),
{
    if rays.len() > 0 {
        let init = rays.drop_last();
        lemma_primitive_rays_contains(init, x);
        let prev = primitive_rays(init);
        if primitive_rays(rays).contains(x) {
            let u = choose|u: int| 0 <= u < primitive_rays(rays).len() && #[trigger] primitive_rays(rays)[u] == x;
            if u < prev.len() {
                assert(prev[u] == x);
                assert(prev.contains(x));
                let i = choose|i: int|
                    0 <= i < init.len() && !is_zero_ray(init[i]) && #[trigger] primitive_form(init[i]) == x;
                assert(rays[i] == init[i]);
            } else {
                assert(primitive_form(rays[rays.len() - 1]) == x);
            }
        }
        if exists|i: int| 0 <= i < rays.len() && !is_zero_ray(rays[i]) && #[trigger] primitive_form(rays[i]) == x {
            let i = choose|i: int| 0 <= i < rays.len() && !is_zero_ray(rays[i]) && #[trigger] primitive_form(rays[i]) == x;
            if i < rays.len() - 1 {
                assert(init[i] == rays[i]);
                assert(prev.contains(x));
                let u = choose|u: int| 0 <= u < prev.len() && #[trigger] prev[u] == x;
                assert(primitive_rays(rays)[u] == x);
            } else {
                assert(primitive_rays(rays).last() == x);
            }
        }
    }
}

/// Two strictly sorted sequences with the same entries are equal.
proof fn lemma_strictly_sorted_unique(s1: Seq<Seq<i64>>, s2: Seq<Seq<i64>>)
    requires
        lex_strictly_sorted(s1),
        lex_strictly_sorted(s2),
        forall|x: Seq<i64>| s1.contains(x) <==> s2.contains(x),
    ensures
        s1 == s2,
    decreases s1.len() + s2.len(),
{
    if s1.len() == 0 || s2.len() == 0 {
        if s1.len() > 0 {
            assert(s1.contains(s1[0]));
        }
        if s2.len() > 0 {
            assert(s2.contains(s2[0]));
        }
        assert(s1 =~= s2);
    } else {
        assert(s1.contains(s1[0]));
        let k = choose|k: int| 0 <= k < s2.len() && #[trigger] s2[k] == s1[0];
        assert(s2.contains(s2[0]));
        let m = choose|m: int| 0 <= m < s1.len() && #[trigger] s1[m] == s2[0];
        if k > 0 {
            if m > 0 {
                lemma_lex_trans(s2[0], s2[k], s1[m]);
            }
            lemma_lex_asym(s2[0], s2[0]);
        }
        assert(s1[0] == s2[0]);
        let t1 = s1.drop_first();
        let t2 = s2.drop_first();
        assert forall|x: Seq<i64>| t1.contains(x) <==> t2.contains(x) by {
            if t1.contains(x) {
                let u = choose|u: int| 0 <= u < t1.len() && #[trigger] t1[u] == x;
                assert(s1[u + 1] == x);
                assert(s1.contains(x));
                let v = choose|v: int| 0 <= v < s2.len() && #[trigger] s2[v] == x;
                if v == 0 {
                    lemma_lex_asym(s1[0], s1[u + 1]);
                    lemma_lex_asym(s1[0], s1[0]);
                } else {
                    assert(t2[v - 1] == x);
                }
            }
            if t2.contains(x) {
                let u = choose|u: int| 0 <= u < t2.len() && #[trigger] t2[u] == x;
                assert(s2[u + 1] == x);
                assert(s2.contains(x));
                let v = choose|v: int| 0 <= v < s1.len() && #[trigger] s1[v] == x;
                if v == 0 {
                    lemma_lex_asym(s2[0], s2[0]);
                } else {
                    assert(t1[v - 1] == x);
                }
            }
        }
        lemma_strictly_sorted_unique(t1, t2);
        assert(s1 =~= seq![s1[0]] + t1);
        assert(s2 =~= seq![s2[0]] + t2);
    }
}

/// Cones built, merging equal rays, from the same set of rays have the same
/// generators, whatever order or repetition the rays came in.
pub proof fn law_cone_generators_order_free(
    rays1: Seq<Seq<i64>>,
    rays2: Seq<Seq<i64>>,
    param1: Option<bool>,
    param2: Option<bool>,
    dim1: Option<usize>,
    dim2: Option<usize>,
    facets1: Option<Seq<Seq<usize>>>,
    facets2: Option<Seq<Seq<usize>>>,
    c1: RationalPolyhedralCone,
    c2: RationalPolyhedralCone,
)
    requires
        rays1.to_set() == rays2.to_set(),
        dedups(param1),
        dedups(param2),
        c1.built_from(rays1, param1, dim1, facets1),
        c2.built_from(rays2, param2, dim2, facets2),
    ensures
        c1.gens() == c2.gens(),
{
    let p1 = primitive_rays(rays1);
    let p2 = primitive_rays(rays2);
    assert forall|x: Seq<i64>| c1.gens().contains(x) <==> c2.gens().contains(x) by {
        assert(c1.gens().to_set().contains(x) == c1.gens().contains(x));
        assert(c2.gens().to_set().contains(x) == c2.gens().contains(x));
        assert(p1.to_set().contains(x) == p1.contains(x));
        assert(p2.to_set().contains(x) == p2.contains(x));
        lemma_primitive_rays_contains(rays1, x);
        lemma_primitive_rays_contains(rays2, x);
        if p1.contains(x) {
            let i = choose|i: int| 0 <= i < rays1.len() && !is_zero_ray(rays1[i]) && #[trigger] primitive_form(rays1[i]) == x;
            assert(rays1.to_set().contains(rays1[i]));
            assert(rays2.contains(rays1[i]));
            let j = choose|j: int| 0 <= j < rays2.len() && #[trigger] rays2[j] == rays1[i];
            assert(primitive_form(rays2[j]) == x);
        }
        if p2.contains(x) {
            let i = choose|i: int| 0 <= i < rays2.len() && !is_zero_ray(rays2[i]) && #[trigger] primitive_form(rays2[i]) == x;
            assert(rays2.to_set().contains(rays2[i]));
            assert(rays1.contains(rays2[i]));
            let j = choose|j: int| 0 <= j < rays1.len() && #[trigger] rays1[j] == rays2[i];
            assert(primitive_form(rays1[j]) == x);
        }
    }
    lemma_strictly_sorted_unique(c1.gens(), c2.gens());
}

} // verus!

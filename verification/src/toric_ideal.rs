//! Presentations of affine toric coordinate rings `k[x_1, ..., x_N] / I` by
//! binomial generators, and the operations on them: changing the
//! representation, embedding into more variables, merging and products, and
//! reducing monomials modulo the generators.
use crate::checked_arith::clone_exact;
use vstd::prelude::*;
use vstd::std_specs::cmp::PartialEqSpec;

verus! {

/// Errors returned by toric coordinate ring computations.
#[derive(PartialEq, Eq, Debug)]
pub enum CoordinateRingError {
    /// The fan has more than one cone and is not affine.
    NotAffine,
    /// The fan is affine but the global support cone could not be constructed.
    NotManifestlyAffine,
    /// The cone is not simplicial (has more rays than its dimension).
    NonSimplicialCone,
    /// The number of rays does not match the number of variables `N`.
    DimensionMismatch { expected: usize, actual: usize },
    /// An internal linear algebra step failed.
    LinearAlgebraFailure,
    /// The cone may not be minimally presented, so the ray count is unreliable.
    PossiblyNonMinimalCone,
}

/// A monomial in `N` variables, stored as its non-negative integer exponents.
#[derive(PartialEq, Eq)]
pub struct Monomial<const N: usize> {
    pub exponents: [u32; N],
}

impl<const N: usize> Clone for Monomial<N> {
    fn clone(&self) -> (r: Self)
        ensures
            r == *self,
    {
        Monomial { exponents: self.exponents }
    }
}

/// The exponents of `m` in `len` variables, its own variables starting at
/// slot `offset`: slot `offset + k` holds the exponent of variable `k`, every
/// other slot is zero.
pub open spec fn padded_exponents<const N: usize>(m: Monomial<N>, len: nat, offset: nat) -> Seq<u32> {
    Seq::new(len, |i: int| if offset <= i < offset + N { m.exponents@[i - offset] } else { 0u32 })
}

impl<const N: usize> Monomial<N> {
    /// The same monomial in `M` variables, its own variables moved to the
    /// slots from `offset` on, the other exponents zero.
    fn new_vars<const M: usize>(self, offset: usize) -> (r: Monomial<M>)
        ensures
            r.exponents@ == padded_exponents(self, M as nat, offset as nat),
    {
        let mut e: [u32; M] = [0u32; M];
        let mut i: usize = 0;
        while i < M
            invariant
                i <= M,
                e@.len() == M,
                self.exponents@.len() == N,
                forall|j: int| 0 <= j < i ==> #[trigger] e@[j] == padded_exponents(self, M as nat, offset as nat)[j],
            decreases M - i,
        {
            if offset <= i && i - offset < N {
                e[i] = self.exponents[i - offset];
            } else {
                e[i] = 0;
            }
            i = i + 1;
        }
        let r = Monomial { exponents: e };
        assert(r.exponents@ =~= padded_exponents(self, M as nat, offset as nat));
        r
    }
}

/// A binomial relation `positive - negative` of the toric ideal.
#[derive(PartialEq, Eq)]
pub struct Binomial<const N: usize> {
    pub positive: Monomial<N>,
    pub negative: Monomial<N>,
}

impl<const N: usize> Clone for Binomial<N> {
    fn clone(&self) -> (r: Self)
        ensures
            r == *self,
    {
        Binomial { positive: self.positive.clone(), negative: self.negative.clone() }
    }
}

/// The sum of a sequence of exponents.
pub open spec fn exponent_sum(s: Seq<u32>) -> int
    decreases s.len(),
{
    if s.len() == 0 {
        0
    } else {
        exponent_sum(s.drop_last()) + s.last()
    }
}

/// The total degree of each side of `b` fits in a `u32`.
pub open spec fn degrees_fit<const N: usize>(b: Binomial<N>) -> bool {
    &&& exponent_sum(b.positive.exponents@) <= u32::MAX
    &&& exponent_sum(b.negative.exponents@) <= u32::MAX
}

/// The side of lower total degree first (the positive side on a tie), then the other.
pub open spec fn spec_smaller_larger<const N: usize>(b: Binomial<N>) -> (Monomial<N>, Monomial<N>) {
    if exponent_sum(b.positive.exponents@) <= exponent_sum(b.negative.exponents@) {
        (b.positive, b.negative)
    } else {
        (b.negative, b.positive)
    }
}

/// The total degree of a monomial, where it fits in a `u32`.
fn total_degree<const N: usize>(m: &Monomial<N>) -> (r: u32)
    requires
        exponent_sum(m.exponents@) <= u32::MAX,
    ensures
        r == exponent_sum(m.exponents@),
{
    let mut total: u32 = 0;
    let mut i: usize = 0;
    while i < N
        invariant
            i <= N,
            m.exponents@.len() == N,
            exponent_sum(m.exponents@) <= u32::MAX,
            total == exponent_sum(m.exponents@.take(i as int)),
        decreases N - i,
    {
        proof {
            assert(m.exponents@.take(i + 1).drop_last() =~= m.exponents@.take(i as int));
            lemma_exponent_sum_prefix(m.exponents@, i + 1);
        }
        total = total + m.exponents[i];
        i = i + 1;
    }
    assert(m.exponents@.take(N as int) =~= m.exponents@);
    total
}

/// A prefix of a sequence of exponents has at most the whole sum.
proof fn lemma_exponent_sum_prefix(s: Seq<u32>, k: int)
    requires
        0 <= k <= s.len(),
    ensures
        exponent_sum(s.take(k)) <= exponent_sum(s),
    decreases s.len(),
{
    if k < s.len() {
        assert(s.drop_last().take(k) =~= s.take(k));
        lemma_exponent_sum_prefix(s.drop_last(), k);
    } else {
        assert(s.take(k) =~= s);
    }
}

impl<const N: usize> Binomial<N> {
    /// The same binomial in `M` variables.
    fn new_vars<const M: usize>(self, offset: usize) -> (r: Binomial<M>)
        ensures
            r.positive.exponents@ == padded_exponents(self.positive, M as nat, offset as nat),
            r.negative.exponents@ == padded_exponents(self.negative, M as nat, offset as nat),
    {
        Binomial { positive: self.positive.new_vars(offset), negative: self.negative.new_vars(offset) }
    }

    /// The side of lower total degree (the positive side on a tie) and the other side.
    fn smaller_larger(&self) -> (r: (&Monomial<N>, &Monomial<N>))
        requires
            degrees_fit(*self),
        ensures
            (*r.0, *r.1) == spec_smaller_larger(*self),
    {
        let lhs_sum = total_degree(&self.positive);
        let rhs_sum = total_degree(&self.negative);
        if lhs_sum <= rhs_sum {
            (&self.positive, &self.negative)
        } else {
            (&self.negative, &self.positive)
        }
    }
}


/// A representation of elements of the coordinate ring, used to evaluate
/// monomials. Implementors decide how a ring element is represented (for
/// example as an exponent vector).
pub trait CoordinateRingRepr: Clone + Eq + Sized {
    /// Whether `raise_power` and `multiply` give exactly `spec_raise_power`
    /// and `spec_multiply`.
    spec fn obeys_repr_spec() -> bool;

    /// The value of `self` raised to `power`.
    spec fn spec_raise_power(&self, power: u32) -> Self;

    /// The value of the product of `self` and `other`.
    spec fn spec_multiply(self, other: Self) -> Self;

    /// `self` raised to `power`.
    #[must_use]
    fn raise_power(&self, power: u32) -> (r: Self)
        ensures
            Self::obeys_repr_spec() ==> r == self.spec_raise_power(power),
    ;

    /// The product of `self` and `other`.
    #[must_use]
    fn multiply(self, other: Self) -> (r: Self)
        ensures
            Self::obeys_repr_spec() ==> r == self.spec_multiply(other),
    ;
}

/// For each generator `p+ - p-` of `gens`, whether `p+` and `p-` take the
/// same value under the variables `vars`.
pub open spec fn agreement<const N: usize, U: CoordinateRingRepr>(vars: Seq<U>, gens: Seq<Binomial<N>>) -> Seq<bool> {
    Seq::new(
        gens.len(),
        |i: int|
            evaluated(vars, gens[i].positive.exponents@, N as int).eq_spec(
                &evaluated(vars, gens[i].negative.exponents@, N as int),
            ),
    )
}

/// The value of a monomial with exponents `exps` under the variables `vars`,
/// over its first `n` variables (`n >= 1`): the product, from the left, of
/// each variable raised to its exponent.
pub open spec fn evaluated<U: CoordinateRingRepr>(vars: Seq<U>, exps: Seq<u32>, n: int) -> U
    decreases n,
{
    if n <= 1 {
        vars[0].spec_raise_power(exps[0])
    } else {
        evaluated(vars, exps, n - 1).spec_multiply(vars[n - 1].spec_raise_power(exps[n - 1]))
    }
}

/// The default representation of coordinate ring elements: an integer
/// exponent vector (a column of the ray matrix). Multiplying adds the
/// vectors and raising to a power scales them, with wrapping `i64`
/// arithmetic; vectors of different lengths are added over the shorter length.
#[derive(Clone, PartialEq, Eq, Debug)]
pub struct DefaultRepr {
    coords: Vec<i64>,
}

/// `x` scaled by `p`, entry by entry (wrapping).
pub open spec fn scaled_coords(x: Seq<i64>, p: u32) -> Seq<i64> {
    Seq::new(x.len(), |i: int| x[i].wrapping_mul(p as i64))
}

/// `x + y` entry by entry (wrapping), over the shorter length.
pub open spec fn summed_coords(x: Seq<i64>, y: Seq<i64>) -> Seq<i64> {
    Seq::new(if x.len() <= y.len() { x.len() } else { y.len() }, |i: int| x[i].wrapping_add(y[i]))
}

impl DefaultRepr {
    /// The exponent vector.
    pub closed spec fn coords(self) -> Seq<i64> {
        self.coords@
    }

    /// The representation with exponent vector `v`.
    pub fn from_vec(v: Vec<i64>) -> (r: Self)
        ensures
            r.coords() == v@,
    {
        DefaultRepr { coords: v }
    }
}

/// A value of `DefaultRepr` is known by its exponent vector alone, which spec
/// code cannot turn back into a value; so the representation does not claim
/// the value-level specs of the trait, and states its results by their
/// exponent vectors instead.
impl CoordinateRingRepr for DefaultRepr {
    open spec fn obeys_repr_spec() -> bool {
        false
    }

    open spec fn spec_raise_power(&self, power: u32) -> Self {
        *self
    }

    open spec fn spec_multiply(self, other: Self) -> Self {
        self
    }

    fn raise_power(&self, power: u32) -> (r: Self)
        ensures
            r.coords() == scaled_coords(self.coords(), power),
    {
        let mut out: Vec<i64> = Vec::new();
        let mut i: usize = 0;
        while i < self.coords.len()
            invariant
                i <= self.coords@.len(),
                out@ == scaled_coords(self.coords@, power).take(i as int),
            decreases self.coords@.len() - i,
        {
            out.push(self.coords[i].wrapping_mul(power as i64));
            assert(out@ =~= scaled_coords(self.coords@, power).take(i + 1));
            i = i + 1;
        }
        assert(out@ =~= scaled_coords(self.coords@, power));
        DefaultRepr { coords: out }
    }

    fn multiply(self, other: Self) -> (r: Self)
        ensures
            r.coords() == summed_coords(self.coords(), other.coords()),
    {
        let n = if self.coords.len() <= other.coords.len() { self.coords.len() } else { other.coords.len() };
        let mut out: Vec<i64> = Vec::new();
        let mut i: usize = 0;
        while i < n
            invariant
                n == summed_coords(self.coords@, other.coords@).len(),
                i <= n,
                out@ == summed_coords(self.coords@, other.coords@).take(i as int),
            decreases n - i,
        {
            out.push(self.coords[i].wrapping_add(other.coords[i]));
            assert(out@ =~= summed_coords(self.coords@, other.coords@).take(i + 1));
            i = i + 1;
        }
        assert(out@ =~= summed_coords(self.coords@, other.coords@));
        DefaultRepr { coords: out }
    }
}

/// `Vec::from` an array: a vector of its entries, in order.
#[verifier::external_body]
fn array_into_vec<T, const M: usize>(a: [T; M]) -> (r: Vec<T>)
    ensures
        r@ == a@,
{
    Vec::from(a)
}

/// `new` is `old` with every binomial written in `M` variables, its own
/// variables at the slots from `offset` on and zero exponents elsewhere.
pub open spec fn padded_gens<const N: usize, const M: usize>(old: Seq<Binomial<N>>, new: Seq<Binomial<M>>, offset: nat) -> bool {
    &&& new.len() == old.len()
    &&& forall|i: int|
        0 <= i < new.len() ==> (#[trigger] new[i]).positive.exponents@ == padded_exponents(
            old[i].positive,
            M as nat,
            offset,
        ) && new[i].negative.exponents@ == padded_exponents(old[i].negative, M as nat, offset)
}

/// Where the old variables of an embedding begin: at the start where the new
/// ones are appended, after the `more` new ones where they are prepended.
pub open spec fn old_vars_offset(after: bool, more: nat) -> nat {
    if after {
        0
    } else {
        more
    }
}

/// The value that variable `i` of an embedding takes: the old variables
/// `vars` followed by the new ones `new_us` where `after`, preceded by them
/// otherwise.
pub open spec fn extended_source<U>(vars: Seq<U>, new_us: Seq<U>, after: bool, i: int) -> U {
    if after {
        if i < vars.len() {
            vars[i]
        } else {
            new_us[i - vars.len()]
        }
    } else {
        if i < new_us.len() {
            new_us[i]
        } else {
            vars[i - new_us.len()]
        }
    }
}

/// A presentation of an affine toric coordinate ring `k[x_1, ..., x_N] / I`
/// by binomial generators.
///
/// `generators` are the binomial relations `p+ - p- = 0`, and the
/// representing variables give a concrete value in `Repr` for each of the
/// `N` generators of the coordinate ring.
pub struct CoordinateRingPresentation<const N: usize, Repr: CoordinateRingRepr> {
    pub generators: Vec<Binomial<N>>,
    representing_vars: Vec<Repr>,
}

/// The binomials of `gens` whose two sides do not agree (`agree[i]` false), in order.
pub open spec fn failures_of<const N: usize>(gens: Seq<Binomial<N>>, agree: Seq<bool>) -> Seq<Binomial<N>>
    decreases gens.len(),
{
    if gens.len() == 0 {
        Seq::empty()
    } else {
        failures_of(gens.drop_last(), agree.take(gens.len() - 1)) + if agree[gens.len() - 1] {
            Seq::empty()
        } else {
            seq![gens.last()]
        }
    }
}

/// `Ok(())` where every binomial of `generators` agrees (`agree[i]`), else
/// `Err` of the binomials that do not, in order.
pub fn collect_failures<const N: usize>(generators: &[Binomial<N>], agree: &[bool]) -> (r: Result<
    (),
    Vec<Binomial<N>>,
>)
    requires
        agree@.len() == generators@.len(),
    ensures
        r is Ok <==> failures_of(generators@, agree@).len() == 0,
        r matches Err(f) ==> f@ == failures_of(generators@, agree@),
{
    let mut failures: Vec<Binomial<N>> = Vec::new();
    let mut i: usize = 0;
    assert(generators@.take(0) =~= Seq::<Binomial<N>>::empty());
    while i < generators.len()
        invariant
            agree@.len() == generators@.len(),
            i <= generators@.len(),
            failures@ == failures_of(generators@.take(i as int), agree@.take(i as int)),
        decreases generators@.len() - i,
    {
        proof {
            let g = generators@.take(i + 1);
            assert(g.drop_last() =~= generators@.take(i as int));
            assert(agree@.take(i + 1).take(i as int) =~= agree@.take(i as int));
            assert(g.last() == generators@[i as int]);
            assert(agree@.take(i + 1)[i as int] == agree@[i as int]);
        }
        if !agree[i] {
            failures.push(generators[i].clone());
        }
        proof {
            assert(failures@ =~= failures_of(generators@.take(i + 1), agree@.take(i + 1)));
        }
        i = i + 1;
    }
    assert(generators@.take(i as int) =~= generators@);
    assert(agree@.take(i as int) =~= agree@);
    if failures.len() == 0 {
        Ok(())
    } else {
        Err(failures)
    }
}

/// `raise_power(0)` gives a unit for `multiply`, on either side.
pub open spec fn zeroth_power_is_unit<U: CoordinateRingRepr>() -> bool {
    forall|x: U, y: U|
        #![trigger x.spec_multiply(y.spec_raise_power(0))]
        #![trigger y.spec_raise_power(0).spec_multiply(x)]
        x.spec_multiply(y.spec_raise_power(0)) == x && y.spec_raise_power(0).spec_multiply(x) == x
}

/// The two sides of the binomial `b` take different values under `vars`.
pub open spec fn sides_differ<const N: usize, U: CoordinateRingRepr>(vars: Seq<U>, b: Binomial<N>) -> bool {
    !evaluated(vars, b.positive.exponents@, N as int).eq_spec(&evaluated(vars, b.negative.exponents@, N as int))
}

/// Checking a presentation reports exactly the generators, each of them
/// considered and in their order, whose two sides evaluate to different
/// values under the representing variables; it reports none exactly when
/// every generator's sides agree.
pub proof fn law_check_reports_failing_generators<const N: usize, U: CoordinateRingRepr>(
    vars: Seq<U>,
    gens: Seq<Binomial<N>>,
)
    ensures
        failures_of(gens, agreement(vars, gens)) == gens.filter(|b: Binomial<N>| sides_differ(vars, b)),
        failures_of(gens, agreement(vars, gens)).len() == 0 <==> forall|i: int|
            0 <= i < gens.len() ==> !sides_differ(vars, #[trigger] gens[i]),
    decreases gens.len(),
{
    reveal(Seq::filter);
    lemma_no_failures(gens, agreement(vars, gens));
    if gens.len() > 0 {
        let init = gens.drop_last();
        law_check_reports_failing_generators(vars, init);
        assert(agreement(vars, init) =~= agreement(vars, gens).take(gens.len() - 1));
        assert(agreement(vars, gens)[gens.len() - 1] == !sides_differ(vars, gens.last()));
        assert forall|i: int| 0 <= i < gens.len() implies (agreement(vars, gens)[i] == !sides_differ(
            vars,
            #[trigger] gens[i],
        )) by {}
    }
}

/// Every generator's two sides take the same value under `vars`.
pub open spec fn presentation_checks<const N: usize, U: CoordinateRingRepr>(vars: Seq<U>, gens: Seq<Binomial<N>>) -> bool {
    failures_of(gens, agreement(vars, gens)).len() == 0
}

/// No failure is listed exactly when every binomial agrees.
proof fn lemma_no_failures<const N: usize>(gens: Seq<Binomial<N>>, agree: Seq<bool>)
    requires
        agree.len() >= gens.len(),
    ensures
        failures_of(gens, agree).len() == 0 <==> forall|i: int| 0 <= i < gens.len() ==> #[trigger] agree[i],
    decreases gens.len(),
{
    if gens.len() > 0 {
        let n = gens.len() - 1;
        lemma_no_failures(gens.drop_last(), agree.take(n));
        assert forall|i: int| 0 <= i < n implies #[trigger] agree.take(n)[i] == agree[i] by {}
        if forall|i: int| 0 <= i < gens.len() ==> #[trigger] agree[i] {
            assert(agree[n]);
            assert forall|i: int| 0 <= i < n implies #[trigger] agree.take(n)[i] by {
                assert(agree[i]);
            }
        }
        if failures_of(gens, agree).len() == 0 {
            assert(agree[n]);
            assert forall|i: int| 0 <= i < gens.len() implies #[trigger] agree[i] by {
                if i < n {
                    assert(agree.take(n)[i]);
                }
            }
        }
    }
}

/// Where `new` holds the variables `old` from slot `off` on and `pe` the
/// exponents `e` moved there (zeros before), the first `n` variables of
/// `new`, `n <= off`, evaluate to a unit.
proof fn lemma_eval_leading<U: CoordinateRingRepr>(new: Seq<U>, pe: Seq<u32>, off: int, n: int)
    requires
        zeroth_power_is_unit::<U>(),
        1 <= n <= off,
        forall|k: int| 0 <= k < off ==> #[trigger] pe[k] == 0,
    ensures
        evaluated(new, pe, n) == new[0].spec_raise_power(0),
    decreases n,
{
    if n > 1 {
        lemma_eval_leading(new, pe, off, n - 1);
        let x = evaluated(new, pe, n - 1);
        assert(pe[n - 1] == 0);
        assert(x.spec_multiply(new[n - 1].spec_raise_power(0)) == x);
    }
}

/// Past the leading units, evaluating the moved exponents under `new` is
/// evaluating `e` under `old`.
proof fn lemma_eval_shifted<U: CoordinateRingRepr>(
    old: Seq<U>,
    e: Seq<u32>,
    new: Seq<U>,
    pe: Seq<u32>,
    off: int,
    n: int,
)
    requires
        zeroth_power_is_unit::<U>(),
        0 <= off,
        off + 1 <= n <= off + e.len(),
        forall|k: int| 0 <= k < off ==> #[trigger] pe[k] == 0,
        forall|k: int| off <= k < off + e.len() ==> #[trigger] pe[k] == e[k - off] && new[k] == old[k - off],
    ensures
        evaluated(new, pe, n) == evaluated(old, e, n - off),
    decreases n,
{
    if n == off + 1 {
        assert(pe[off] == e[0] && new[off] == old[0]);
        if off >= 1 {
            lemma_eval_leading(new, pe, off, off);
            let y = new[0];
            let x = old[0].spec_raise_power(e[0]);
            assert(y.spec_raise_power(0).spec_multiply(x) == x);
        }
    } else {
        lemma_eval_shifted(old, e, new, pe, off, n - 1);
        assert(pe[n - 1] == e[n - 1 - off] && new[n - 1] == old[n - 1 - off]);
    }
}

/// Zero exponents after slot `m` change nothing: the value over the first `n`
/// variables is the value over the first `m`.
proof fn lemma_eval_trailing<U: CoordinateRingRepr>(new: Seq<U>, pe: Seq<u32>, m: int, n: int)
    requires
        zeroth_power_is_unit::<U>(),
        1 <= m <= n,
        forall|k: int| m <= k < n ==> #[trigger] pe[k] == 0,
    ensures
        evaluated(new, pe, n) == evaluated(new, pe, m),
    decreases n,
{
    if n > m {
        lemma_eval_trailing(new, pe, m, n - 1);
        let x = evaluated(new, pe, n - 1);
        assert(pe[n - 1] == 0);
        assert(x.spec_multiply(new[n - 1].spec_raise_power(0)) == x);
    }
}

/// Embedding a presentation into more variables (`extend_irrelevant`, the new
/// variables after the old ones or before them) keeps, generator by
/// generator, whether its two sides take the same value, provided the zeroth
/// power of every value is a unit for `multiply`: a presentation that checks
/// still checks, and one that does not still does not.
pub proof fn law_extend_irrelevant_keeps_check<const N: usize, const NPM: usize, U: CoordinateRingRepr>(
    p: CoordinateRingPresentation<N, U>,
    new_us: Seq<U>,
    after: bool,
    r: CoordinateRingPresentation<NPM, U>,
)
    requires
        N >= 1,
        NPM == N + new_us.len(),
        p.vars().len() == N,
        zeroth_power_is_unit::<U>(),
        clone_exact::<U>(),
        padded_gens(p.gens(), r.gens(), old_vars_offset(after, new_us.len())),
        r.vars().len() == NPM,
        forall|i: int| 0 <= i < NPM ==> cloned(extended_source(p.vars(), new_us, after, i), #[trigger] r.vars()[i]),
    ensures
        agreement(r.vars(), r.gens()) == agreement(p.vars(), p.gens()),
        presentation_checks(r.vars(), r.gens()) <==> presentation_checks(p.vars(), p.gens()),
{
    let off = old_vars_offset(after, new_us.len()) as int;
    let old = p.vars();
    let new = r.vars();
    assert forall|k: int| off <= k < off + N implies #[trigger] new[k] == old[k - off] by {
        assert(cloned(extended_source(old, new_us, after, k), new[k]));
    }
    assert forall|i: int| 0 <= i < r.gens().len() implies #[trigger] agreement(new, r.gens())[i] == agreement(
        old,
        p.gens(),
    )[i] by {
        let b = p.gens()[i];
        let nb = r.gens()[i];
        let pp = nb.positive.exponents@;
        let pn = nb.negative.exponents@;
        assert(pp == padded_exponents(b.positive, NPM as nat, off as nat));
        assert(pn == padded_exponents(b.negative, NPM as nat, off as nat));
        assert forall|k: int| off <= k < off + N implies #[trigger] pp[k] == b.positive.exponents@[k - off] && new[k]
            == old[k - off] by {}
        assert forall|k: int| off <= k < off + N implies #[trigger] pn[k] == b.negative.exponents@[k - off] && new[k]
            == old[k - off] by {}
        assert forall|k: int| 0 <= k < off implies #[trigger] pp[k] == 0 by {}
        assert forall|k: int| 0 <= k < off implies #[trigger] pn[k] == 0 by {}
        assert forall|k: int| off + N <= k < NPM implies #[trigger] pp[k] == 0 by {}
        lemma_eval_shifted(old, b.positive.exponents@, new, pp, off, off + N);
        lemma_eval_trailing(new, pp, off + N, NPM as int);
        assert forall|k: int| off + N <= k < NPM implies #[trigger] pn[k] == 0 by {}
        lemma_eval_shifted(old, b.negative.exponents@, new, pn, off, off + N);
        lemma_eval_trailing(new, pn, off + N, NPM as int);
    }
    assert(agreement(new, r.gens()) =~= agreement(old, p.gens()));
    lemma_no_failures(r.gens(), agreement(new, r.gens()));
    lemma_no_failures(p.gens(), agreement(old, p.gens()));
}

impl<const N: usize, U: CoordinateRingRepr> CoordinateRingPresentation<N, U> {
    /// A presentation from its generators and the values of its variables.
    pub fn new(generators: Vec<Binomial<N>>, representing_vars: [U; N]) -> (r: Self)
        ensures
            r.gens() == generators@,
            r.vars() == representing_vars@,
    {
        CoordinateRingPresentation { generators, representing_vars: array_into_vec(representing_vars) }
    }

    /// The values of the `N` variables.
    pub closed spec fn vars(self) -> Seq<U> {
        self.representing_vars@
    }

    /// The binomial generators.
    pub closed spec fn gens(self) -> Seq<Binomial<N>> {
        self.generators@
    }

    /// There are `N` representing variables.
    #[verifier::type_invariant]
    spec fn has_n_vars(self) -> bool {
        self.representing_vars@.len() == N
    }

    /// Convert the representation type by applying `converter` to each of the
    /// `N` representing variables.
    pub fn conversion<T: CoordinateRingRepr, F: Fn(U) -> T>(self, converter: F) -> (r:
        CoordinateRingPresentation<N, T>)
        requires
            forall|u: U| #[trigger] converter.requires((u,)),
        ensures
            r.gens() == self.gens(),
            r.vars().len() == N,
            forall|i: int| 0 <= i < N ==> converter.ensures((self.vars()[i],), #[trigger] r.vars()[i]),
    {
        proof {
            use_type_invariant(&self);
        }
        let ghost v0 = self.vars();
        let CoordinateRingPresentation { generators, representing_vars: mut v } = self;
        let mut rev: Vec<T> = Vec::new();
        while v.len() > 0
            invariant
                forall|u: U| #[trigger] converter.requires((u,)),
                v0.len() == N,
                v@ == v0.take(v@.len() as int),
                rev@.len() + v@.len() == N,
                forall|k: int| 0 <= k < rev@.len() ==> converter.ensures((v0[N - 1 - k],), #[trigger] rev@[k]),
            decreases v@.len(),
        {
            let ghost before = v@;
            let u = v.pop().unwrap();
            assert(u == v0[before.len() - 1]);
            assert(v@ =~= v0.take(v@.len() as int));
            rev.push(converter(u));
        }
        let mut out: Vec<T> = Vec::new();
        while rev.len() > 0
            invariant
                v0.len() == N,
                rev@.len() + out@.len() == N,
                forall|k: int| 0 <= k < rev@.len() ==> converter.ensures((v0[N - 1 - k],), #[trigger] rev@[k]),
                forall|k: int| 0 <= k < out@.len() ==> converter.ensures((v0[k],), #[trigger] out@[k]),
            decreases rev@.len(),
        {
            let ghost before = rev@;
            let t = rev.pop().unwrap();
            assert(t == before[before.len() - 1]);
            out.push(t);
        }
        CoordinateRingPresentation { generators, representing_vars: out }
    }

    /// A copy of the value that variable `idx` takes when the variables of
    /// `self` are embedded among `new_us`.
    fn extended_var(&self, new_us: &[U], after_or_before: bool, idx: usize) -> (r: U)
        requires
            idx < N + new_us@.len(),
            self.vars().len() == N,
        ensures
            cloned(extended_source(self.vars(), new_us@, after_or_before, idx as int), r),
    {
        if after_or_before {
            if idx < N {
                self.representing_vars[idx].clone()
            } else {
                new_us[idx - N].clone()
            }
        } else {
            if idx < new_us.len() {
                new_us[idx].clone()
            } else {
                self.representing_vars[idx - new_us.len()].clone()
            }
        }
    }

    /// Embed this presentation into a ring with `MORE` additional variables
    /// `new_us`, appended after the existing `N` variables where
    /// `after_or_before`, prepended before them otherwise. All binomial
    /// generators are extended to `N_PLUS_MORE` variables: each keeps its
    /// exponents on its own variables (moved up by `MORE` slots where the new
    /// variables come first) and has zero exponents in the new ones.
    /// `N_PLUS_MORE` is at most `N + MORE`.
    pub fn extend_irrelevant<const MORE: usize, const N_PLUS_MORE: usize>(
        self,
        new_us: &[U; MORE],
        after_or_before: bool,
    ) -> (r: CoordinateRingPresentation<N_PLUS_MORE, U>)
        requires
            N_PLUS_MORE <= N + MORE,
        ensures
            padded_gens(self.gens(), r.gens(), old_vars_offset(after_or_before, MORE as nat)),
            r.vars().len() == N_PLUS_MORE,
            forall|i: int|
                0 <= i < N_PLUS_MORE ==> cloned(
                    extended_source(self.vars(), new_us@, after_or_before, i),
                    #[trigger] r.vars()[i],
                ),
    {
        self.extend_with(new_us.as_slice(), after_or_before)
    }

    /// `extend_irrelevant` with the new variables given as a slice.
    fn extend_with<const N_PLUS_MORE: usize>(self, new_us: &[U], after_or_before: bool) -> (r:
        CoordinateRingPresentation<N_PLUS_MORE, U>)
        requires
            N_PLUS_MORE <= N + new_us@.len(),
        ensures
            padded_gens(self.gens(), r.gens(), old_vars_offset(after_or_before, new_us@.len())),
            r.vars().len() == N_PLUS_MORE,
            forall|i: int|
                0 <= i < N_PLUS_MORE ==> cloned(
                    extended_source(self.vars(), new_us@, after_or_before, i),
                    #[trigger] r.vars()[i],
                ),
    {
        proof {
            use_type_invariant(&self);
        }
        let mut vars: Vec<U> = Vec::new();
        let mut k: usize = 0;
        while k < N_PLUS_MORE
            invariant
                N_PLUS_MORE <= N + new_us@.len(),
                self.vars().len() == N,
                k <= N_PLUS_MORE,
                vars@.len() == k,
                forall|j: int|
                    0 <= j < k ==> cloned(
                        extended_source(self.vars(), new_us@, after_or_before, j),
                        #[trigger] vars@[j],
                    ),
            decreases N_PLUS_MORE - k,
        {
            let u = self.extended_var(new_us, after_or_before, k);
            vars.push(u);
            k = k + 1;
        }
        let offset: usize = if after_or_before { 0 } else { new_us.len() };
        let mut generators: Vec<Binomial<N_PLUS_MORE>> = Vec::new();
        let mut i: usize = 0;
        while i < self.generators.len()
            invariant
                i <= self.gens().len(),
                offset == old_vars_offset(after_or_before, new_us@.len()),
                padded_gens(self.gens().take(i as int), generators@, offset as nat),
            decreases self.gens().len() - i,
        {
            let b = self.generators[i].clone();
            let nb = b.new_vars(offset);
            generators.push(nb);
            proof {
                assert forall|k: int| 0 <= k < i + 1 implies self.gens().take(i + 1)[k] == self.gens()[k] by {}
                assert forall|k: int| 0 <= k < i implies self.gens().take(i as int)[k] == self.gens()[k] by {}
            }
            i = i + 1;
        }
        assert(self.gens().take(i as int) =~= self.gens());
        CoordinateRingPresentation { generators, representing_vars: vars }
    }

    /// The representing variables of `self` and `other` agree one by one.
    fn same_vars(&self, other: &Self) -> (r: bool)
        ensures
            U::obeys_eq_spec() ==> (r <==> forall|i: int|
                0 <= i < N ==> #[trigger] self.vars()[i].eq_spec(&other.vars()[i])),
    {
        proof {
            use_type_invariant(self);
            use_type_invariant(other);
        }
        let mut i: usize = 0;
        while i < N
            invariant
                i <= N,
                self.vars().len() == N,
                other.vars().len() == N,
                U::obeys_eq_spec() ==> forall|j: int|
                    0 <= j < i ==> #[trigger] self.vars()[j].eq_spec(&other.vars()[j]),
            decreases N - i,
        {
            if !self.representing_vars[i].eq(&other.representing_vars[i]) {
                return false;
            }
            i = i + 1;
        }
        true
    }

    /// Merge two presentations by taking the union of their binomial
    /// generators (those of `self`, then those of `other`). Where `check`, the
    /// two presentations must have equal representing variables; otherwise the
    /// inputs are returned unchanged as `Err((self, other))`.
    pub fn combine(self, other: Self, check: bool) -> (r: Result<Self, (Self, Self)>)
        ensures
            !check ==> r is Ok,
            check && U::obeys_eq_spec() ==> (r is Ok <==> forall|i: int|
                0 <= i < N ==> #[trigger] self.vars()[i].eq_spec(&other.vars()[i])),
            r matches Ok(c) ==> c.gens() == self.gens() + other.gens() && c.vars() == self.vars(),
            r matches Err(p) ==> p.0 == self && p.1 == other,
    {
        if check && !self.same_vars(&other) {
            return Err((self, other));
        }
        proof {
            use_type_invariant(&self);
        }
        let CoordinateRingPresentation { generators: mut gens, representing_vars } = self;
        let CoordinateRingPresentation { generators: mut more, representing_vars: _ } = other;
        gens.append(&mut more);
        Ok(CoordinateRingPresentation { generators: gens, representing_vars })
    }
}


/// Some variable of `b` equals one of `a`.
pub open spec fn vars_overlap<U: PartialEq>(a: Seq<U>, b: Seq<U>) -> bool {
    exists|i: int, j: int| 0 <= i < a.len() && 0 <= j < b.len() && #[trigger] b[j].eq_spec(&a[i])
}

impl<const N: usize, U: CoordinateRingRepr> CoordinateRingPresentation<N, U> {
    /// Whether some representing variable of `self` equals one of `other`.
    fn shares_var<const MORE: usize>(&self, other: &CoordinateRingPresentation<MORE, U>) -> (r: bool)
        ensures
            U::obeys_eq_spec() ==> r == vars_overlap(self.vars(), other.vars()),
    {
        proof {
            use_type_invariant(self);
            use_type_invariant(other);
        }
        let mut i: usize = 0;
        while i < N
            invariant
                i <= N,
                self.vars().len() == N,
                other.vars().len() == MORE,
                U::obeys_eq_spec() ==> forall|a: int, b: int|
                    0 <= a < i && 0 <= b < MORE ==> !#[trigger] other.vars()[b].eq_spec(&self.vars()[a]),
            decreases N - i,
        {
            let mut j: usize = 0;
            while j < MORE
                invariant
                    i < N,
                    j <= MORE,
                    self.vars().len() == N,
                    other.vars().len() == MORE,
                    U::obeys_eq_spec() ==> forall|b: int|
                        0 <= b < j ==> !#[trigger] other.vars()[b].eq_spec(&self.vars()[i as int]),
                decreases MORE - j,
            {
                if other.representing_vars[j].eq(&self.representing_vars[i]) {
                    proof {
                        if U::obeys_eq_spec() {
                            assert(other.vars()[j as int].eq_spec(&self.vars()[i as int]));
                        }
                    }
                    return true;
                }
                j = j + 1;
            }
            i = i + 1;
        }
        false
    }

    /// A copy of the representing variables.
    fn copy_vars(&self) -> (r: Vec<U>)
        ensures
            r@.len() == self.vars().len(),
            forall|i: int| 0 <= i < r@.len() ==> cloned(self.vars()[i], #[trigger] r@[i]),
    {
        let mut out: Vec<U> = Vec::new();
        out.extend_from_slice(self.representing_vars.as_slice());
        out
    }

    /// The product of two coordinate ring presentations: `self` is embedded
    /// into `N + MORE` variables with `other`'s variables appended, `other`
    /// with `self`'s prepended (its exponents moved up by `N` slots), and the
    /// generator lists are merged.
    /// `N_PLUS_MORE` is `N + MORE`. Where the two lists of representing
    /// variables share an element, the inputs are returned as `Err((self, other))`.
    pub fn product<const MORE: usize, const N_PLUS_MORE: usize>(
        self,
        other: CoordinateRingPresentation<MORE, U>,
    ) -> (r: Result<CoordinateRingPresentation<N_PLUS_MORE, U>, (Self, CoordinateRingPresentation<MORE, U>)>)
        requires
            N_PLUS_MORE == N + MORE,
        ensures
            U::obeys_eq_spec() ==> (r is Err <==> vars_overlap(self.vars(), other.vars())),
            r matches Err(p) ==> p.0 == self && p.1 == other,
            r matches Ok(c) ==> c.gens().len() == self.gens().len() + other.gens().len()
                && padded_gens(self.gens(), c.gens().take(self.gens().len() as int), 0)
                && padded_gens(other.gens(), c.gens().skip(self.gens().len() as int), N as nat),
            r matches Ok(c) ==> c.vars().len() == N_PLUS_MORE && (forall|i: int|
                0 <= i < N_PLUS_MORE ==> cloned(
                    extended_source(self.vars(), other.vars(), true, i),
                    #[trigger] c.vars()[i],
                )),
    {
        proof {
            use_type_invariant(&self);
            use_type_invariant(&other);
        }
        if self.shares_var(&other) {
            return Err((self, other));
        }
        let self_vars = self.copy_vars();
        let ghost sv = self.vars();
        let ghost ov = other.vars();
        let ghost sg = self.gens();
        let ghost og = other.gens();
        let after_self: CoordinateRingPresentation<N_PLUS_MORE, U> = self.extend_with(
            other.representing_vars.as_slice(),
            true,
        );
        let after_other: CoordinateRingPresentation<N_PLUS_MORE, U> = other.extend_with(
            self_vars.as_slice(),
            false,
        );
        let combined = after_self.combine(after_other, false);
        match combined {
            Ok(c) => {
                proof {
                    assert(c.gens().take(sg.len() as int) =~= after_self.gens());
                    assert(c.gens().skip(sg.len() as int) =~= after_other.gens());
                }
                Ok(c)
            },
            Err(_) => {
                assert(false);
                Err((CoordinateRingPresentation { generators: Vec::new(), representing_vars: Vec::new() }, CoordinateRingPresentation { generators: Vec::new(), representing_vars: Vec::new() }))
            },
        }
    }
}


/// Every exponent of `l` is at most the matching one of `m`: `l` divides `m`.
pub open spec fn divides_exps(l: Seq<u32>, m: Seq<u32>) -> bool {
    &&& l.len() == m.len()
    &&& forall|i: int| 0 <= i < l.len() ==> #[trigger] l[i] <= m[i]
}

/// Replacing the factor `l` of `m` by `s` stays within `u32` exponents.
pub open spec fn substitution_fits(m: Seq<u32>, l: Seq<u32>, s: Seq<u32>) -> bool {
    forall|i: int| 0 <= i < m.len() ==> #[trigger] m[i] - l[i] + s[i] <= u32::MAX
}

/// `m` with its factor `l` replaced by `s`: `m / l * s`.
pub open spec fn substitute(m: Seq<u32>, l: Seq<u32>, s: Seq<u32>) -> Seq<u32> {
    Seq::new(m.len(), |i: int| (m[i] - l[i] + s[i]) as u32)
}

/// One pass of the reduction of `m` over the first `k` generators, each in
/// turn replacing its larger side by its smaller side where the larger side
/// divides the current monomial: the monomial after the pass, whether some
/// generator applied, and whether every replacement stayed within `u32`.
pub open spec fn reduction_pass<const N: usize>(gens: Seq<Binomial<N>>, m: Seq<u32>, k: nat) -> (
    Seq<u32>,
    bool,
    bool,
)
    decreases k,
{
    if k == 0 {
        (m, false, true)
    } else {
        let prev = reduction_pass(gens, m, (k - 1) as nat);
        let sl = spec_smaller_larger(gens[k - 1]);
        if divides_exps(sl.1.exponents@, prev.0) {
            (
                substitute(prev.0, sl.1.exponents@, sl.0.exponents@),
                true,
                prev.2 && substitution_fits(prev.0, sl.1.exponents@, sl.0.exponents@),
            )
        } else {
            prev
        }
    }
}

/// The reduction of `m` by repeated passes until a pass changes nothing,
/// where that happens within `fuel` passes and every replacement stays
/// within `u32`; `None` otherwise.
pub open spec fn reduce_within<const N: usize>(gens: Seq<Binomial<N>>, m: Seq<u32>, fuel: nat) -> Option<
    Seq<u32>,
>
    decreases fuel,
{
    if fuel == 0 {
        None
    } else {
        let p = reduction_pass(gens, m, gens.len());
        if !p.2 {
            None
        } else if !p.1 {
            Some(m)
        } else {
            reduce_within(gens, p.0, (fuel - 1) as nat)
        }
    }
}

/// The reduction of `m` by the generators comes to an end.
pub open spec fn reduction_ends<const N: usize>(gens: Seq<Binomial<N>>, m: Seq<u32>) -> bool {
    exists|fuel: nat| #[trigger] reduce_within(gens, m, fuel) is Some
}

/// The fully reduced form of `m` (meaningful where `reduction_ends`).
pub open spec fn reduced<const N: usize>(gens: Seq<Binomial<N>>, m: Seq<u32>) -> Seq<u32> {
    reduce_within(gens, m, choose|fuel: nat| #[trigger] reduce_within(gens, m, fuel) is Some).unwrap()
}

/// A pass whose replacements all fit had every earlier replacement fit.
proof fn lemma_pass_prefix_fits<const N: usize>(gens: Seq<Binomial<N>>, m: Seq<u32>, j: nat, k: nat)
    requires
        j <= k,
        reduction_pass(gens, m, k).2,
    ensures
        reduction_pass(gens, m, j).2,
    decreases k,
{
    if j < k {
        lemma_pass_prefix_fits(gens, m, j, (k - 1) as nat);
    }
}

/// A pass in which no generator applied leaves the monomial as it was.
proof fn lemma_pass_unchanged<const N: usize>(gens: Seq<Binomial<N>>, m: Seq<u32>, k: nat)
    ensures
        !reduction_pass(gens, m, k).1 ==> reduction_pass(gens, m, k).0 == m,
    decreases k,
{
    if k > 0 {
        lemma_pass_unchanged(gens, m, (k - 1) as nat);
    }
}

impl<const N: usize> Monomial<N> {
    /// `l` divides `self`.
    fn divisible_by(&self, l: &Monomial<N>) -> (r: bool)
        ensures
            r == divides_exps(l.exponents@, self.exponents@),
    {
        let mut i: usize = 0;
        while i < N
            invariant
                i <= N,
                l.exponents@.len() == N,
                self.exponents@.len() == N,
                forall|j: int| 0 <= j < i ==> #[trigger] l.exponents@[j] <= self.exponents@[j],
            decreases N - i,
        {
            if l.exponents[i] > self.exponents[i] {
                return false;
            }
            i = i + 1;
        }
        true
    }

    /// Replace the factor `l` of `self` by `s`.
    fn substitute(&mut self, l: &Monomial<N>, s: &Monomial<N>)
        requires
            divides_exps(l.exponents@, old(self).exponents@),
            substitution_fits(old(self).exponents@, l.exponents@, s.exponents@),
        ensures
            final(self).exponents@ == substitute(old(self).exponents@, l.exponents@, s.exponents@),
    {
        let ghost e0 = self.exponents@;
        let mut i: usize = 0;
        while i < N
            invariant
                i <= N,
                e0.len() == N,
                l.exponents@.len() == N,
                s.exponents@.len() == N,
                self.exponents@.len() == N,
                divides_exps(l.exponents@, e0),
                substitution_fits(e0, l.exponents@, s.exponents@),
                forall|j: int| 0 <= j < i ==> #[trigger] self.exponents@[j] == substitute(e0, l.exponents@, s.exponents@)[j],
                forall|j: int| i <= j < N ==> #[trigger] self.exponents@[j] == e0[j],
            decreases N - i,
        {
            let x = self.exponents[i];
            assert(l.exponents@[i as int] <= e0[i as int]);
            assert(e0[i as int] - l.exponents@[i as int] + s.exponents@[i as int] <= u32::MAX);
            self.exponents[i] = x - l.exponents[i] + s.exponents[i];
            i = i + 1;
        }
        assert(self.exponents@ =~= substitute(e0, l.exponents@, s.exponents@));
    }
}

impl<const N: usize, U: CoordinateRingRepr> CoordinateRingPresentation<N, U> {
    /// One reduction pass of `m` over all generators, in order; whether some
    /// generator applied.
    fn reduction_pass_exec(&self, m: &mut Monomial<N>) -> (changed: bool)
        requires
            forall|k: int| 0 <= k < self.gens().len() ==> degrees_fit(#[trigger] self.gens()[k]),
            reduction_pass(self.gens(), old(m).exponents@, self.gens().len()).2,
        ensures
            final(m).exponents@ == reduction_pass(self.gens(), old(m).exponents@, self.gens().len()).0,
            changed == reduction_pass(self.gens(), old(m).exponents@, self.gens().len()).1,
    {
        let ghost m0 = m.exponents@;
        let ghost g = self.gens();
        let mut changed = false;
        let mut j: usize = 0;
        while j < self.generators.len()
            invariant
                g == self.gens(),
                forall|k: int| 0 <= k < g.len() ==> degrees_fit(#[trigger] g[k]),
                reduction_pass(g, m0, g.len()).2,
                j <= g.len(),
                m.exponents@ == reduction_pass(g, m0, j as nat).0,
                changed == reduction_pass(g, m0, j as nat).1,
            decreases g.len() - j,
        {
            let b = &self.generators[j];
            assert(degrees_fit(g[j as int]));
            let (smaller, larger) = b.smaller_larger();
            proof {
                lemma_pass_prefix_fits(g, m0, (j + 1) as nat, g.len());
            }
            if m.divisible_by(larger) {
                m.substitute(larger, smaller);
                changed = true;
            }
            j = j + 1;
        }
        changed
    }

    /// The fully reduced form of `m`.
    fn reduce_monomial(&self, m: &mut Monomial<N>)
        requires
            forall|k: int| 0 <= k < self.gens().len() ==> degrees_fit(#[trigger] self.gens()[k]),
            reduction_ends(self.gens(), old(m).exponents@),
        ensures
            final(m).exponents@ == reduced(self.gens(), old(m).exponents@),
    {
        let ghost g = self.gens();
        let ghost fuel0 = choose|fuel: nat| #[trigger] reduce_within(g, m.exponents@, fuel) is Some;
        let ghost result = reduced(g, m.exponents@);
        let ghost mut fuel: nat = fuel0;
        let mut changed = true;
        while changed
            invariant
                g == self.gens(),
                forall|k: int| 0 <= k < g.len() ==> degrees_fit(#[trigger] g[k]),
                changed ==> reduce_within(g, m.exponents@, fuel) == Some(result),
                !changed ==> m.exponents@ == result,
            decreases fuel + if changed {
                1int
            } else {
                0int
            },
        {
            let ghost before = m.exponents@;
            assert(reduction_pass(g, before, g.len()).2);
            changed = self.reduction_pass_exec(m);
            proof {
                if changed {
                    fuel = (fuel - 1) as nat;
                } else {
                    lemma_pass_unchanged(g, before, g.len());
                }
            }
        }
    }
}


impl<const N: usize, U: CoordinateRingRepr> CoordinateRingPresentation<N, U> {
    /// The value of the monomial `m` under the representing variables: the
    /// product, from the left, of each variable raised to its exponent.
    fn evaluate(&self, m: &Monomial<N>) -> (r: U)
        requires
            N >= 1,
        ensures
            U::obeys_repr_spec() ==> r == evaluated(self.vars(), m.exponents@, N as int),
    {
        proof {
            use_type_invariant(self);
        }
        let mut acc = self.representing_vars[0].raise_power(m.exponents[0]);
        let mut i: usize = 1;
        while i < N
            invariant
                1 <= i <= N,
                self.vars().len() == N,
                m.exponents@.len() == N,
                U::obeys_repr_spec() ==> acc == evaluated(self.vars(), m.exponents@, i as int),
            decreases N - i,
        {
            let next = self.representing_vars[i].raise_power(m.exponents[i]);
            acc = acc.multiply(next);
            i = i + 1;
        }
        acc
    }

    /// Verify that every binomial generator evaluates to zero under the
    /// representation: for each generator `p+ - p-`, the value of `p+` (each
    /// representing variable raised to its exponent, multiplied together)
    /// equals that of `p-`. `Err` lists every generator that fails, in order.
    pub fn check(&self) -> (r: Result<(), Vec<Binomial<N>>>)
        requires
            N >= 1 || self.gens().len() == 0,
        ensures
            exists|agree: Seq<bool>|
                #![trigger failures_of(self.gens(), agree)]
                agree.len() == self.gens().len() && (r is Ok <==> failures_of(self.gens(), agree).len() == 0)
                    && (r matches Err(f) ==> f@ == failures_of(self.gens(), agree)),
            U::obeys_repr_spec() && U::obeys_eq_spec() ==> (r is Ok <==> failures_of(
                self.gens(),
                agreement(self.vars(), self.gens()),
            ).len() == 0) && (r matches Err(f) ==> f@ == failures_of(self.gens(), agreement(self.vars(), self.gens()))),
            U::obeys_repr_spec() && U::obeys_eq_spec() ==> (r is Ok <==> forall|i: int|
                0 <= i < self.gens().len() ==> !sides_differ(self.vars(), #[trigger] self.gens()[i])),
            U::obeys_repr_spec() && U::obeys_eq_spec() ==> (r matches Err(f) ==> f@ == self.gens().filter(
                |b: Binomial<N>| sides_differ(self.vars(), b),
            )),
    {
        let mut agree: Vec<bool> = Vec::new();
        let mut i: usize = 0;
        while i < self.generators.len()
            invariant
                N >= 1 || self.gens().len() == 0,
                i <= self.gens().len(),
                agree@.len() == i,
                U::obeys_repr_spec() && U::obeys_eq_spec() ==> forall|k: int|
                    0 <= k < i ==> #[trigger] agree@[k] == agreement(self.vars(), self.gens())[k],
            decreases self.gens().len() - i,
        {
            let b = &self.generators[i];
            let lhs = self.evaluate(&b.positive);
            let rhs = self.evaluate(&b.negative);
            agree.push(lhs == rhs);
            i = i + 1;
        }
        let r = collect_failures(self.generators.as_slice(), agree.as_slice());
        assert(agree@.len() == self.gens().len());
        proof {
            if U::obeys_repr_spec() && U::obeys_eq_spec() {
                assert(agree@ =~= agreement(self.vars(), self.gens()));
            }
            law_check_reports_failing_generators(self.vars(), self.gens());
        }
        r
    }

    /// Reduce each monomial of `linear_combination` modulo the binomial
    /// generators: repeatedly replace the larger side of a generator (the one
    /// of higher total degree, the negative side on a tie) by its smaller side
    /// wherever the larger side divides the monomial, until no generator
    /// applies. Coefficients are left unchanged.
    pub fn reduce_function_helper<Scalar>(&self, linear_combination: Vec<(Scalar, Monomial<N>)>) -> (r: Vec<
        (Scalar, Monomial<N>),
    >)
        requires
            forall|k: int| 0 <= k < self.gens().len() ==> degrees_fit(#[trigger] self.gens()[k]),
            forall|k: int|
                0 <= k < linear_combination@.len() ==> reduction_ends(
                    self.gens(),
                    (#[trigger] linear_combination@[k]).1.exponents@,
                ),
        ensures
            r@.len() == linear_combination@.len(),
            forall|k: int|
                0 <= k < r@.len() ==> (#[trigger] r@[k]).0 == linear_combination@[k].0 && r@[k].1.exponents@
                    == reduced(self.gens(), linear_combination@[k].1.exponents@),
    {
        let ghost lc = linear_combination@;
        let ghost n = lc.len();
        let mut v = linear_combination;
        let mut rev: Vec<(Scalar, Monomial<N>)> = Vec::new();
        while v.len() > 0
            invariant
                forall|k: int| 0 <= k < self.gens().len() ==> degrees_fit(#[trigger] self.gens()[k]),
                forall|k: int| 0 <= k < n ==> reduction_ends(self.gens(), (#[trigger] lc[k]).1.exponents@),
                n == lc.len(),
                v@ == lc.take(v@.len() as int),
                rev@.len() + v@.len() == n,
                forall|k: int|
                    0 <= k < rev@.len() ==> (#[trigger] rev@[k]).0 == lc[n - 1 - k].0 && rev@[k].1.exponents@
                        == reduced(self.gens(), lc[n - 1 - k].1.exponents@),
            decreases v@.len(),
        {
            let ghost before = v@;
            let (c, mut m) = v.pop().unwrap();
            assert((c, m) == lc[before.len() - 1]);
            assert(v@ =~= lc.take(v@.len() as int));
            self.reduce_monomial(&mut m);
            rev.push((c, m));
        }
        let mut out: Vec<(Scalar, Monomial<N>)> = Vec::new();
        while rev.len() > 0
            invariant
                n == lc.len(),
                rev@.len() + out@.len() == n,
                forall|k: int|
                    0 <= k < rev@.len() ==> (#[trigger] rev@[k]).0 == lc[n - 1 - k].0 && rev@[k].1.exponents@
                        == reduced(self.gens(), lc[n - 1 - k].1.exponents@),
                forall|k: int|
                    0 <= k < out@.len() ==> (#[trigger] out@[k]).0 == lc[k].0 && out@[k].1.exponents@ == reduced(
                        self.gens(),
                        lc[k].1.exponents@,
                    ),
            decreases rev@.len(),
        {
            let ghost before = rev@;
            let t = rev.pop().unwrap();
            assert(t == before[before.len() - 1]);
            out.push(t);
        }
        out
    }

    /// Reduce a linear combination of monomials modulo the ideal (as
    /// `reduce_function_helper`) and evaluate each reduced monomial under the
    /// representing variables. Each coefficient stays with its monomial, in order.
    pub fn reduce_function<Scalar>(&self, linear_combination: Vec<(Scalar, Monomial<N>)>) -> (r: Vec<
        (Scalar, U),
    >)
        requires
            N >= 1 || linear_combination@.len() == 0,
            forall|k: int| 0 <= k < self.gens().len() ==> degrees_fit(#[trigger] self.gens()[k]),
            forall|k: int|
                0 <= k < linear_combination@.len() ==> reduction_ends(
                    self.gens(),
                    (#[trigger] linear_combination@[k]).1.exponents@,
                ),
        ensures
            r@.len() == linear_combination@.len(),
            forall|k: int| 0 <= k < r@.len() ==> (#[trigger] r@[k]).0 == linear_combination@[k].0,
            U::obeys_repr_spec() ==> forall|k: int|
                0 <= k < r@.len() ==> (#[trigger] r@[k]).1 == evaluated(
                    self.vars(),
                    reduced(self.gens(), linear_combination@[k].1.exponents@),
                    N as int,
                ),
    {
        let ghost lc = linear_combination@;
        let reduced_lc = self.reduce_function_helper(linear_combination);
        let ghost n = lc.len();
        let mut v = reduced_lc;
        let mut rev: Vec<(Scalar, U)> = Vec::new();
        while v.len() > 0
            invariant
                N >= 1 || n == 0,
                n == lc.len(),
                v@.len() <= n,
                forall|k: int| 0 <= k < v@.len() ==> (#[trigger] v@[k]).0 == lc[k].0,
                forall|k: int| 0 <= k < v@.len() ==> (#[trigger] v@[k]).1.exponents@ == reduced(self.gens(), lc[k].1.exponents@),
                rev@.len() + v@.len() == n,
                forall|k: int| 0 <= k < rev@.len() ==> (#[trigger] rev@[k]).0 == lc[n - 1 - k].0,
                U::obeys_repr_spec() ==> forall|k: int|
                    0 <= k < rev@.len() ==> (#[trigger] rev@[k]).1 == evaluated(
                        self.vars(),
                        reduced(self.gens(), lc[n - 1 - k].1.exponents@),
                        N as int,
                    ),
            decreases v@.len(),
        {
            let ghost before = v@;
            let (c, m) = v.pop().unwrap();
            assert(c == lc[before.len() - 1].0);
            let value = self.evaluate(&m);
            rev.push((c, value));
        }
        let mut out: Vec<(Scalar, U)> = Vec::new();
        while rev.len() > 0
            invariant
                n == lc.len(),
                rev@.len() + out@.len() == n,
                forall|k: int| 0 <= k < rev@.len() ==> (#[trigger] rev@[k]).0 == lc[n - 1 - k].0,
                forall|k: int| 0 <= k < out@.len() ==> (#[trigger] out@[k]).0 == lc[k].0,
                U::obeys_repr_spec() ==> forall|k: int|
                    0 <= k < rev@.len() ==> (#[trigger] rev@[k]).1 == evaluated(
                        self.vars(),
                        reduced(self.gens(), lc[n - 1 - k].1.exponents@),
                        N as int,
                    ),
                U::obeys_repr_spec() ==> forall|k: int|
                    0 <= k < out@.len() ==> (#[trigger] out@[k]).1 == evaluated(
                        self.vars(),
                        reduced(self.gens(), lc[k].1.exponents@),
                        N as int,
                    ),
            decreases rev@.len(),
        {
            let ghost before = rev@;
            let t = rev.pop().unwrap();
            assert(t == before[before.len() - 1]);
            out.push(t);
        }
        out
    }
}


/// The absolute value of `x`.
pub open spec fn abs_int(x: int) -> nat {
    if x < 0 {
        (-x) as nat
    } else {
        x as nat
    }
}

/// The greatest common divisor of `a` and `b` (Euclid's algorithm; `gcd(a, 0) = a`).
pub open spec fn spec_gcd(a: nat, b: nat) -> nat
    decreases b,
{
    if b == 0 {
        a
    } else {
        spec_gcd(b, a % b)
    }
}

/// The greatest common divisor of the absolute values of `k[0..n]` (0 for none).
pub open spec fn gcd_upto(k: Seq<i64>, n: int) -> nat
    decreases n,
{
    if n <= 0 {
        0
    } else {
        spec_gcd(gcd_upto(k, n - 1), abs_int(k[n - 1] as int))
    }
}

/// The absolute value of `k[i]` divided by the common divisor of `k`, where that exceeds 1.
pub open spec fn reduced_magnitude(k: Seq<i64>, i: int) -> nat {
    let g = gcd_upto(k, k.len() as int);
    if g > 1 {
        abs_int(k[i] as int) / g
    } else {
        abs_int(k[i] as int)
    }
}

/// The exponents of the two sides of the binomial of the integer vector `k`:
/// its positive entries and the negated negative ones, after dividing by
/// their common divisor (each cut to a `u32`).
pub open spec fn kernel_sides(k: Seq<i64>, n: nat) -> (Seq<u32>, Seq<u32>) {
    (
        Seq::new(n, |i: int| if k[i] > 0 { reduced_magnitude(k, i) as u32 } else { 0u32 }),
        Seq::new(n, |i: int| if k[i] < 0 { reduced_magnitude(k, i) as u32 } else { 0u32 }),
    )
}

/// The product `d * x`.
pub open spec fn times(d: int, x: int) -> int {
    d * x
}

/// `d` divides `a`.
pub open spec fn divides(d: int, a: int) -> bool {
    exists|x: int| #[trigger] times(d, x) == a
}

/// The greatest common divisor divides both of its arguments.
proof fn lemma_gcd_divides(a: nat, b: nat)
    ensures
        divides(spec_gcd(a, b) as int, a as int),
        divides(spec_gcd(a, b) as int, b as int),
    decreases b,
{
    if b == 0 {
        assert(times(a as int, 1) == a as int);
        assert(times(a as int, 0) == 0);
    } else {
        let d = spec_gcd(a, b) as int;
        lemma_gcd_divides(b, a % b);
        let x = choose|x: int| #[trigger] times(d, x) == b as int;
        let y = choose|y: int| #[trigger] times(d, y) == (a % b) as int;
        let q = (a / b) as int;
        assert(a as int == b as int * q + (a % b) as int) by (nonlinear_arith)
            requires
                b > 0,
                q == (a / b) as int,
        ;
        assert(a as int == d * (x * q + y)) by (nonlinear_arith)
            requires
                a as int == b as int * q + (a % b) as int,
                b as int == d * x,
                (a % b) as int == d * y,
        ;
        assert(times(d, x * q + y) == a as int);
    }
}

/// Every common divisor of the arguments divides their greatest common divisor.
proof fn lemma_common_divisor_divides_gcd(a: nat, b: nat, c: int)
    requires
        divides(c, a as int),
        divides(c, b as int),
    ensures
        divides(c, spec_gcd(a, b) as int),
    decreases b,
{
    if b > 0 {
        let x = choose|x: int| #[trigger] times(c, x) == a as int;
        let y = choose|y: int| #[trigger] times(c, y) == b as int;
        let q = (a / b) as int;
        assert(a as int == b as int * q + (a % b) as int) by (nonlinear_arith)
            requires
                b > 0,
                q == (a / b) as int,
        ;
        assert((a % b) as int == c * (x - y * q)) by (nonlinear_arith)
            requires
                a as int == b as int * q + (a % b) as int,
                a as int == c * x,
                b as int == c * y,
        ;
        assert(times(c, x - y * q) == (a % b) as int);
        lemma_common_divisor_divides_gcd(b, a % b, c);
    }
}

/// The common divisor of the first `n` entries divides each of them, and
/// every common divisor of them divides it.
pub(crate) proof fn lemma_gcd_upto_is_gcd(k: Seq<i64>, n: int, c: int)
    requires
        0 <= n <= k.len(),
    ensures
        forall|i: int| 0 <= i < n ==> divides(gcd_upto(k, n) as int, #[trigger] abs_int(k[i] as int) as int),
        (forall|i: int| 0 <= i < n ==> divides(c, #[trigger] abs_int(k[i] as int) as int)) ==> divides(
            c,
            gcd_upto(k, n) as int,
        ),
    decreases n,
{
    if n > 0 {
        lemma_gcd_upto_is_gcd(k, n - 1, c);
        let prev = gcd_upto(k, n - 1);
        let last = abs_int(k[n - 1] as int);
        let g = gcd_upto(k, n) as int;
        lemma_gcd_divides(prev, last);
        let y = choose|y: int| #[trigger] times(g, y) == prev as int;
        assert forall|i: int| 0 <= i < n implies divides(g, #[trigger] abs_int(k[i] as int) as int) by {
            if i < n - 1 {
                let x = choose|x: int| #[trigger] times(prev as int, x) == abs_int(k[i] as int) as int;
                assert(abs_int(k[i] as int) as int == g * (y * x)) by (nonlinear_arith)
                    requires
                        abs_int(k[i] as int) as int == prev as int * x,
                        prev as int == g * y,
                ;
                assert(times(g, y * x) == abs_int(k[i] as int) as int);
            }
        }
        if forall|i: int| 0 <= i < n ==> divides(c, #[trigger] abs_int(k[i] as int) as int) {
            assert(divides(c, last as int));
            lemma_common_divisor_divides_gcd(prev, last, c);
        }
    } else {
        assert(times(c, 0) == 0);
    }
}

/// The content of `k`: the greatest common divisor of the absolute values of
/// all its entries, taken as 1 for the zero vector.
pub open spec fn content(k: Seq<i64>) -> int {
    if gcd_upto(k, k.len() as int) == 0 {
        1
    } else {
        gcd_upto(k, k.len() as int) as int
    }
}

/// The binomial of a kernel vector `k` is `k` divided by its content: for
/// every coordinate, the positive exponent minus the negative one, times the
/// greatest common divisor of all the entries of `k`, is that entry of `k`
/// (where the quotients fit in a `u32`). That divisor divides every entry,
/// and every common divisor of all the entries divides it.
pub proof fn law_kernel_sides_are_reduced_vector(k: Seq<i64>, n: nat, c: int)
    requires
        k.len() == n,
        forall|i: int| 0 <= i < n ==> #[trigger] (abs_int(k[i] as int) as int) / content(k) <= u32::MAX,
    ensures
        forall|i: int|
            0 <= i < n ==> (kernel_sides(k, n).0[i] as int - kernel_sides(k, n).1[i] as int) * gcd_upto(k, n as int)
                == #[trigger] k[i],
        forall|i: int| 0 <= i < n ==> divides(gcd_upto(k, n as int) as int, #[trigger] abs_int(k[i] as int) as int),
        (forall|i: int| 0 <= i < n ==> divides(c, #[trigger] abs_int(k[i] as int) as int)) ==> divides(
            c,
            gcd_upto(k, n as int) as int,
        ),
{
    lemma_gcd_upto_is_gcd(k, n as int, c);
    let g = gcd_upto(k, n as int) as int;
    assert forall|i: int| 0 <= i < n implies (kernel_sides(k, n).0[i] as int - kernel_sides(k, n).1[i] as int) * g
        == #[trigger] k[i] by {
        let m = abs_int(k[i] as int) as int;
        assert(divides(g, m));
        let x = choose|x: int| #[trigger] times(g, x) == m;
        let sides = kernel_sides(k, n);
        if g == 0 {
            assert(m == 0) by (nonlinear_arith)
                requires
                    m == g * x,
                    g == 0,
            ;
            assert(k[i] == 0);
            assert(sides.0[i] == 0u32 && sides.1[i] == 0u32);
            assert((sides.0[i] as int - sides.1[i] as int) * g == 0);
        } else {
            assert(m / g == x) by (nonlinear_arith)
                requires
                    m == g * x,
                    g > 0,
            ;
            assert(x >= 0) by (nonlinear_arith)
                requires
                    m == g * x,
                    g > 0,
                    m >= 0,
            ;
            assert(content(k) == g);
            assert(m / content(k) <= u32::MAX);
            if g == 1 {
                assert(m == x) by (nonlinear_arith)
                    requires
                        m == g * x,
                        g == 1,
                ;
            }
            assert(reduced_magnitude(k, i) == x);
            assert(x <= u32::MAX);
            assert((x as u32) as int == x);
            assert(m == x * g) by (nonlinear_arith)
                requires
                    m == g * x,
            ;
            let p = sides.0[i] as int;
            let q = sides.1[i] as int;
            if k[i] > 0 {
                assert(p == x && q == 0);
                assert(m == k[i]);
                assert((p - q) * g == k[i]) by (nonlinear_arith)
                    requires
                        p == x,
                        q == 0,
                        m == x * g,
                        m == k[i],
                ;
            } else if k[i] < 0 {
                assert(q == x && p == 0);
                assert(m == -k[i]);
                assert((p - q) * g == k[i]) by (nonlinear_arith)
                    requires
                        q == x,
                        p == 0,
                        m == x * g,
                        m == -k[i],
                ;
            } else {
                assert(p == 0 && q == 0);
                assert((p - q) * g == 0) by (nonlinear_arith)
                    requires
                        p == 0,
                        q == 0,
                ;
            }
        }
    }
}

/// The binomials of the first `n` vectors of `kernel`, skipping those whose
/// positive side is trivial.
pub open spec fn kernel_binomials<const N: usize>(kernel: Seq<[i64; N]>, n: int) -> Seq<(Seq<u32>, Seq<u32>)>
    decreases n,
{
    if n <= 0 {
        Seq::empty()
    } else {
        let prev = kernel_binomials(kernel, n - 1);
        let s = kernel_sides(kernel[n - 1]@, N as nat);
        if exists|i: int| 0 <= i < N && s.0[i] != 0 {
            prev.push(s)
        } else {
            prev
        }
    }
}

/// `k` has a positive entry.
pub open spec fn has_positive_entry(k: Seq<i64>) -> bool {
    exists|i: int| 0 <= i < k.len() && k[i] > 0
}

/// The binomials of kernel vectors are the reduced vectors of those with a
/// positive entry, in order (where the quotients fit in a `u32`): a vector
/// with no positive entry gives no binomial, and each other vector gives the
/// exponents of its positive and negative parts after division by its
/// content.
pub proof fn law_kernel_binomials_of_vectors_with_positive_entries<const N: usize>(kernel: Seq<[i64; N]>, n: int)
    requires
        0 <= n <= kernel.len(),
        forall|j: int, i: int|
            0 <= j < n && 0 <= i < N ==> #[trigger] (abs_int(kernel[j]@[i] as int) as int) / content(kernel[j]@)
                <= u32::MAX,
    ensures
        kernel_binomials(kernel, n) == kernel.take(n).filter(|k: [i64; N]| has_positive_entry(k@)).map_values(
            |k: [i64; N]| kernel_sides(k@, N as nat),
        ),
    decreases n,
{
    reveal(Seq::filter);
    if n > 0 {
        law_kernel_binomials_of_vectors_with_positive_entries(kernel, n - 1);
        let t = kernel.take(n);
        assert(t.drop_last() =~= kernel.take(n - 1));
        assert(t.last() == kernel[n - 1]);
        let k = kernel[n - 1]@;
        assert(k.len() == N);
        assert forall|i: int| 0 <= i < N implies #[trigger] (abs_int(k[i] as int) as int) / content(k) <= u32::MAX by {
            assert((abs_int(kernel[n - 1]@[i] as int) as int) / content(kernel[n - 1]@) <= u32::MAX);
        }
        law_kernel_sides_are_reduced_vector(k, N as nat, 1);
        let s = kernel_sides(k, N as nat);
        if has_positive_entry(k) {
            let i = choose|i: int| 0 <= i < k.len() && k[i] > 0;
            assert((s.0[i] as int - s.1[i] as int) * gcd_upto(k, N as int) == k[i]);
            assert(s.1[i] == 0u32);
            if s.0[i] == 0u32 {
                let gg = gcd_upto(k, N as int) as int;
                assert((s.0[i] as int - s.1[i] as int) * gg == 0) by (nonlinear_arith)
                    requires
                        s.0[i] as int == 0,
                        s.1[i] as int == 0,
                ;
            }
            assert(exists|u: int| 0 <= u < N && s.0[u] != 0);
        } else {
            assert forall|u: int| 0 <= u < N implies s.0[u] == 0u32 by {
                assert(!(k[u] > 0));
            }
        }
        let f = |k: [i64; N]| has_positive_entry(k@);
        let g = |k: [i64; N]| kernel_sides(k@, N as nat);
        assert(t.filter(f) == if f(t.last()) {
            t.drop_last().filter(f).push(t.last())
        } else {
            t.drop_last().filter(f)
        });
        if f(t.last()) {
            assert(t.filter(f).map_values(g) =~= t.drop_last().filter(f).map_values(g).push(g(t.last())));
        } else {
            assert(t.filter(f).map_values(g) =~= t.drop_last().filter(f).map_values(g));
        }
    } else {
        assert(kernel.take(0).filter(|k: [i64; N]| has_positive_entry(k@)) =~= Seq::<[i64; N]>::empty());
    }
}

/// Binomials as their two exponent sequences.
pub open spec fn binomials_view<const N: usize>(bs: Seq<Binomial<N>>) -> Seq<(Seq<u32>, Seq<u32>)> {
    bs.map_values(|b: Binomial<N>| (b.positive.exponents@, b.negative.exponents@))
}

/// The greatest common divisor of `a` and `b`.
pub(crate) fn gcd_u64(a: u64, b: u64) -> (r: u64)
    ensures
        r == spec_gcd(a as nat, b as nat),
{
    let mut x = a;
    let mut y = b;
    while y != 0
        invariant
            spec_gcd(x as nat, y as nat) == spec_gcd(a as nat, b as nat),
        decreases y,
    {
        let t = x % y;
        x = y;
        y = t;
    }
    x
}

/// The absolute value of `x`.
pub(crate) fn magnitude(x: i64) -> (r: u64)
    ensures
        r == abs_int(x as int),
{
    if x >= 0 {
        x as u64
    } else if x == i64::MIN {
        9223372036854775808u64
    } else {
        (-x) as u64
    }
}

/// The binomials `x^pos - x^neg` of the integer vectors `kernel` (for
/// instance a basis of the kernel of a lattice map): each vector divided by
/// the common divisor of its entries, its positive entries giving `pos` and
/// its negative ones `neg`; vectors with no positive entry give none.
pub fn kernel_to_binomials<const N: usize>(kernel: Vec<[i64; N]>) -> (r: Vec<Binomial<N>>)
    ensures
        binomials_view(r@) == kernel_binomials(kernel@, kernel@.len() as int),
        (forall|j: int, i: int|
            0 <= j < kernel@.len() && 0 <= i < N ==> #[trigger] (abs_int(kernel@[j]@[i] as int) as int) / content(
                kernel@[j]@,
            ) <= u32::MAX) ==> binomials_view(r@) == kernel@.filter(|k: [i64; N]| has_positive_entry(k@)).map_values(
            |k: [i64; N]| kernel_sides(k@, N as nat),
        ),
{
    let mut out: Vec<Binomial<N>> = Vec::new();
    let mut idx: usize = 0;
    while idx < kernel.len()
        invariant
            idx <= kernel@.len(),
            binomials_view(out@) == kernel_binomials(kernel@, idx as int),
        decreases kernel@.len() - idx,
    {
        let k: &[i64; N] = &kernel[idx];
        let ghost kv = k@;
        let mut g: u64 = 0;
        let mut i: usize = 0;
        while i < N
            invariant
                kv == k@,
                kv.len() == N,
                i <= N,
                g == gcd_upto(kv, i as int),
            decreases N - i,
        {
            let m = magnitude(k[i]);
            g = gcd_u64(g, m);
            i = i + 1;
        }
        assert(g == gcd_upto(kv, kv.len() as int));
        let ghost sides = kernel_sides(kv, N as nat);
        let mut pos: [u32; N] = [0u32; N];
        let mut neg: [u32; N] = [0u32; N];
        let mut j: usize = 0;
        while j < N
            invariant
                kv == k@,
                kv.len() == N,
                g == gcd_upto(kv, kv.len() as int),
                sides == kernel_sides(kv, N as nat),
                j <= N,
                pos@.len() == N,
                neg@.len() == N,
                forall|t: int| 0 <= t < j ==> #[trigger] pos@[t] == sides.0[t],
                forall|t: int| 0 <= t < j ==> #[trigger] neg@[t] == sides.1[t],
                forall|t: int| j <= t < N ==> #[trigger] pos@[t] == 0u32,
                forall|t: int| j <= t < N ==> #[trigger] neg@[t] == 0u32,
            decreases N - j,
        {
            let mag = magnitude(k[j]);
            let m: u64 = if g > 1 {
                mag / g
            } else {
                mag
            };
            assert(m == reduced_magnitude(kv, j as int));
            let ghost p0 = pos@;
            let ghost n0 = neg@;
            let cut = m as u32;
            assert(cut == reduced_magnitude(kv, j as int) as u32);
            if k[j] > 0 {
                pos[j] = cut;
                assert(pos@ == p0.update(j as int, cut));
                assert(neg@ == n0);
                assert(sides.0[j as int] == cut && sides.1[j as int] == 0u32);
            } else if k[j] < 0 {
                neg[j] = cut;
                assert(neg@ == n0.update(j as int, cut));
                assert(pos@ == p0);
                assert(sides.1[j as int] == cut && sides.0[j as int] == 0u32);
            } else {
                assert(sides.0[j as int] == 0u32 && sides.1[j as int] == 0u32);
            }
            j = j + 1;
        }
        assert(pos@ =~= sides.0);
        assert(neg@ =~= sides.1);
        let mut nonzero = false;
        let mut t: usize = 0;
        while t < N
            invariant
                pos@ == sides.0,
                pos@.len() == N,
                t <= N,
                nonzero <==> exists|u: int| 0 <= u < t && sides.0[u] != 0,
            decreases N - t,
        {
            if pos[t] != 0 {
                nonzero = true;
            }
            t = t + 1;
        }
        let ghost before = out@;
        if nonzero {
            out.push(Binomial { positive: Monomial { exponents: pos }, negative: Monomial { exponents: neg } });
            assert(binomials_view(out@) =~= binomials_view(before).push(sides));
        }
        idx = idx + 1;
    }
    proof {
        if forall|j: int, i: int|
            0 <= j < kernel@.len() && 0 <= i < N ==> #[trigger] (abs_int(kernel@[j]@[i] as int) as int) / content(
                kernel@[j]@,
            ) <= u32::MAX {
            law_kernel_binomials_of_vectors_with_positive_entries(kernel@, kernel@.len() as int);
            assert(kernel@.take(kernel@.len() as int) =~= kernel@);
        }
    }
    out
}

} // verus!

use std::ops::{Add, Mul, Neg, Sub};
use vstd::prelude::*;
use vstd::std_specs::cmp::PartialEqSpec;
use vstd::std_specs::ops::{AddSpec, MulSpec, NegSpec, SubSpec};

verus! {

/// Multiplication that may be refused (for instance for matrices of mismatched shapes).
pub trait CheckedMul: Sized {
    type MultiplicationError;

    /// Whether `self * rhs` is refused with an error.
    spec fn spec_mul_refused(&self, rhs: &Self) -> bool;

    /// The condition under which the multiplication may be attempted at all.
    spec fn spec_mul_allowed(&self, rhs: &Self) -> bool;

    fn will_error(&self, rhs: &Self) -> (r: bool)
        ensures
            r == self.spec_mul_refused(rhs),
    ;

    /// Multiply, reporting an error where the operands cannot be multiplied.
    fn checked_mul(self, rhs: Self) -> (r: Result<Self, Self::MultiplicationError>)
        requires
            self.spec_mul_allowed(&rhs),
        ensures
            r is Err <==> self.spec_mul_refused(&rhs),
    ;
}

impl<T> CheckedMul for T where T: Mul<T, Output = T> {
    type MultiplicationError = ();

    open spec fn spec_mul_refused(&self, rhs: &Self) -> bool {
        false
    }

    open spec fn spec_mul_allowed(&self, rhs: &Self) -> bool {
        self.mul_req(*rhs)
    }

    fn will_error(&self, _rhs: &Self) -> (r: bool) {
        false
    }

    fn checked_mul(self, rhs: Self) -> (r: Result<Self, Self::MultiplicationError>)
        ensures
            r matches Ok(v) && (T::obeys_mul_spec() ==> v == self.mul_spec(rhs)),
    {
        Ok(self * rhs)
    }
}

/// Cloning gives back an equal value.
pub open spec fn clone_exact<T: Clone>() -> bool {
    forall|a: T, b: T| #[trigger] cloned::<T>(a, b) ==> a == b
}

/// Multiplication "then": `a.mul_two(b)` applies `b` after `a` (the product
/// `b * a`, as in the opposite algebra), and is refused where the two do not
/// compose (for instance matrices of mismatched shapes).
pub trait ChainMultiplyable: CheckedMul {
    /// Whether a successful `mul_two` gives exactly `spec_then`.
    spec fn obeys_chain_spec() -> bool;

    /// The condition under which `self.mul_two(then_this)` may be attempted at all.
    spec fn spec_chain_allowed(&self, then_this: &Self) -> bool;

    /// Whether `then_this` can follow `self`.
    spec fn spec_composes(&self, then_this: &Self) -> bool;

    /// `then_this` after `self`.
    spec fn spec_then(&self, then_this: &Self) -> Self;

    /// `then_this` after `self`, or the error where they do not compose.
    fn mul_two(self, then_this: Self) -> (r: Result<Self, <Self as CheckedMul>::MultiplicationError>)
        requires
            self.spec_chain_allowed(&then_this),
        ensures
            r is Ok <==> self.spec_composes(&then_this),
            Self::obeys_chain_spec() && r is Ok ==> r->Ok_0 == self.spec_then(&then_this),
    ;
}

/// Any two values may be offered to `mul_two`.
pub open spec fn chain_total<M: ChainMultiplyable>() -> bool {
    forall|a: M, b: M| #[trigger] a.spec_chain_allowed(&b)
}

/// `first`, then each of `rest` in turn: the product, or nothing where some
/// step does not compose.
pub open spec fn chain_then<M: ChainMultiplyable>(first: M, rest: Seq<M>) -> Option<M>
    decreases rest.len(),
{
    if rest.len() == 0 {
        Some(first)
    } else {
        match chain_then(first, rest.drop_last()) {
            Some(p) => if p.spec_composes(&rest.last()) {
                Some(p.spec_then(&rest.last()))
            } else {
                None
            },
            None => None,
        }
    }
}

/// `first`, then each of `these_ops` in turn; the first refusal is reported.
pub fn chain_multiply_after<M: ChainMultiplyable>(first: M, these_ops: Vec<M>) -> (r: Result<
    M,
    <M as CheckedMul>::MultiplicationError,
>)
    requires
        chain_total::<M>(),
    ensures
        M::obeys_chain_spec() ==> match chain_then(first, these_ops@) {
            Some(m) => r is Ok && r->Ok_0 == m,
            None => r is Err,
        },
{
    let ghost all = these_ops@;
    let mut acc = first;
    let mut rest = these_ops;
    let ghost mut done: int = 0;
    while rest.len() > 0
        invariant
            chain_total::<M>(),
            all == these_ops@,
            0 <= done <= all.len(),
            rest@ == all.skip(done),
            M::obeys_chain_spec() ==> chain_then(first, all.take(done)) == Some(acc),
        decreases rest@.len(),
    {
        let next = rest.remove(0);
        proof {
            assert(all.take(done + 1).drop_last() =~= all.take(done));
            assert(all.take(done + 1).last() == next);
            assert(rest@ =~= all.skip(done + 1));
        }
        let ghost prev = acc;
        let ghost nx = next;
        match acc.mul_two(next) {
            Ok(m) => {
                acc = m;
            },
            Err(e) => {
                proof {
                    if M::obeys_chain_spec() {
                        assert(!prev.spec_composes(&nx));
                        assert(chain_then(first, all.take(done + 1)) is None);
                        lemma_chain_stays_none(first, all, done + 1);
                    }
                }
                return Err(e);
            },
        }
        proof {
            done = done + 1;
        }
    }
    assert(all.take(done) =~= all);
    Ok(acc)
}

/// Once a chain fails to compose, every longer chain fails too.
pub proof fn lemma_chain_stays_none<M: ChainMultiplyable>(first: M, all: Seq<M>, n: int)
    requires
        0 <= n <= all.len(),
        chain_then(first, all.take(n)) is None,
    ensures
        chain_then(first, all) is None,
    decreases all.len() - n,
{
    if n < all.len() {
        assert(all.take(n + 1).drop_last() =~= all.take(n));
        lemma_chain_stays_none(first, all, n + 1);
    } else {
        assert(all.take(n) =~= all);
    }
}

impl<T> ChainMultiplyable for T where T: Mul<T, Output = T> + Copy {
    open spec fn obeys_chain_spec() -> bool {
        T::obeys_mul_spec()
    }

    open spec fn spec_chain_allowed(&self, then_this: &Self) -> bool {
        then_this.mul_req(*self)
    }

    open spec fn spec_composes(&self, then_this: &Self) -> bool {
        true
    }

    open spec fn spec_then(&self, then_this: &Self) -> Self {
        then_this.mul_spec(*self)
    }

    fn mul_two(self, then_this: Self) -> (r: Result<Self, <Self as CheckedMul>::MultiplicationError>) {
        Ok(then_this * self)
    }
}

/// In-place multiplication that may be refused.
pub trait CheckedMulAssign: Sized {
    type MultiplicationError;

    /// Whether `self *= rhs` is refused with an error.
    spec fn spec_mul_assign_refused(&self, rhs: &Self) -> bool;

    /// The condition under which the multiplication may be attempted at all.
    spec fn spec_mul_assign_allowed(&self, rhs: &Self) -> bool;

    fn will_error(&self, rhs: &Self) -> (r: bool)
        ensures
            r == self.spec_mul_assign_refused(rhs),
    ;

    /// Whether a successful `self *= rhs` leaves exactly `spec_mul_assign_result`.
    spec fn obeys_mul_assign_spec() -> bool;

    /// The value `self *= rhs` leaves where it succeeds.
    spec fn spec_mul_assign_result(&self, rhs: &Self) -> Self;

    /// Multiply in place, reporting an error where the operands cannot be multiplied.
    fn checked_mul_assign(&mut self, rhs: Self) -> (r: Result<(), Self::MultiplicationError>)
        requires
            old(self).spec_mul_assign_allowed(&rhs),
        ensures
            r is Err <==> old(self).spec_mul_assign_refused(&rhs),
            Self::obeys_mul_assign_spec() && r is Ok ==> *final(self) == old(self).spec_mul_assign_result(&rhs),
    ;
}

impl<T> CheckedMulAssign for T where T: Mul<T, Output = T> + Clone {
    type MultiplicationError = ();

    open spec fn spec_mul_assign_refused(&self, rhs: &Self) -> bool {
        false
    }

    open spec fn spec_mul_assign_allowed(&self, rhs: &Self) -> bool {
        forall|x: T| #[trigger] x.mul_req(*rhs)
    }

    fn will_error(&self, _rhs: &Self) -> (r: bool) {
        false
    }

    open spec fn obeys_mul_assign_spec() -> bool {
        T::obeys_mul_spec() && clone_exact::<T>()
    }

    open spec fn spec_mul_assign_result(&self, rhs: &Self) -> Self {
        self.mul_spec(*rhs)
    }

    fn checked_mul_assign(&mut self, rhs: Self) -> (r: Result<(), Self::MultiplicationError>) {
        let current = self.clone();
        assert(call_ensures(T::clone, (&*old(self),), current));
        assert(cloned::<T>(*old(self), current));
        *self = current * rhs;
        Ok(())
    }
}

/// Addition that may be refused (for instance for matrices of mismatched shapes).
pub trait CheckedAdd: Sized {
    type AdditionError;

    /// Whether `self + rhs` is refused with an error.
    spec fn spec_add_refused(&self, rhs: &Self) -> bool;

    /// The condition under which the addition may be attempted at all.
    spec fn spec_add_allowed(&self, rhs: &Self) -> bool;

    fn will_error(&self, rhs: &Self) -> (r: bool)
        ensures
            r == self.spec_add_refused(rhs),
    ;

    /// Add, reporting an error where the operands cannot be added.
    fn checked_add(self, rhs: Self) -> (r: Result<Self, Self::AdditionError>)
        requires
            self.spec_add_allowed(&rhs),
        ensures
            r is Err <==> self.spec_add_refused(&rhs),
    ;
}

impl<T> CheckedAdd for T where T: Add<T, Output = T> {
    type AdditionError = ();

    open spec fn spec_add_refused(&self, rhs: &Self) -> bool {
        false
    }

    open spec fn spec_add_allowed(&self, rhs: &Self) -> bool {
        self.add_req(*rhs)
    }

    fn will_error(&self, _rhs: &Self) -> (r: bool) {
        false
    }

    fn checked_add(self, rhs: Self) -> (r: Result<Self, Self::AdditionError>)
        ensures
            r matches Ok(v) && (T::obeys_add_spec() ==> v == self.add_spec(rhs)),
    {
        Ok(self + rhs)
    }
}

/// In-place addition that may be refused.
pub trait CheckedAddAssign: Sized {
    type AdditionError;

    /// Whether `self += rhs` is refused with an error.
    spec fn spec_add_assign_refused(&self, rhs: &Self) -> bool;

    /// The condition under which the addition may be attempted at all.
    spec fn spec_add_assign_allowed(&self, rhs: &Self) -> bool;

    fn will_error(&self, rhs: &Self) -> (r: bool)
        ensures
            r == self.spec_add_assign_refused(rhs),
    ;

    /// Whether a successful `self += rhs` leaves exactly `spec_add_assign_result`.
    spec fn obeys_add_assign_spec() -> bool;

    /// The value `self += rhs` leaves where it succeeds.
    spec fn spec_add_assign_result(&self, rhs: &Self) -> Self;

    /// Add in place, reporting an error where the operands cannot be added.
    fn checked_add_assign(&mut self, rhs: Self) -> (r: Result<(), Self::AdditionError>)
        requires
            old(self).spec_add_assign_allowed(&rhs),
        ensures
            r is Err <==> old(self).spec_add_assign_refused(&rhs),
            Self::obeys_add_assign_spec() && r is Ok ==> *final(self) == old(self).spec_add_assign_result(&rhs),
    ;
}

impl<T> CheckedAddAssign for T where T: Add<T, Output = T> + Clone {
    type AdditionError = ();

    open spec fn spec_add_assign_refused(&self, rhs: &Self) -> bool {
        false
    }

    open spec fn spec_add_assign_allowed(&self, rhs: &Self) -> bool {
        forall|x: T| #[trigger] x.add_req(*rhs)
    }

    fn will_error(&self, _rhs: &Self) -> (r: bool) {
        false
    }

    open spec fn obeys_add_assign_spec() -> bool {
        T::obeys_add_spec() && clone_exact::<T>()
    }

    open spec fn spec_add_assign_result(&self, rhs: &Self) -> Self {
        self.add_spec(*rhs)
    }

    fn checked_add_assign(&mut self, rhs: Self) -> (r: Result<(), Self::AdditionError>) {
        let current = self.clone();
        assert(call_ensures(T::clone, (&*old(self),), current));
        assert(cloned::<T>(*old(self), current));
        *self = current + rhs;
        Ok(())
    }
}

/// The error of one of the four checked operations on `T`.
pub enum CheckedArithError<T> where
    T: CheckedAdd + CheckedAddAssign + CheckedMul + CheckedMulAssign,
 {
    AddError(<T as CheckedAdd>::AdditionError),
    AddAssignError(<T as CheckedAddAssign>::AdditionError),
    MulError(<T as CheckedMul>::MultiplicationError),
    MulAssignError(<T as CheckedMulAssign>::MultiplicationError),
}

impl<T> CheckedArithError<T> where
    T: CheckedAdd + CheckedAddAssign + CheckedMul + CheckedMulAssign,
 {
    pub fn from_add(value: <T as CheckedAdd>::AdditionError) -> (r: Self)
        ensures
            r == CheckedArithError::<T>::AddError(value),
    {
        Self::AddError(value)
    }

    pub fn from_add_assign(value: <T as CheckedAddAssign>::AdditionError) -> (r: Self)
        ensures
            r == CheckedArithError::<T>::AddAssignError(value),
    {
        Self::AddAssignError(value)
    }

    pub fn from_mul(value: <T as CheckedMul>::MultiplicationError) -> (r: Self)
        ensures
            r == CheckedArithError::<T>::MulError(value),
    {
        Self::MulError(value)
    }

    pub fn from_mul_assign(value: <T as CheckedMulAssign>::MultiplicationError) -> (r: Self)
        ensures
            r == CheckedArithError::<T>::MulAssignError(value),
    {
        Self::MulAssignError(value)
    }
}

/// The arithmetic of a ring of coefficients, as the standard operators provide it.
pub trait Ring: Add<Self, Output = Self> + Mul<Self, Output = Self> + Sub<Self, Output = Self> + Neg<
    Output = Self,
> + Clone {

}

impl<T> Ring for T where
    T: Add<Self, Output = Self> + Mul<Self, Output = Self> + Sub<Self, Output = Self> + Neg<
        Output = Self,
    > + Clone,
 {

}

/// The ring operations of `T` may be applied to any operands (no overflow or
/// other refusal).
pub open spec fn ring_ops_total<T: Ring>() -> bool {
    &&& forall|a: T, b: T|
        #![trigger a.add_req(b)]
        #![trigger a.sub_req(b)]
        #![trigger a.mul_req(b)]
        a.add_req(b) && a.sub_req(b) && a.mul_req(b)
    &&& forall|a: T| #[trigger] a.neg_req()
}

/// A minimal field-like trait for the exact linear algebra used by the
/// Hochschild complex: a ring with distinguished `0`, `1` and inverses of
/// nonzero elements.
pub trait Field: Ring + PartialEq + Sized {
    /// The additive identity.
    spec fn spec_zero() -> Self;

    /// The multiplicative identity.
    spec fn spec_one() -> Self;

    fn zero() -> (r: Self)
        ensures
            r == Self::spec_zero(),
    ;

    fn one() -> (r: Self)
        ensures
            r == Self::spec_one(),
    ;

    /// Whether `inv` gives exactly `spec_inv`.
    spec fn obeys_inv_spec() -> bool;

    /// The inverse of a nonzero element.
    spec fn spec_inv(self) -> Self;

    #[must_use]
    fn inv(self) -> (r: Self)
        ensures
            Self::obeys_inv_spec() ==> r == self.spec_inv(),
    ;

    /// `self == 0`.
    fn is_zero(&self) -> (r: bool)
        ensures
            Self::obeys_eq_spec() ==> r == self.eq_spec(&Self::spec_zero()),
    {
        *self == Self::zero()
    }
}

/// Every row of `rows` is at least as long as the first one.
pub open spec fn rows_cover_first<T>(rows: Seq<Vec<T>>) -> bool {
    rows.len() > 0 ==> forall|i: int| 0 <= i < rows.len() ==> #[trigger] rows[i]@.len() >= rows[0]@.len()
}

/// The field operations used by elimination compute exactly their specs:
/// `==`, `*`, `-` and `inv`, and clones are equal to their originals.
pub open spec fn exact_field<S: Field>() -> bool {
    &&& S::obeys_eq_spec()
    &&& S::obeys_mul_spec()
    &&& S::obeys_sub_spec()
    &&& S::obeys_inv_spec()
    &&& clone_exact::<S>()
}

/// The entry is zero.
pub open spec fn zero_at<S: Field>(x: S) -> bool {
    x.eq_spec(&S::spec_zero())
}

/// The rows of a matrix given as vectors.
pub open spec fn rows_view<S>(m: Seq<Vec<S>>) -> Seq<Seq<S>> {
    m.map_values(|v: Vec<S>| v@)
}

/// The first row from `r` on with a nonzero entry in column `c`, or the
/// number of rows where there is none.
pub open spec fn pivot_row<S: Field>(mat: Seq<Seq<S>>, r: int, c: int) -> int
    decreases mat.len() - r,
{
    if r >= mat.len() {
        mat.len() as int
    } else if !zero_at(mat[r][c]) {
        r
    } else {
        pivot_row(mat, r + 1, c)
    }
}

/// `row` with its entries in columns `c..n` multiplied by `x` on the right.
pub open spec fn scale_tail<S: Field>(row: Seq<S>, x: S, c: int, n: int) -> Seq<S> {
    Seq::new(row.len(), |j: int| if c <= j < n { row[j].mul_spec(x) } else { row[j] })
}

/// `row` less `lambda` times `piv` in columns `c..n`.
pub open spec fn subtract_tail<S: Field>(row: Seq<S>, lambda: S, piv: Seq<S>, c: int, n: int) -> Seq<S> {
    Seq::new(row.len(), |j: int| if c <= j < n { row[j].sub_spec(lambda.mul_spec(piv[j])) } else { row[j] })
}

/// Every row but the pivot row `r` with a nonzero entry in column `c` has
/// that entry times the pivot row subtracted, in columns `c..n`.
pub open spec fn clear_column<S: Field>(mat: Seq<Seq<S>>, r: int, c: int, n: int) -> Seq<Seq<S>> {
    Seq::new(
        mat.len(),
        |i: int|
            if i == r || zero_at(mat[i][c]) {
                mat[i]
            } else {
                subtract_tail(mat[i], mat[i][c], mat[r], c, n)
            },
    )
}

/// One step of Gauss-Jordan elimination at row `r` and column `c`, where
/// some row from `r` on has a nonzero entry in column `c`: that row is
/// swapped into place, scaled to a leading one, and the column is cleared
/// in every other row.
pub open spec fn eliminate_at<S: Field>(mat: Seq<Seq<S>>, r: int, c: int, n: int) -> Seq<Seq<S>> {
    let p = pivot_row(mat, r, c);
    let swapped = if p != r {
        mat.update(r, mat[p]).update(p, mat[r])
    } else {
        mat
    };
    let normed = swapped.update(r, scale_tail(swapped[r], swapped[r][c].spec_inv(), c, n));
    clear_column(normed, r, c, n)
}

/// The number of pivots Gauss-Jordan elimination finds in columns `c..n`,
/// starting with `r` pivots found.
pub open spec fn elimination_rank<S: Field>(mat: Seq<Seq<S>>, n: int, r: int, c: int) -> int
    decreases n - c,
{
    if r >= mat.len() || c >= n || c < 0 {
        r
    } else if pivot_row(mat, r, c) >= mat.len() {
        elimination_rank(mat, n, r, c + 1)
    } else {
        elimination_rank(eliminate_at(mat, r, c, n), n, r + 1, c + 1)
    }
}

/// The rank of a matrix given by its rows, the number of columns being the
/// length of the first row: the number of pivots of Gauss-Jordan elimination.
pub open spec fn matrix_rank<S: Field>(rows: Seq<Seq<S>>) -> int {
    if rows.len() == 0 {
        0
    } else {
        elimination_rank(rows, rows[0].len() as int, 0, 0)
    }
}

/// Every entry of `rows` in the first `n` columns is zero.
pub open spec fn zero_matrix<T: Field>(rows: Seq<Vec<T>>, n: nat) -> bool {
    forall|i: int, j: int| 0 <= i < rows.len() && 0 <= j < n ==> #[trigger] rows[i]@[j].eq_spec(&T::spec_zero())
}

/// Copy a matrix row by row, cloning each entry.
fn copy_matrix<Scalar: Clone>(matrix: &[Vec<Scalar>]) -> (r: Vec<Vec<Scalar>>)
    ensures
        r@.len() == matrix@.len(),
        forall|i: int| 0 <= i < r@.len() ==> #[trigger] r@[i]@.len() == matrix@[i]@.len(),
        forall|i: int, j: int|
            0 <= i < r@.len() && 0 <= j < r@[i]@.len() ==> cloned::<Scalar>(matrix@[i]@[j], #[trigger] r@[i]@[j]),
{
    let mut out: Vec<Vec<Scalar>> = Vec::new();
    let mut i: usize = 0;
    while i < matrix.len()
        invariant
            i <= matrix@.len(),
            out@.len() == i,
            forall|k: int| 0 <= k < i ==> #[trigger] out@[k]@.len() == matrix@[k]@.len(),
            forall|k: int, j: int|
                0 <= k < i && 0 <= j < out@[k]@.len() ==> cloned::<Scalar>(matrix@[k]@[j], #[trigger] out@[k]@[j]),
        decreases matrix@.len() - i,
    {
        let row = &matrix[i];
        let mut new_row: Vec<Scalar> = Vec::new();
        let mut j: usize = 0;
        while j < row.len()
            invariant
                j <= row@.len(),
                new_row@.len() == j,
                row@ == matrix@[i as int]@,
                forall|l: int| 0 <= l < j ==> cloned::<Scalar>(row@[l], #[trigger] new_row@[l]),
            decreases row@.len() - j,
        {
            new_row.push(row[j].clone());
            j = j + 1;
        }
        out.push(new_row);
        i = i + 1;
    }
    out
}

/// The rank of a matrix over a field, by Gauss-Jordan elimination on a copy.
///
/// The matrix is given as a list of rows; the number of columns is the length
/// of the first row. An empty matrix has rank 0.
#[must_use]
pub fn rank<Scalar: Field>(matrix: &[Vec<Scalar>]) -> (r: usize)
    requires
        ring_ops_total::<Scalar>(),
        rows_cover_first(matrix@),
    ensures
        r <= matrix@.len(),
        matrix@.len() > 0 ==> r <= matrix@[0]@.len(),
        matrix@.len() == 0 ==> r == 0,
        Scalar::obeys_eq_spec() && clone_exact::<Scalar>() && matrix@.len() > 0 ==> (r == 0 <==> zero_matrix(
            matrix@,
            matrix@[0]@.len(),
        )),
        exact_field::<Scalar>() ==> r == matrix_rank(rows_view(matrix@)),
{
    if matrix.len() == 0 {
        return 0;
    }
    let mut mat = copy_matrix(matrix);
    let m = mat.len();
    let n = mat[0].len();
    proof {
        if clone_exact::<Scalar>() {
            assert forall|i: int, j: int| 0 <= i < m && 0 <= j < n implies #[trigger] mat@[i]@[j] == matrix@[i]@[j] by {
                assert(matrix@[i]@.len() >= matrix@[0]@.len());
                assert(cloned::<Scalar>(matrix@[i]@[j], mat@[i]@[j]));
            }
            assert(rows_view(mat@) =~= rows_view(matrix@)) by {
                assert forall|i: int| 0 <= i < m implies rows_view(mat@)[i] =~= rows_view(matrix@)[i] by {
                    assert forall|j: int| 0 <= j < mat@[i]@.len() implies mat@[i]@[j] == matrix@[i]@[j] by {
                        assert(cloned::<Scalar>(matrix@[i]@[j], mat@[i]@[j]));
                    }
                }
            }
        }
        assert(rows_view(matrix@)[0].len() == n);
    }
    let mut r: usize = 0;
    let mut c: usize = 0;
    while r < m && c < n
        invariant
            ring_ops_total::<Scalar>(),
            m == mat@.len(),
            m > 0,
            n == matrix@[0]@.len(),
            forall|i: int| 0 <= i < m ==> #[trigger] mat@[i]@.len() >= n,
            r <= m,
            r <= c,
            c <= n,
            m == matrix@.len(),
            clone_exact::<Scalar>() && r == 0 ==> forall|i: int, j: int|
                0 <= i < m && 0 <= j < n ==> #[trigger] mat@[i]@[j] == matrix@[i]@[j],
            Scalar::obeys_eq_spec() && clone_exact::<Scalar>() && r == 0 ==> forall|i: int, j: int|
                0 <= i < m && 0 <= j < c ==> #[trigger] matrix@[i]@[j].eq_spec(&Scalar::spec_zero()),
            Scalar::obeys_eq_spec() && clone_exact::<Scalar>() && zero_matrix(matrix@, n as nat) ==> r == 0,
            exact_field::<Scalar>() ==> matrix_rank(rows_view(matrix@)) == elimination_rank(
                rows_view(mat@),
                n as int,
                r as int,
                c as int,
            ),
        decreases n - c,
    {
        let ghost mv0 = rows_view(mat@);
        let mut pivot: usize = r;
        while pivot < m && mat[pivot][c].is_zero()
            invariant
                m == mat@.len(),
                forall|i: int| 0 <= i < m ==> #[trigger] mat@[i]@.len() >= n,
                r <= pivot <= m,
                c < n,
                mv0 == rows_view(mat@),
                Scalar::obeys_eq_spec() ==> forall|i: int|
                    r <= i < pivot ==> #[trigger] mat@[i]@[c as int].eq_spec(&Scalar::spec_zero()),
                Scalar::obeys_eq_spec() ==> pivot_row(mv0, r as int, c as int) == pivot_row(mv0, pivot as int, c as int),
            decreases m - pivot,
        {
            proof {
                if Scalar::obeys_eq_spec() {
                    assert(mv0[pivot as int][c as int] == mat@[pivot as int]@[c as int]);
                }
            }
            pivot = pivot + 1;
        }
        let found = pivot < m;
        proof {
            if Scalar::obeys_eq_spec() {
                if found {
                    assert(mv0[pivot as int][c as int] == mat@[pivot as int]@[c as int]);
                    assert(pivot_row(mv0, r as int, c as int) == pivot as int);
                } else {
                    assert(pivot_row(mv0, r as int, c as int) == m as int);
                }
            }
            if Scalar::obeys_eq_spec() && clone_exact::<Scalar>() && zero_matrix(matrix@, n as nat) && r == 0 && found {
                assert(mat@[pivot as int]@[c as int] == matrix@[pivot as int]@[c as int]);
                assert(matrix@[pivot as int]@[c as int].eq_spec(&Scalar::spec_zero()));
            }
        }
        if !found {
            proof {
                if Scalar::obeys_eq_spec() && clone_exact::<Scalar>() && r == 0 {
                    assert forall|i: int, j: int| 0 <= i < m && 0 <= j < c + 1 implies #[trigger] matrix@[i]@[j].eq_spec(
                        &Scalar::spec_zero(),
                    ) by {
                        if j == c {
                            assert(mat@[i]@[j] == matrix@[i]@[j]);
                            assert(mat@[i]@[c as int].eq_spec(&Scalar::spec_zero()));
                        }
                    }
                }
            }
            c = c + 1;
            continue;
        }
        if pivot != r {
            let row_pivot = mat[pivot].clone();
            let row_r = mat[r].clone();
            proof {
                if exact_field::<Scalar>() {
                    assert(row_pivot@ =~= mv0[pivot as int]) by {
                        assert forall|j: int| 0 <= j < row_pivot@.len() implies row_pivot@[j] == mv0[pivot as int][j] by {
                            assert(cloned::<Scalar>(mat@[pivot as int]@[j], row_pivot@[j]));
                        }
                    }
                    assert(row_r@ =~= mv0[r as int]) by {
                        assert forall|j: int| 0 <= j < row_r@.len() implies row_r@[j] == mv0[r as int][j] by {
                            assert(cloned::<Scalar>(mat@[r as int]@[j], row_r@[j]));
                        }
                    }
                }
            }
            mat.set(r, row_pivot);
            mat.set(pivot, row_r);
        }
        let ghost mv1 = rows_view(mat@);
        proof {
            if exact_field::<Scalar>() {
                if pivot != r {
                    assert(mv1 =~= mv0.update(r as int, mv0[pivot as int]).update(pivot as int, mv0[r as int]));
                } else {
                    assert(mv1 =~= mv0);
                }
            }
        }
        let pivot_entry = mat[r][c].clone();
        let inv = pivot_entry.inv();
        let mut row_r = mat[r].clone();
        let ghost orig = mv1[r as int];
        proof {
            if exact_field::<Scalar>() {
                assert(cloned::<Scalar>(mat@[r as int]@[c as int], pivot_entry));
                assert(inv == orig[c as int].spec_inv());
                assert(row_r@ =~= orig) by {
                    assert forall|j: int| 0 <= j < row_r@.len() implies row_r@[j] == orig[j] by {
                        assert(cloned::<Scalar>(mat@[r as int]@[j], row_r@[j]));
                    }
                }
            }
        }
        let mut j: usize = c;
        while j < n
            invariant
                ring_ops_total::<Scalar>(),
                row_r@.len() >= n,
                c <= j <= n,
                row_r@.len() == orig.len(),
                exact_field::<Scalar>() ==> row_r@ == Seq::new(
                    orig.len(),
                    |k: int| if c <= k < j { orig[k].mul_spec(inv) } else { orig[k] },
                ),
            decreases n - j,
        {
            let a = row_r[j].clone();
            let b = inv.clone();
            let updated = a * b;
            proof {
                if exact_field::<Scalar>() {
                    assert(cloned::<Scalar>(row_r@[j as int], a));
                    assert(cloned::<Scalar>(inv, b));
                }
            }
            row_r.set(j, updated);
            proof {
                if exact_field::<Scalar>() {
                    assert(row_r@ =~= Seq::new(
                        orig.len(),
                        |k: int| if c <= k < j + 1 { orig[k].mul_spec(inv) } else { orig[k] },
                    ));
                }
            }
            j = j + 1;
        }
        mat.set(r, row_r);
        let ghost mv2 = rows_view(mat@);
        proof {
            if exact_field::<Scalar>() {
                assert(row_r@ =~= scale_tail(orig, orig[c as int].spec_inv(), c as int, n as int));
                assert(mv2 =~= mv1.update(r as int, scale_tail(mv1[r as int], mv1[r as int][c as int].spec_inv(), c as int, n as int)));
            }
        }
        let mut i: usize = 0;
        while i < m
            invariant
                ring_ops_total::<Scalar>(),
                m == mat@.len(),
                m == mv2.len(),
                forall|k: int| 0 <= k < m ==> #[trigger] mat@[k]@.len() >= n,
                r < m,
                c < n,
                i <= m,
                exact_field::<Scalar>() ==> rows_view(mat@) == Seq::new(
                    m as nat,
                    |k: int| if k < i { clear_column(mv2, r as int, c as int, n as int)[k] } else { mv2[k] },
                ),
            decreases m - i,
        {
            let ghost mvi = rows_view(mat@);
            if i != r && !mat[i][c].is_zero() {
                let lambda = mat[i][c].clone();
                let pivot_row = mat[r].clone();
                let mut row_i = mat[i].clone();
                let ghost piv = mv2[r as int];
                let ghost rowi0 = mv2[i as int];
                proof {
                    if exact_field::<Scalar>() {
                        assert(mvi[r as int] == piv);
                        assert(mvi[i as int] == rowi0);
                        assert(cloned::<Scalar>(mat@[i as int]@[c as int], lambda));
                        assert(pivot_row@ =~= piv) by {
                            assert forall|k: int| 0 <= k < pivot_row@.len() implies pivot_row@[k] == piv[k] by {
                                assert(cloned::<Scalar>(mat@[r as int]@[k], pivot_row@[k]));
                            }
                        }
                        assert(row_i@ =~= rowi0) by {
                            assert forall|k: int| 0 <= k < row_i@.len() implies row_i@[k] == rowi0[k] by {
                                assert(cloned::<Scalar>(mat@[i as int]@[k], row_i@[k]));
                            }
                        }
                    }
                }
                let mut j: usize = c;
                while j < n
                    invariant
                        ring_ops_total::<Scalar>(),
                        row_i@.len() >= n,
                        pivot_row@.len() >= n,
                        c <= j <= n,
                        exact_field::<Scalar>() ==> row_i@.len() == rowi0.len(),
                        exact_field::<Scalar>() ==> pivot_row@ == piv,
                        exact_field::<Scalar>() ==> row_i@ == Seq::new(
                            rowi0.len(),
                            |k: int| if c <= k < j { rowi0[k].sub_spec(lambda.mul_spec(piv[k])) } else { rowi0[k] },
                        ),
                    decreases n - j,
                {
                    let l = lambda.clone();
                    let p = pivot_row[j].clone();
                    let correction = l * p;
                    let x = row_i[j].clone();
                    let updated = x - correction;
                    proof {
                        if exact_field::<Scalar>() {
                            assert(cloned::<Scalar>(lambda, l));
                            assert(cloned::<Scalar>(pivot_row@[j as int], p));
                            assert(cloned::<Scalar>(row_i@[j as int], x));
                        }
                    }
                    row_i.set(j, updated);
                    proof {
                        if exact_field::<Scalar>() {
                            assert(row_i@ =~= Seq::new(
                                rowi0.len(),
                                |k: int| if c <= k < j + 1 { rowi0[k].sub_spec(lambda.mul_spec(piv[k])) } else { rowi0[k] },
                            ));
                        }
                    }
                    j = j + 1;
                }
                mat.set(i, row_i);
                proof {
                    if exact_field::<Scalar>() {
                        assert(!zero_at(mv2[i as int][c as int]));
                        assert(row_i@ =~= subtract_tail(rowi0, rowi0[c as int], piv, c as int, n as int));
                        assert(rows_view(mat@) =~= mvi.update(i as int, row_i@));
                        assert(clear_column(mv2, r as int, c as int, n as int)[i as int] == subtract_tail(
                            rowi0,
                            rowi0[c as int],
                            piv,
                            c as int,
                            n as int,
                        ));
                        assert(rows_view(mat@) =~= Seq::new(
                            m as nat,
                            |k: int| if k < i + 1 { clear_column(mv2, r as int, c as int, n as int)[k] } else { mv2[k] },
                        ));
                    }
                }
            } else {
                proof {
                    if exact_field::<Scalar>() {
                        assert(mvi[i as int] == mv2[i as int]);
                        assert(i == r || zero_at(mv2[i as int][c as int]));
                        assert(rows_view(mat@) =~= Seq::new(
                            m as nat,
                            |k: int| if k < i + 1 { clear_column(mv2, r as int, c as int, n as int)[k] } else { mv2[k] },
                        ));
                    }
                }
            }
            i = i + 1;
        }
        proof {
            if exact_field::<Scalar>() {
                assert(rows_view(mat@) =~= clear_column(mv2, r as int, c as int, n as int));
                assert(mv2 =~= {
                    let p = pivot_row(mv0, r as int, c as int);
                    let swapped = if p != r {
                        mv0.update(r as int, mv0[p]).update(p, mv0[r as int])
                    } else {
                        mv0
                    };
                    swapped.update(r as int, scale_tail(swapped[r as int], swapped[r as int][c as int].spec_inv(), c as int, n as int))
                });
                assert(rows_view(mat@) == eliminate_at(mv0, r as int, c as int, n as int));
            }
        }
        r = r + 1;
        c = c + 1;
    }
    r
}
} // verus!

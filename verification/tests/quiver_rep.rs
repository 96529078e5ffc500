use nalgebra::DMatrix;
use quiver_algebra::{
    BasisElt, ChainMultiplyable, CheckedMul, CheckedMulAssign, PathAlgebra, Quiver, QuiverRep,
    QuiverWithRelations, ShapeMismatch, chain_multiply_after,
};
use std::sync::Arc;

fn s(x: &str) -> String {
    x.to_string()
}

fn path(labels: &[&str]) -> BasisElt {
    let w: Vec<String> = labels.iter().map(|l| l.to_string()).collect();
    BasisElt::create(&w).unwrap()
}

/// "0" --"a"--> "1"
fn single_edge_quiver() -> Arc<Quiver> {
    let mut q = Quiver::new();
    q.add_edge(s("0"), s("1"), s("a"));
    Arc::new(q)
}

/// alpha =a,b=> beta
fn make_kronecker_quiver() -> Quiver {
    let mut q = Quiver::new();
    q.add_vertex(s("alpha"));
    q.add_vertex(s("beta"));
    q.add_edge(s("alpha"), s("beta"), s("a"));
    q.add_edge(s("alpha"), s("beta"), s("b"));
    q
}

fn one(_n: usize) -> Real {
    Real(1.0)
}

type ScalarRep = QuiverRep<Real, fn(usize) -> Real, true>;

fn scalar_rep(q: Arc<Quiver>, edges: &[(&str, f64)]) -> Result<ScalarRep, (Vec<(String, usize)>, Vec<(String, Real)>)> {
    let edge_reps = edges.iter().map(|(e, x)| (s(e), Real(*x))).collect();
    let vertex_dims = q.vertex_labels().into_iter().map(|v| (v, 1)).collect();
    QuiverRep::new(q, edge_reps, vertex_dims, one as fn(usize) -> Real)
}

fn close(a: &Real, b: &Real) -> bool {
    (a.0 - b.0).abs() <= f64::EPSILON
}

fn hom(entries: &[(&str, f64)]) -> Vec<(String, Real)> {
    entries.iter().map(|(v, x)| (s(v), Real(*x))).collect()
}

#[test]
fn quiver_rep_new_valid() {
    let rep = scalar_rep(single_edge_quiver(), &[("a", 2.0)]).expect("Valid quiver rep");
    assert_eq!(rep.get_edge_rep(&s("a")), Some(&Real(2.0)));
}

#[test]
fn quiver_rep_new_missing_edge_is_err() {
    let rep = scalar_rep(single_edge_quiver(), &[("0", 1.0), ("1", 1.0)]);
    assert!(rep.is_err());
}

#[test]
fn quiver_rep_new_missing_vertex_is_err() {
    let q = single_edge_quiver();
    let edge_reps = vec![(s("a"), Real(2.0))];
    // "1" absent
    let vertex_dims = vec![(s("0"), 1)];
    assert!(QuiverRep::<Real, _, true>::new(q, edge_reps, vertex_dims, |_: usize| Real(1.0)).is_err());
}

#[test]
fn quiver_rep_new_spurious_keys_are_filtered() {
    let q = single_edge_quiver();
    // "b" and "2" are not in the quiver and are dropped
    let edge_reps = vec![(s("a"), Real(2.0)), (s("b"), Real(99.0))];
    let vertex_dims = vec![(s("0"), 1), (s("1"), 1), (s("2"), 1)];
    let rep = QuiverRep::<Real, _, true>::new(q, edge_reps, vertex_dims, |_: usize| Real(1.0)).unwrap();
    assert_eq!(rep.get_edge_rep(&s("a")), Some(&Real(2.0)));
    assert_eq!(rep.get_edge_rep(&s("b")), None);
}

#[test]
fn new_error_keeps_what_belongs_to_the_quiver() {
    let q = single_edge_quiver();
    let edge_reps = vec![(s("b"), Real(99.0))];
    let vertex_dims = vec![(s("0"), 1), (s("2"), 4)];
    let (dims, edges) = QuiverRep::<Real, _, true>::new(q, edge_reps, vertex_dims, |_: usize| Real(1.0)).err().unwrap();
    assert_eq!(dims, vec![(s("0"), 1)]);
    assert!(edges.is_empty());
}

#[test]
fn later_entries_replace_earlier_ones() {
    let q = single_edge_quiver();
    let edge_reps = vec![(s("a"), Real(2.0)), (s("a"), Real(5.0))];
    let vertex_dims = vec![(s("0"), 1), (s("1"), 1)];
    let rep = QuiverRep::<Real, _, true>::new(q, edge_reps, vertex_dims, |_: usize| Real(1.0)).unwrap();
    assert_eq!(rep.get_edge_rep(&s("a")), Some(&Real(5.0)));
}

#[test]
fn quiver_rep_set_edge_rep_updates_value() {
    let mut rep = scalar_rep(single_edge_quiver(), &[("a", 2.0)]).expect("Valid quiver rep");
    rep.set_edge_rep(&s("a"), Real(7.0));
    assert_eq!(rep.get_edge_rep(&s("a")), Some(&Real(7.0)));
}

#[test]
fn quiver_rep_set_edge_rep_nonexistent_is_noop() {
    let mut rep = scalar_rep(single_edge_quiver(), &[("a", 2.0)]).expect("Valid quiver rep");
    rep.set_edge_rep(&s("b"), Real(99.0));
    assert_eq!(rep.get_edge_rep(&s("b")), None);
    assert_eq!(rep.get_edge_rep(&s("a")), Some(&Real(2.0)));
}

#[test]
fn quiver_rep_is_intertwiner_valid() {
    // phi_1 * M(a) = 6 * 2 = 12 == N(a) * phi_0 = 4 * 3 = 12
    let q = single_edge_quiver();
    let m = scalar_rep(q.clone(), &[("a", 2.0)]).expect("Valid quiver rep");
    let n = scalar_rep(q, &[("a", 4.0)]).expect("Valid quiver rep");
    let phi = hom(&[("0", 3.0), ("1", 6.0)]);
    assert_eq!(m.is_intertwiner(&n, &phi, close), Ok(vec![]));
}

#[test]
fn is_intertwiner_identity_on_self() {
    for scaling_factor in [-99.5, -3.0, -0.25, 0.0, 0.5, 1.0, 7.0, 42.125, 99.0] {
        let q = single_edge_quiver();
        let m = scalar_rep(q.clone(), &[("a", 5.0)]).expect("Valid quiver rep");
        let phi = hom(&[("0", scaling_factor), ("1", scaling_factor)]);
        assert_eq!(m.is_intertwiner(&m, &phi, close), Ok(vec![]));
    }
}

#[test]
fn quiver_rep_is_intertwiner_zero_map_to_zero_rep() {
    let q = single_edge_quiver();
    let m = scalar_rep(q.clone(), &[("a", 5.0)]).expect("Valid quiver rep");
    let zero = scalar_rep(q, &[("a", 0.0)]).expect("Valid quiver rep");
    let phi = hom(&[("0", 0.0), ("1", 0.0)]);
    assert_eq!(m.is_intertwiner(&zero, &phi, close), Ok(vec![]));
}

#[test]
fn quiver_rep_is_intertwiner_single_failing_edge() {
    // phi_1 * M(a) = 7 * 2 = 14 != N(a) * phi_0 = 4 * 3 = 12
    let q = single_edge_quiver();
    let m = scalar_rep(q.clone(), &[("a", 2.0)]).expect("Valid quiver rep");
    let n = scalar_rep(q, &[("a", 4.0)]).expect("Valid quiver rep");
    let phi = hom(&[("0", 3.0), ("1", 7.0)]);
    assert_eq!(m.is_intertwiner(&n, &phi, close), Ok(vec![s("a")]));
}

#[test]
fn quiver_rep_is_intertwiner_multiple_failing_edges() {
    let q = Arc::new(make_kronecker_quiver());
    let m = scalar_rep(q.clone(), &[("a", 2.0), ("b", 3.0)]).expect("Valid quiver rep");
    let n = scalar_rep(q, &[("a", 4.0), ("b", 6.0)]).expect("Valid quiver rep");
    let phi = hom(&[("alpha", 3.0), ("beta", 7.0)]);
    let mut failing = m.is_intertwiner(&n, &phi, close).unwrap();
    failing.sort();
    assert_eq!(failing, vec![s("a"), s("b")]);
}

#[test]
fn quiver_rep_is_intertwiner_partial_failure_kronecker() {
    let q = Arc::new(make_kronecker_quiver());
    let m = scalar_rep(q.clone(), &[("a", 2.0), ("b", 3.0)]).expect("Valid quiver rep");
    let n = scalar_rep(q, &[("a", 4.0), ("b", 7.0)]).expect("Valid quiver rep");
    let phi = hom(&[("alpha", 3.0), ("beta", 6.0)]);
    assert_eq!(m.is_intertwiner(&n, &phi, close), Ok(vec![s("b")]));
}

#[test]
fn quiver_rep_is_intertwiner_missing_vertex_is_err() {
    let q = single_edge_quiver();
    let m = scalar_rep(q.clone(), &[("a", 2.0)]).expect("Valid quiver rep");
    let n = scalar_rep(q, &[("a", 4.0)]).expect("Valid quiver rep");
    let phi = hom(&[("0", 3.0)]);
    let err = m.is_intertwiner(&n, &phi, close).err().unwrap();
    assert_eq!(err, "quiver_hom is missing a matrix for \"1\" in the quiver");
}

#[test]
fn quiver_rep_rep_descends_to_quotient_when_arrow_is_zero() {
    let q = Arc::new(make_kronecker_quiver());
    let rel_a: PathAlgebra<Real, true> = PathAlgebra::singleton(q.clone(), path(&["a"]), Real(4.4693));
    let qwr = QuiverWithRelations::new(q.clone(), vec![rel_a], Some(|x: &Real| x.0 == 0.0));
    // M(a) = 0: descends
    let m = scalar_rep(q, &[("a", 0.0), ("b", 3.0)]).expect("Valid quiver rep");
    assert!(qwr.rep_descends(&m, |x: &Real| x.0 == 0.0));

    let q = Arc::new(make_kronecker_quiver());
    let rel_a: PathAlgebra<Real, true> = PathAlgebra::singleton(q.clone(), path(&["a"]), Real(0.0));
    let qwr = QuiverWithRelations::new(q.clone(), vec![rel_a], Some(|x: &Real| x.0 == 0.0));
    // M(a) != 0, but the ideal was generated by 0 * a: descends
    let m = scalar_rep(q, &[("a", 2.0), ("b", 3.0)]).expect("Valid quiver rep");
    assert!(qwr.rep_descends(&m, |x: &Real| x.0 == 0.0));
}

#[test]
fn quiver_rep_rep_does_not_descend_when_arrow_is_nonzero() {
    let q = Arc::new(make_kronecker_quiver());
    let rel_a: PathAlgebra<Real, true> = PathAlgebra::singleton(q.clone(), path(&["a"]), Real(5.93049));
    let qwr = QuiverWithRelations::new(q.clone(), vec![rel_a], Some(|x: &Real| x.0 == 0.0));
    let m = scalar_rep(q, &[("a", 2.0), ("b", 3.0)]).expect("Valid quiver rep");
    assert!(!qwr.rep_descends(&m, |x: &Real| x.0 == 0.0));
}

#[test]
fn mat_from_path_multiplies_in_order() {
    // 0 -a-> 1 -b-> 2 with scalars: the path [a, b] is M(b) M(a).
    let mut q = Quiver::new();
    q.add_edge(s("0"), s("1"), s("a"));
    q.add_edge(s("1"), s("2"), s("b"));
    let q = Arc::new(q);
    let rep = scalar_rep(q, &[("a", 2.0), ("b", 5.0)]).unwrap();
    let p = match path(&["a", "b"]) {
        BasisElt::Path(w) => w,
        BasisElt::Idempotent(_) => unreachable!(),
    };
    assert_eq!(rep.mat_from_path(&p).ok(), Some(Real(10.0)));
    assert_eq!(rep.mat_from_path_or_vertex(BasisElt::Idempotent(s("1"))).ok(), Some(Real(1.0)));
}

#[test]
fn mat_from_path_algebra_sums_scaled_terms() {
    let q = Arc::new(make_kronecker_quiver());
    let rep = scalar_rep(q.clone(), &[("a", 2.0), ("b", 3.0)]).unwrap();
    let elt = PathAlgebra::<Real, true>::new(q, vec![(path(&["a"]), Real(5.0)), (path(&["b"]), Real(-1.0))]);
    // 5 * 2 - 1 * 3
    assert_eq!(rep.mat_from_path_algebra(elt).ok(), Some(Real(7.0)));
}

#[test]
fn gauge_transform_conjugates_each_arrow() {
    let q = Arc::new(make_kronecker_quiver());
    let mut rep = scalar_rep(q, &[("a", 2.0), ("b", 3.0)]).unwrap();
    // g_alpha = 2 (inverse 0.5), g_beta = 4: M(x) becomes 0.5 * M(x) * 4.
    let g = vec![(s("alpha"), (Real(0.5), Real(2.0))), (s("beta"), (Real(0.25), Real(4.0)))];
    assert!(rep.gauge_transform(&g).is_ok());
    assert_eq!(rep.get_edge_rep(&s("a")), Some(&Real(4.0)));
    assert_eq!(rep.get_edge_rep(&s("b")), Some(&Real(6.0)));
}

#[test]
fn gauge_transform_leaves_untouched_vertices() {
    let q = single_edge_quiver();
    let mut rep = scalar_rep(q, &[("a", 2.0)]).unwrap();
    let g = vec![(s("1"), (Real(0.5), Real(3.0)))];
    assert!(rep.gauge_transform(&g).is_ok());
    assert_eq!(rep.get_edge_rep(&s("a")), Some(&Real(6.0)));
}

#[test]
fn chain_of_scalars_multiplies_in_reverse() {
    let r = chain_multiply_after(Real(2.0), vec![Real(3.0), Real(5.0)]);
    assert_eq!(r.ok(), Some(Real(30.0)));
    assert_eq!(Real(2.0).mul_two(Real(7.0)).ok(), Some(Real(14.0)));
}

/// Oriented triangle a -> b -> c -> a with dimensions 1, 2, 3 and the zero
/// representation: every element of the path algebra acts as a zero matrix
/// of the right shape.
#[test]
fn zero_rep_triangle_mat_from_path_algebra() {
    let mut q = Quiver::new();
    q.add_edge(s("a"), s("b"), s("ab"));
    q.add_edge(s("b"), s("c"), s("bc"));
    q.add_edge(s("c"), s("a"), s("ca"));
    let q = Arc::new(q);
    let dim = vec![(s("a"), 1), (s("b"), 2), (s("c"), 3)];
    let rep: QuiverRep<Mat, fn(usize) -> Mat, true> =
        QuiverRep::new_zero_rep(q.clone(), dim, |r: usize, c: usize| Mat::zeros(r, c), Mat::identity as fn(usize) -> Mat);

    for (arrow, expected_rows, expected_cols) in [("ab", 2, 1), ("bc", 3, 2), ("ca", 1, 3)] {
        let elt = PathAlgebra::<Real, true>::singleton(q.clone(), path(&[arrow]), Real(1.0));
        let mat = rep.mat_from_path_algebra(elt).map_err(|_| ()).expect("This should not fail");
        assert_eq!(mat, Mat::zeros(expected_rows, expected_cols));
    }
    let ab_mat = rep.mat_from_path(&word(&["ab"])).map_err(|_| ()).expect("This should not fail");
    let bc_mat = rep.mat_from_path(&word(&["bc"])).map_err(|_| ()).expect("This should not fail");
    let _ = chain_multiply_after(ab_mat, vec![bc_mat]).map_err(|_| ()).expect("Multiplication should work");

    assert_eq!(
        rep.mat_from_path(&word(&["ab", "bc"])).map_err(|_| ()).expect("This should not fail"),
        Mat::zeros(3, 1)
    );
    let ab_bc = PathAlgebra::<Real, true>::singleton(q.clone(), path(&["ab", "bc"]), Real(1.0));
    assert_eq!(rep.mat_from_path_algebra(ab_bc).map_err(|_| ()).expect("This should not fail"), Mat::zeros(3, 1));

    let cycle = PathAlgebra::<Real, true>::singleton(q.clone(), path(&["ab", "bc", "ca"]), Real(1.0));
    assert_eq!(rep.mat_from_path_algebra(cycle).map_err(|_| ()).expect("This should not fail"), Mat::zeros(1, 1));
}

/// The same triangle with nonzero matrices:
/// M(ab) = [[1],[0]], M(bc) = [[1,0],[0,1],[1,1]], M(ca) = [[1,0,1]];
/// the path [ab, bc] is M(bc) M(ab), and [ab, bc, ca] is M(ca) M(bc) M(ab).
#[test]
fn nonzero_rep_triangle_mat_from_path() {
    let mut q = Quiver::new();
    q.add_edge(s("a"), s("b"), s("ab"));
    q.add_edge(s("b"), s("c"), s("bc"));
    q.add_edge(s("c"), s("a"), s("ca"));
    let q = Arc::new(q);
    let dim = vec![(s("a"), 1), (s("b"), 2), (s("c"), 3)];
    let mut rep: QuiverRep<Mat, fn(usize) -> Mat, false> =
        QuiverRep::new_zero_rep(q.clone(), dim, |r: usize, c: usize| Mat::zeros(r, c), Mat::identity as fn(usize) -> Mat);

    rep.set_edge_rep(&s("ab"), Mat(DMatrix::from_row_slice(2, 1, &[1.0, 0.0])));
    rep.set_edge_rep(&s("bc"), Mat(DMatrix::from_row_slice(3, 2, &[1.0, 0.0, 0.0, 1.0, 1.0, 1.0])));
    rep.set_edge_rep(&s("ca"), Mat(DMatrix::from_row_slice(1, 3, &[1.0, 0.0, 1.0])));

    let get = |p: &[&str]| rep.mat_from_path(&word(p)).map_err(|_| ()).expect("All matrices along a path can multiply in that order");

    assert_eq!(get(&["ab"]), Mat(DMatrix::from_row_slice(2, 1, &[1.0, 0.0])));
    assert_eq!(get(&["ab", "bc"]), Mat(DMatrix::from_row_slice(3, 1, &[1.0, 0.0, 1.0])));
    assert_eq!(get(&["ab", "bc", "ca"]), Mat(DMatrix::from_row_slice(1, 1, &[2.0])));

    let elt = PathAlgebra::<Real, false>::singleton(q.clone(), path(&["ab", "bc"]), Real(3.0)) * Real(4.493);
    assert_eq!(
        rep.mat_from_path_algebra(elt).map_err(|_| ()).expect("ok"),
        Mat(DMatrix::from_row_slice(3, 1, &[3.0, 0.0, 3.0]) * 4.493)
    );
}

#[test]
fn mismatched_shapes_are_reported() {
    let mut q = Quiver::new();
    q.add_edge(s("x"), s("y"), s("e"));
    q.add_edge(s("y"), s("z"), s("f"));
    let q = Arc::new(q);
    let dim = vec![(s("x"), 1), (s("y"), 2), (s("z"), 3)];
    let mut rep: QuiverRep<Mat, fn(usize) -> Mat, true> =
        QuiverRep::new_zero_rep(q, dim, |r: usize, c: usize| Mat::zeros(r, c), Mat::identity as fn(usize) -> Mat);
    // The 3 x 3 matrix of f cannot follow the 2 x 1 matrix of e.
    rep.set_edge_rep(&s("f"), Mat::zeros(3, 3));
    assert!(rep.mat_from_path(&word(&["e", "f"])).is_err());
}

fn word(labels: &[&str]) -> nonempty::NonEmpty<String> {
    nonempty::NonEmpty::from_vec(labels.iter().map(|l| l.to_string()).collect()).unwrap()
}

/// A real coefficient.
#[derive(Clone, Copy, Debug, PartialEq)]
struct Real(f64);

impl std::ops::Add for Real {
    type Output = Real;
    fn add(self, rhs: Real) -> Real {
        Real(self.0 + rhs.0)
    }
}

impl std::ops::Sub for Real {
    type Output = Real;
    fn sub(self, rhs: Real) -> Real {
        Real(self.0 - rhs.0)
    }
}

impl std::ops::Mul for Real {
    type Output = Real;
    fn mul(self, rhs: Real) -> Real {
        Real(self.0 * rhs.0)
    }
}

impl std::ops::Neg for Real {
    type Output = Real;
    fn neg(self) -> Real {
        Real(-self.0)
    }
}

/// A real matrix of any shape; products and sums of mismatched shapes are refused.
#[derive(Clone, Debug, PartialEq)]
struct Mat(DMatrix<f64>);

impl Mat {
    fn zeros(r: usize, c: usize) -> Mat {
        Mat(DMatrix::zeros(r, c))
    }

    fn identity(n: usize) -> Mat {
        Mat(DMatrix::identity(n, n))
    }

    fn shape(&self) -> (usize, usize) {
        self.0.shape()
    }
}

impl std::ops::Add for Mat {
    type Output = Mat;
    fn add(self, rhs: Mat) -> Mat {
        Mat(self.0 + rhs.0)
    }
}

impl std::ops::Mul<Real> for Mat {
    type Output = Mat;
    fn mul(self, rhs: Real) -> Mat {
        Mat(self.0 * rhs.0)
    }
}

impl CheckedMul for Mat {
    type MultiplicationError = ShapeMismatch;

    fn spec_mul_refused(&self, rhs: &Self) -> bool {
        CheckedMul::will_error(self, rhs)
    }

    fn spec_mul_allowed(&self, _rhs: &Self) -> bool {
        true
    }

    fn will_error(&self, rhs: &Self) -> bool {
        self.shape().1 != rhs.shape().0
    }

    fn checked_mul(self, rhs: Self) -> Result<Self, ShapeMismatch> {
        if CheckedMul::will_error(&self, &rhs) {
            Err(ShapeMismatch { lhs: self.shape(), rhs: rhs.shape() })
        } else {
            Ok(Mat(self.0 * rhs.0))
        }
    }
}

impl CheckedMulAssign for Mat {
    type MultiplicationError = ShapeMismatch;

    fn spec_mul_assign_refused(&self, rhs: &Self) -> bool {
        self.shape().1 != rhs.shape().0
    }

    fn spec_mul_assign_allowed(&self, _rhs: &Self) -> bool {
        true
    }

    fn obeys_mul_assign_spec() -> bool {
        true
    }

    fn spec_mul_assign_result(&self, rhs: &Self) -> Self {
        Mat(&self.0 * &rhs.0)
    }

    fn will_error(&self, rhs: &Self) -> bool {
        self.shape().1 != rhs.shape().0
    }

    fn checked_mul_assign(&mut self, rhs: Self) -> Result<(), ShapeMismatch> {
        if CheckedMulAssign::will_error(self, &rhs) {
            Err(ShapeMismatch { lhs: self.shape(), rhs: rhs.shape() })
        } else {
            self.0 = &self.0 * rhs.0;
            Ok(())
        }
    }
}

impl ChainMultiplyable for Mat {
    fn obeys_chain_spec() -> bool {
        true
    }

    fn spec_chain_allowed(&self, _then_this: &Self) -> bool {
        true
    }

    fn spec_composes(&self, then_this: &Self) -> bool {
        then_this.shape().1 == self.shape().0
    }

    fn spec_then(&self, then_this: &Self) -> Self {
        Mat(&then_this.0 * &self.0)
    }

    fn mul_two(self, then_this: Self) -> Result<Self, ShapeMismatch> {
        if then_this.shape().1 == self.shape().0 {
            Ok(Mat(then_this.0 * self.0))
        } else {
            Err(ShapeMismatch { lhs: self.shape(), rhs: then_this.shape() })
        }
    }
}

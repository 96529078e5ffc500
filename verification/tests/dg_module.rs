use nalgebra::DMatrix;
use quiver_algebra::{
    BasisElt, ChainMultiplyable, CheckedMul, CheckedMulAssign, DGModule, GradedDifferentialQuiver, PathAlgebra, Quiver,
    QuiverRep, ShapeMismatch,
};
use std::sync::Arc;

fn s(x: &str) -> String {
    x.to_string()
}

fn zeros_of(n: usize) -> Mat {
    Mat::zeros(n, n)
}

fn is_zero(m: &Mat) -> bool {
    m.0.iter().all(|&x| x.abs() < 1e-10)
}

fn close(a: &Mat, b: &Mat) -> bool {
    a.shape() == b.shape() && (a.0.clone() - &b.0).abs().max() < 1e-10
}

/// `u --a--> v` with dimensions 1 and 2, `rho(a) = [[1],[1]]`,
/// `d_M_u = 0` and `d_M_v = [[0,0],[1,0]]`.
fn two_vertex_module() -> DGModule<Mat, fn(usize) -> Mat, true> {
    let mut q = Quiver::new();
    q.add_edge(s("u"), s("v"), s("a"));
    let q_arc = Arc::new(q);
    let rho_a = Mat(DMatrix::from_vec(2, 1, vec![1.0_f64, 1.0]));
    let rep: QuiverRep<Mat, fn(usize) -> Mat, true> = QuiverRep::new(q_arc, vec![(s("a"), rho_a)], vec![(s("u"), 1usize), (s("v"), 2usize)], zeros_of as fn(usize) -> Mat)
        .ok()
        .unwrap();
    let d_v = Mat(DMatrix::from_vec(2, 2, vec![0.0, 1.0, 0.0, 0.0]));
    let d_u = Mat(DMatrix::from_vec(1, 1, vec![0.0]));
    DGModule::new(rep, vec![(s("u"), d_u), (s("v"), d_v)], Some(is_zero)).ok().unwrap()
}

// Gauge: g_u = [[2]], g_u^-1 = [[1/2]]; g_v = diag(2,3), g_v^-1 = diag(1/2, 1/3).
// mul_two(A,B) = B·A, so the chain is g·M·g^-1:
//   rho(a)' = g_v · rho(a) · g_u^-1 = [[1],[3/2]]
//   d_M_v' = g_v · d_M_v · g_v^-1 = [[0,0],[3/2,0]]
//   d_M_u' = [[0]]  (unchanged)
#[test]
fn gauge_transform_two_vertex_arrow() {
    let mut module = two_vertex_module();
    let g_u_inv = Mat(DMatrix::from_vec(1, 1, vec![0.5]));
    let g_u = Mat(DMatrix::from_vec(1, 1, vec![2.0]));
    let g_v = Mat(DMatrix::from_vec(2, 2, vec![2.0, 0.0, 0.0, 3.0]));
    let g_v_inv = Mat(DMatrix::from_vec(2, 2, vec![0.5, 0.0, 0.0, 1.0 / 3.0]));
    let gauge = vec![(s("u"), (g_u_inv, g_u)), (s("v"), (g_v_inv, g_v))];
    assert!(module.gauge_transform(&gauge).is_ok(), "gauge transform succeeds");

    let expected_rho = Mat(DMatrix::from_vec(2, 1, vec![1.0, 1.5]));
    let actual_rho = module.rep().get_edge_rep(&s("a")).unwrap();
    assert!(close(actual_rho, &expected_rho), "rho(a)' wrong: got {actual_rho:?}");

    let actual_du = module.vertex_differential(&s("u")).unwrap();
    assert!(is_zero(actual_du), "d_M_u should stay zero");

    let expected_dv = Mat(DMatrix::from_vec(2, 2, vec![0.0, 1.5, 0.0, 0.0]));
    let actual_dv = module.vertex_differential(&s("v")).unwrap();
    assert!(close(actual_dv, &expected_dv), "d_M_v' wrong: got {actual_dv:?}");
}

#[test]
fn gauge_of_mismatched_shape_is_refused() {
    let mut module = two_vertex_module();
    // g_v of the wrong size cannot conjugate d_M_v
    let g_v = Mat(DMatrix::from_vec(1, 1, vec![2.0]));
    let g_v_inv = Mat(DMatrix::from_vec(1, 1, vec![0.5]));
    assert!(module.gauge_transform(&vec![(s("v"), (g_v_inv, g_v))]).is_err());
}

#[test]
fn squares_that_are_not_zero_are_reported() {
    let mut q = Quiver::new();
    q.add_edge(s("u"), s("v"), s("a"));
    let q_arc = Arc::new(q);
    let rep: QuiverRep<Mat, fn(usize) -> Mat, true> = QuiverRep::new(
        q_arc,
        vec![(s("a"), Mat::zeros(2, 1))],
        vec![(s("u"), 1usize), (s("v"), 2usize)],
        zeros_of as fn(usize) -> Mat,
    )
    .ok()
    .unwrap();
    let swap = Mat(DMatrix::from_vec(2, 2, vec![0.0, 1.0, 1.0, 0.0]));
    let d_u = Mat::zeros(1, 1);
    let diffs = vec![(s("u"), d_u.clone()), (s("v"), swap.clone())];
    let refused = DGModule::new(rep, diffs, Some(is_zero));
    assert_eq!(refused.err(), Some(vec![s("v")]));

    let mut q = Quiver::new();
    q.add_edge(s("u"), s("v"), s("a"));
    let rep: QuiverRep<Mat, fn(usize) -> Mat, true> = QuiverRep::new(
        Arc::new(q),
        vec![(s("a"), Mat::zeros(2, 1))],
        vec![(s("u"), 1usize), (s("v"), 2usize)],
        zeros_of as fn(usize) -> Mat,
    )
    .ok()
    .unwrap();
    let unchecked = DGModule::new(rep, vec![(s("u"), d_u), (s("v"), swap)], None::<fn(&Mat) -> bool>).ok().unwrap();
    assert_eq!(unchecked.differential_squares_zero(is_zero), vec![s("v")]);
    assert!(unchecked.vertex_differential(&s("w")).is_none());
}

/// A real coefficient.
#[derive(Clone, Copy, Debug, PartialEq)]
struct Real(f64);

impl std::ops::Add for Real {
    type Output = Real;
    fn add(self, rhs: Real) -> Real {
        Real(self.0 + rhs.0)
    }
}

impl std::ops::Sub for Real {
    type Output = Real;
    fn sub(self, rhs: Real) -> Real {
        Real(self.0 - rhs.0)
    }
}

impl std::ops::Mul for Real {
    type Output = Real;
    fn mul(self, rhs: Real) -> Real {
        Real(self.0 * rhs.0)
    }
}

impl std::ops::Neg for Real {
    type Output = Real;
    fn neg(self) -> Real {
        Real(-self.0)
    }
}

fn close_pair(a: &Mat, b: &Mat) -> bool {
    close(a, b)
}

impl std::ops::Neg for Mat {
    type Output = Mat;
    fn neg(self) -> Mat {
        Mat(-self.0)
    }
}

/// `u --a--> v` with `rho(a) = [[1],[1]]`, `d_M_u = 0` and the given `d_M_v`,
/// over the graded quiver with `a` of degree `deg` and `d(a) = c a` where given.
fn leibniz_case(d_v: Mat, deg: i64, da: Option<f64>) -> Vec<String> {
    let mut q = Quiver::new();
    q.add_edge(s("u"), s("v"), s("a"));
    let q_arc = Arc::new(q);
    let rho_a = Mat(DMatrix::from_vec(2, 1, vec![1.0_f64, 1.0]));
    let rep: QuiverRep<Mat, fn(usize) -> Mat, true> = QuiverRep::new(
        q_arc.clone(),
        vec![(s("a"), rho_a)],
        vec![(s("u"), 1usize), (s("v"), 2usize)],
        zeros_of as fn(usize) -> Mat,
    )
    .ok()
    .unwrap();
    let module = DGModule::new(rep, vec![(s("u"), Mat::zeros(1, 1)), (s("v"), d_v)], None::<fn(&Mat) -> bool>)
        .ok()
        .unwrap();
    let differential = match da {
        Some(c) => vec![(s("a"), PathAlgebra::singleton(q_arc.clone(), BasisElt::create(&[s("a")]).unwrap(), Real(c)))],
        None => vec![],
    };
    let dga = GradedDifferentialQuiver::<Real, true>::new(q_arc, vec![(s("a"), deg)], differential);
    module.leibniz_compatible(&dga, close_pair)
}

#[test]
fn leibniz_holds_for_zero_differentials() {
    assert!(leibniz_case(Mat::zeros(2, 2), 0, None).is_empty());
    assert!(leibniz_case(Mat::zeros(2, 2), 1, None).is_empty());
}

#[test]
fn leibniz_fails_where_the_vertex_differential_does_not_commute() {
    let d_v = Mat(DMatrix::from_vec(2, 2, vec![0.0, 1.0, 0.0, 0.0]));
    assert_eq!(leibniz_case(d_v, 0, None), vec![s("a")]);
}

#[test]
fn leibniz_accounts_for_the_differential_of_the_arrow() {
    // d_M_v rho(a) = rho(a) = rho(d(a)) with d(a) = a and d_M_u = 0
    assert!(leibniz_case(Mat::identity(2), 0, Some(1.0)).is_empty());
    assert!(leibniz_case(Mat::identity(2), -1, Some(1.0)).is_empty());
    assert_eq!(leibniz_case(Mat::identity(2), 0, Some(2.0)), vec![s("a")]);
}

/// A real matrix of any shape; products and sums of mismatched shapes are refused.
#[derive(Clone, Debug, PartialEq)]
struct Mat(DMatrix<f64>);

impl Mat {
    fn zeros(r: usize, c: usize) -> Mat {
        Mat(DMatrix::zeros(r, c))
    }

    fn identity(n: usize) -> Mat {
        Mat(DMatrix::identity(n, n))
    }

    fn shape(&self) -> (usize, usize) {
        self.0.shape()
    }
}

impl std::ops::Add for Mat {
    type Output = Mat;
    fn add(self, rhs: Mat) -> Mat {
        Mat(self.0 + rhs.0)
    }
}

impl std::ops::Mul<Real> for Mat {
    type Output = Mat;
    fn mul(self, rhs: Real) -> Mat {
        Mat(self.0 * rhs.0)
    }
}

impl CheckedMul for Mat {
    type MultiplicationError = ShapeMismatch;

    fn spec_mul_refused(&self, rhs: &Self) -> bool {
        CheckedMul::will_error(self, rhs)
    }

    fn spec_mul_allowed(&self, _rhs: &Self) -> bool {
        true
    }

    fn will_error(&self, rhs: &Self) -> bool {
        self.shape().1 != rhs.shape().0
    }

    fn checked_mul(self, rhs: Self) -> Result<Self, ShapeMismatch> {
        if CheckedMul::will_error(&self, &rhs) {
            Err(ShapeMismatch { lhs: self.shape(), rhs: rhs.shape() })
        } else {
            Ok(Mat(self.0 * rhs.0))
        }
    }
}

impl CheckedMulAssign for Mat {
    type MultiplicationError = ShapeMismatch;

    fn spec_mul_assign_refused(&self, rhs: &Self) -> bool {
        self.shape().1 != rhs.shape().0
    }

    fn spec_mul_assign_allowed(&self, _rhs: &Self) -> bool {
        true
    }

    fn obeys_mul_assign_spec() -> bool {
        true
    }

    fn spec_mul_assign_result(&self, rhs: &Self) -> Self {
        Mat(&self.0 * &rhs.0)
    }

    fn will_error(&self, rhs: &Self) -> bool {
        self.shape().1 != rhs.shape().0
    }

    fn checked_mul_assign(&mut self, rhs: Self) -> Result<(), ShapeMismatch> {
        if CheckedMulAssign::will_error(self, &rhs) {
            Err(ShapeMismatch { lhs: self.shape(), rhs: rhs.shape() })
        } else {
            self.0 = &self.0 * rhs.0;
            Ok(())
        }
    }
}

impl ChainMultiplyable for Mat {
    fn obeys_chain_spec() -> bool {
        true
    }

    fn spec_chain_allowed(&self, _then_this: &Self) -> bool {
        true
    }

    fn spec_composes(&self, then_this: &Self) -> bool {
        then_this.shape().1 == self.shape().0
    }

    fn spec_then(&self, then_this: &Self) -> Self {
        Mat(&then_this.0 * &self.0)
    }

    fn mul_two(self, then_this: Self) -> Result<Self, ShapeMismatch> {
        if then_this.shape().1 == self.shape().0 {
            Ok(Mat(then_this.0 * self.0))
        } else {
            Err(ShapeMismatch { lhs: self.shape(), rhs: then_this.shape() })
        }
    }
}

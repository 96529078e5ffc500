use quiver_algebra::{
    CheckedArithError, ConeError, DegreeLabel, DiagonalBimoduleError, Field, HasHomologicalDegree, NonMonomialIdeal,
    PeirceElement, ShapeMismatch, contains_subword, contains_subword_v2, rank,
};

#[derive(Clone, Copy, Debug, PartialEq)]
struct Real(f64);

impl std::ops::Add for Real {
    type Output = Real;
    fn add(self, rhs: Real) -> Real {
        Real(self.0 + rhs.0)
    }
}

impl std::ops::Sub for Real {
    type Output = Real;
    fn sub(self, rhs: Real) -> Real {
        Real(self.0 - rhs.0)
    }
}

impl std::ops::Mul for Real {
    type Output = Real;
    fn mul(self, rhs: Real) -> Real {
        Real(self.0 * rhs.0)
    }
}

impl std::ops::Neg for Real {
    type Output = Real;
    fn neg(self) -> Real {
        Real(-self.0)
    }
}

impl std::ops::AddAssign for Real {
    fn add_assign(&mut self, rhs: Real) {
        self.0 += rhs.0;
    }
}

impl std::ops::MulAssign for Real {
    fn mul_assign(&mut self, rhs: Real) {
        self.0 *= rhs.0;
    }
}

impl Field for Real {
    fn spec_zero() -> Self {
        Real(0.0)
    }
    fn spec_one() -> Self {
        Real(1.0)
    }
    fn zero() -> Self {
        Real(0.0)
    }
    fn one() -> Self {
        Real(1.0)
    }
    fn obeys_inv_spec() -> bool {
        true
    }
    fn spec_inv(self) -> Self {
        Real(1.0 / self.0)
    }
    fn inv(self) -> Self {
        Real(1.0 / self.0)
    }
}

fn m(rows: &[&[f64]]) -> Vec<Vec<Real>> {
    rows.iter().map(|r| r.iter().map(|x| Real(*x)).collect()).collect()
}

#[test]
fn rank_of_small_matrices() {
    assert_eq!(rank::<Real>(&[]), 0);
    assert_eq!(rank(&m(&[&[0.0, 0.0], &[0.0, 0.0]])), 0);
    assert_eq!(rank(&m(&[&[1.0, 2.0], &[2.0, 4.0]])), 1);
    assert_eq!(rank(&m(&[&[1.0, 2.0], &[3.0, 4.0]])), 2);
    // the d^0 of A3 with relation ab: rank 2
    assert_eq!(rank(&m(&[&[-1.0, 1.0, 0.0], &[0.0, -1.0, 1.0]])), 2);
    assert_eq!(rank(&m(&[&[0.0, 1.0], &[1.0, 0.0], &[1.0, 1.0]])), 2);
    assert_eq!(rank(&m(&[&[0.0, 1.0], &[0.0, 2.0]])), 1);
    assert_eq!(rank(&m(&[&[0.0, 1.0], &[1.0, 0.0]])), 2);
    assert_eq!(rank(&m(&[&[1.0, 0.0, 0.0], &[0.0, 1.0, 0.0], &[0.0, 0.0, 1.0]])), 3);
}

#[test]
fn field_zero_test() {
    assert!(Real(0.0).is_zero());
    assert!(!Real(2.0).is_zero());
}

#[test]
fn checked_arith_errors_wrap() {
    let e: CheckedArithError<i64> = CheckedArithError::from_add(());
    assert!(matches!(e, CheckedArithError::AddError(())));
    let e: CheckedArithError<i64> = CheckedArithError::from_mul_assign(());
    assert!(matches!(e, CheckedArithError::MulAssignError(())));
    let e: CheckedArithError<i64> = CheckedArithError::from_add_assign(());
    assert!(matches!(e, CheckedArithError::AddAssignError(())));
    let e: CheckedArithError<i64> = CheckedArithError::from_mul(());
    assert!(matches!(e, CheckedArithError::MulError(())));
}

#[test]
fn contains_subword_cases() {
    assert!(contains_subword(&[1, 2, 3, 4], &[2, 3]));
    assert!(!contains_subword(&[1, 2, 3, 4], &[3, 2]));
    assert!(!contains_subword(&[1, 2], &[1, 2, 3]));
    assert!(contains_subword(&[1, 2, 3], &[1, 2, 3]));
    assert!(contains_subword(&["a", "b"], &["b"]));
}

#[test]
fn contains_subword_v2_cases() {
    let s = |x: &str| x.to_string();
    let word = nonempty::NonEmpty::from_vec(vec![s("a"), s("b"), s("c"), s("b")]).unwrap();
    assert!(contains_subword_v2(&word, &[]));
    assert!(contains_subword_v2(&word, &[s("a"), s("b")]));
    assert!(contains_subword_v2(&word, &[s("c"), s("b")]));
    assert!(contains_subword_v2(&word, &[s("b")]));
    assert!(!contains_subword_v2(&word, &[s("b"), s("a")]));
    assert!(!contains_subword_v2(&word, &[s("a"), s("c")]));
    assert!(contains_subword_v2(&word, &[s("a"), s("b"), s("c"), s("b")]));
    assert!(!contains_subword_v2(&word, &[s("a"), s("b"), s("c"), s("b"), s("a")]));
}

#[test]
fn degree_labels() {
    let a = DegreeLabel::new_deg_zero("a".to_string());
    assert_eq!(a.homological_degree(), Ok(0));
    assert_eq!(a.name(), "a");
    let w = DegreeLabel::new("w".to_string(), -2);
    assert_eq!(w.homological_degree(), Ok(-2));
    let dagger = DegreeLabel::dagger(|n: &String| format!("{}*", n));
    let a_star = dagger(&a);
    assert_eq!(a_star.name(), "a*");
    assert_eq!(a_star.homological_degree(), Ok(-1));
    // deg(a) + deg(a*) = -1, and taking the adjoint twice gives the degree back
    let x = DegreeLabel::new("x".to_string(), 5);
    let x_star = dagger(&x);
    assert_eq!(x.homological_degree().unwrap() + x_star.homological_degree().unwrap(), -1);
    assert_eq!(dagger(&x_star).homological_degree(), Ok(5));
}

#[test]
fn peirce_elements() {
    let z: PeirceElement<&str, Real> = PeirceElement::zero("v", "w", 3);
    assert!(z.is_zero());
    assert_eq!(z.coords, vec![Real(0.0); 3]);
    let mut e1 = PeirceElement::basis_vec("v", "w", 3, 1);
    assert!(!e1.is_zero());
    assert_eq!(e1.coords, vec![Real(0.0), Real(1.0), Real(0.0)]);
    let e2 = PeirceElement::basis_vec("v", "w", 3, 2);
    e1.add_assign(&e2);
    assert_eq!(e1.coords, vec![Real(0.0), Real(1.0), Real(1.0)]);
    e1.scale_assign(&Real(3.0));
    assert_eq!(e1.coords, vec![Real(0.0), Real(3.0), Real(3.0)]);
    e1.scale_assign(&Real(0.0));
    assert!(e1.is_zero());
    assert_eq!(e1.left, "v");
    assert_eq!(e1.right, "w");
}

#[test]
fn error_values() {
    let e = ConeError::DimensionMismatch { expected: 2, found: 3 };
    assert_eq!(e, ConeError::DimensionMismatch { expected: 2, found: 3 });
    let s = ShapeMismatch { lhs: (1, 2), rhs: (3, 4) };
    assert_eq!(s.lhs, (1, 2));
    let d = DiagonalBimoduleError::TooManyPaths { max_paths: 4 };
    assert_eq!(d.clone(), d);
    let n = DiagonalBimoduleError::NonMonomialRelations(NonMonomialIdeal::IdempotentRelation { relation_index: 0 });
    assert_ne!(n, d);
}

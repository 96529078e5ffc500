use quiver_algebra::{
    Binomial, CoordinateRingError, CoordinateRingPresentation, CoordinateRingRepr, DefaultRepr, Monomial, collect_failures,
    kernel_to_binomials,
};

/// Elements of the coordinate ring of a torus, as exponent vectors of two
/// coordinates: multiplication adds exponents.
#[derive(Clone, Debug, PartialEq, Eq)]
struct Exps([i64; 2]);

impl CoordinateRingRepr for Exps {
    fn obeys_repr_spec() -> bool {
        true
    }
    fn spec_raise_power(&self, power: u32) -> Self {
        self.raise_power(power)
    }
    fn spec_multiply(self, other: Self) -> Self {
        self.multiply(other)
    }
    fn raise_power(&self, power: u32) -> Self {
        Exps([self.0[0] * power as i64, self.0[1] * power as i64])
    }
    fn multiply(self, other: Self) -> Self {
        Exps([self.0[0] + other.0[0], self.0[1] + other.0[1]])
    }
}

fn mono<const N: usize>(e: [u32; N]) -> Monomial<N> {
    Monomial { exponents: e }
}

fn bin<const N: usize>(p: [u32; N], n: [u32; N]) -> Binomial<N> {
    Binomial { positive: mono(p), negative: mono(n) }
}

/// The conifold-like cone: x0 = (1,0), x1 = (0,1), x2 = (1,1), with x0 x1 = x2.
fn presentation() -> CoordinateRingPresentation<3, Exps> {
    CoordinateRingPresentation::new(
        vec![bin([1, 1, 0], [0, 0, 1])],
        [Exps([1, 0]), Exps([0, 1]), Exps([1, 1])],
    )
}

#[test]
fn check_accepts_true_relations() {
    assert!(presentation().check().is_ok());
}

#[test]
fn check_lists_failing_generators() {
    let p = CoordinateRingPresentation::new(
        vec![bin([1, 1, 0], [0, 0, 1]), bin([2, 0, 0], [0, 0, 1])],
        [Exps([1, 0]), Exps([0, 1]), Exps([1, 1])],
    );
    let failures = p.check().err().unwrap();
    assert_eq!(failures.len(), 1);
    assert_eq!(failures[0].positive.exponents, [2, 0, 0]);
}

#[test]
fn collect_failures_keeps_disagreeing_generators_in_order() {
    let gens = vec![bin([1, 0], [0, 1]), bin([2, 0], [0, 1]), bin([0, 3], [1, 0])];
    assert!(collect_failures(&gens, &[true, true, true]).is_ok());
    let f = collect_failures(&gens, &[true, false, false]).err().unwrap();
    assert_eq!(f.len(), 2);
    assert_eq!(f[0].positive.exponents, [2, 0]);
    assert_eq!(f[1].positive.exponents, [0, 3]);
}

#[test]
fn reduce_function_replaces_larger_side() {
    let p = presentation();
    // larger side of x0 x1 - x2 is x0 x1 (degree 2): x0^2 x1 -> x0 x2
    let out = p.reduce_function_helper(vec![(5i32, mono([2, 1, 0])), (7i32, mono([0, 0, 4]))]);
    assert_eq!(out.len(), 2);
    assert_eq!(out[0].0, 5);
    assert_eq!(out[0].1.exponents, [1, 0, 1]);
    assert_eq!(out[1].0, 7);
    assert_eq!(out[1].1.exponents, [0, 0, 4]);
    let evaluated = p.reduce_function(vec![(1i32, mono([2, 1, 0]))]);
    assert_eq!(evaluated, vec![(1, Exps([2, 1]))]);
}

#[test]
fn reducing_twice_changes_nothing() {
    let p = presentation();
    let once = p.reduce_function_helper(vec![(1i32, mono([3, 2, 0]))]);
    let again = p.reduce_function_helper(vec![(1i32, mono(once[0].1.exponents))]);
    assert_eq!(once[0].1.exponents, again[0].1.exponents);
    assert_eq!(once[0].1.exponents, [1, 0, 2]);
}

#[test]
fn combine_merges_generators() {
    let a = presentation();
    let b = CoordinateRingPresentation::new(
        vec![bin([2, 2, 0], [0, 0, 2])],
        [Exps([1, 0]), Exps([0, 1]), Exps([1, 1])],
    );
    let c = a.combine(b, true).ok().unwrap();
    assert!(c.check().is_ok());
}

#[test]
fn combine_refuses_different_variables_when_checking() {
    let a = presentation();
    let b = CoordinateRingPresentation::new(vec![], [Exps([1, 0]), Exps([0, 1]), Exps([2, 1])]);
    assert!(a.combine(b, true).is_err());
    let a = presentation();
    let b = CoordinateRingPresentation::new(vec![], [Exps([1, 0]), Exps([0, 1]), Exps([2, 1])]);
    assert!(a.combine(b, false).is_ok());
}

#[test]
fn extend_irrelevant_appends_variables() {
    let p = presentation();
    let e: CoordinateRingPresentation<4, Exps> = p.extend_irrelevant::<1, 4>(&[Exps([5, 5])], true);
    assert!(e.check().is_ok());
}

#[test]
fn extend_irrelevant_prepends_variables_and_shifts_exponents() {
    // x0 x2 = x1^2 for x0 = (1,-1), x1 = (1,0), x2 = (1,1).
    let p = CoordinateRingPresentation::new(
        vec![bin([1, 0, 1], [0, 2, 0])],
        [Exps([1, -1]), Exps([1, 0]), Exps([1, 1])],
    );
    let e: CoordinateRingPresentation<4, Exps> = p.extend_irrelevant::<1, 4>(&[Exps([0, 0])], false);
    assert_eq!(e.generators.len(), 1);
    assert_eq!(e.generators[0].positive.exponents, [0, 1, 0, 1]);
    assert_eq!(e.generators[0].negative.exponents, [0, 0, 2, 0]);
    assert!(e.check().is_ok());
    let a: CoordinateRingPresentation<4, Exps> = presentation().extend_irrelevant::<1, 4>(&[Exps([5, 5])], true);
    assert_eq!(a.generators[0].positive.exponents, [1, 1, 0, 0]);
    assert_eq!(a.generators[0].negative.exponents, [0, 0, 1, 0]);
}

#[test]
fn product_pads_the_second_factor_in_front() {
    let a = CoordinateRingPresentation::new(vec![bin([2, 0], [0, 1])], [Exps([1, 0]), Exps([2, 0])]);
    let b = CoordinateRingPresentation::new(vec![bin([1], [1])], [Exps([0, 1])]);
    let p: CoordinateRingPresentation<3, Exps> = a.product::<1, 3>(b).ok().unwrap();
    assert_eq!(p.generators.len(), 2);
    assert_eq!(p.generators[0].positive.exponents, [2, 0, 0]);
    assert_eq!(p.generators[0].negative.exponents, [0, 1, 0]);
    assert_eq!(p.generators[1].positive.exponents, [0, 0, 1]);
    assert_eq!(p.generators[1].negative.exponents, [0, 0, 1]);
    assert!(p.check().is_ok());
}

#[test]
fn product_of_presentations() {
    let a = CoordinateRingPresentation::new(vec![bin([2], [2])], [Exps([1, 0])]);
    let b = CoordinateRingPresentation::new(vec![bin([1], [1])], [Exps([0, 1])]);
    let p: CoordinateRingPresentation<2, Exps> = a.product::<1, 2>(b).ok().unwrap();
    assert!(p.check().is_ok());
    let a = CoordinateRingPresentation::new(vec![], [Exps([1, 0])]);
    let b = CoordinateRingPresentation::new(vec![], [Exps([1, 0])]);
    assert!(a.product::<1, 2>(b).is_err());
}

#[test]
fn conversion_maps_variables() {
    let p = presentation();
    let q = p.conversion(|e: Exps| Exps([e.0[1], e.0[0]]));
    assert!(q.check().is_ok());
}

#[test]
fn kernel_vectors_become_binomials() {
    let out = kernel_to_binomials::<3>(vec![[2, 2, -2], [0, 0, 0], [-1, 0, 0], [3, -6, 9]]);
    assert_eq!(out.len(), 2);
    assert_eq!(out[0].positive.exponents, [1, 1, 0]);
    assert_eq!(out[0].negative.exponents, [0, 0, 1]);
    assert_eq!(out[1].positive.exponents, [1, 0, 3]);
    assert_eq!(out[1].negative.exponents, [0, 2, 0]);
}

#[test]
fn coordinate_ring_errors() {
    let e = CoordinateRingError::DimensionMismatch { expected: 2, actual: 3 };
    assert_ne!(e, CoordinateRingError::NotAffine);
    assert_eq!(format!("{:?}", CoordinateRingError::NonSimplicialCone), "NonSimplicialCone");
}

#[test]
fn default_repr_adds_and_scales_exponents() {
    let x = DefaultRepr::from_vec(vec![1, 2]);
    assert_eq!(x.raise_power(3), DefaultRepr::from_vec(vec![3, 6]));
    assert_eq!(x.clone().multiply(DefaultRepr::from_vec(vec![5, -2])), DefaultRepr::from_vec(vec![6, 0]));
    assert_eq!(x.raise_power(0), DefaultRepr::from_vec(vec![0, 0]));
    let p = CoordinateRingPresentation::new(
        vec![bin([1, 0, 1], [0, 2, 0])],
        [DefaultRepr::from_vec(vec![1, -1]), DefaultRepr::from_vec(vec![1, 0]), DefaultRepr::from_vec(vec![1, 1])],
    );
    assert!(p.check().is_ok());
}

use quiver_algebra::{ConeError, RationalPolyhedralCone, primitive_vector};

fn gens(c: &RationalPolyhedralCone) -> Vec<Vec<i64>> {
    c.view_generators().clone()
}

#[test]
fn primitive_vector_divides_by_gcd_and_keeps_signs() {
    assert_eq!(primitive_vector(&vec![4, -6, 0]), Some(vec![2, -3, 0]));
    assert_eq!(primitive_vector(&vec![0, 0]), None);
    assert_eq!(primitive_vector(&vec![i64::MIN]), Some(vec![-1]));
    assert_eq!(primitive_vector(&vec![i64::MIN, 0]), Some(vec![-1, 0]));
    assert_eq!(primitive_vector(&vec![3, 5]), Some(vec![3, 5]));
}

#[test]
fn new_normalises_and_sorts_rays() {
    let c = RationalPolyhedralCone::new(vec![vec![2, 4], vec![1, 0]], None, None, None).expect("valid rays");
    assert_eq!(gens(&c), vec![vec![1, 0], vec![1, 2]]);
    assert_eq!(c.ambient_dim, 2);
    assert_eq!(c.view_spanning_dim(), None);
    assert_eq!(c.num_rays(), Err(ConeError::NotMinimallyPresented));
    assert_eq!(c.view_facets_idces(), None);
}

#[test]
fn new_rejects_empty_and_mismatched_rays() {
    assert_eq!(RationalPolyhedralCone::new(vec![], None, None, None), Err(ConeError::EmptyGeneratorList));
    assert_eq!(
        RationalPolyhedralCone::new(vec![vec![1, 0], vec![0, 1], vec![1, 0, 0]], None, None, None),
        Err(ConeError::DimensionMismatch { expected: 2, found: 3 })
    );
}

#[test]
fn single_generator_fixes_spanning_dimension() {
    assert_eq!(
        RationalPolyhedralCone::new(vec![vec![3, 3], vec![1, 1]], None, Some(2), None),
        Err(ConeError::DimensionMismatch { expected: 1, found: 2 })
    );
    let c = RationalPolyhedralCone::new(vec![vec![3, 3], vec![1, 1]], None, Some(1), None).expect("valid rays");
    assert_eq!(gens(&c), vec![vec![1, 1]]);
    assert_eq!(c.view_spanning_dim(), Some(1));
    assert_eq!(c.num_rays(), Ok(1));
}

#[test]
fn irredundant_hint_keeps_repeated_rays() {
    let c = RationalPolyhedralCone::new(vec![vec![1, 1], vec![2, 2], vec![0, 1]], Some(true), None, None)
        .expect("valid rays");
    assert_eq!(gens(&c), vec![vec![0, 1], vec![1, 1], vec![1, 1]]);
    assert_eq!(c.num_rays(), Ok(3));
    let d = RationalPolyhedralCone::new(vec![vec![1, 1], vec![2, 2], vec![0, 1]], Some(false), None, None)
        .expect("valid rays");
    assert_eq!(gens(&d), vec![vec![0, 1], vec![1, 1]]);
    assert_eq!(d.num_rays(), Err(ConeError::NotMinimallyPresented));
}

#[test]
fn zero_rays_are_dropped_with_the_facets() {
    let c = RationalPolyhedralCone::new(vec![vec![0, 0], vec![3, 0], vec![0, -2]], None, None, None)
        .expect("valid rays");
    assert_eq!(gens(&c), vec![vec![0, -1], vec![1, 0]]);
}

#[test]
fn facets_follow_the_sorted_generators() {
    let c = RationalPolyhedralCone::new(
        vec![vec![1, 0], vec![0, 1]],
        Some(true),
        Some(2),
        Some(vec![vec![0], vec![1], vec![1, 0, 0]]),
    )
    .expect("valid rays");
    assert_eq!(gens(&c), vec![vec![0, 1], vec![1, 0]]);
    assert_eq!(c.view_facets_idces(), Some(&vec![vec![0], vec![0, 1], vec![1]]));
    assert_eq!(c.variety_dim(), Ok(2));
}

#[test]
fn facets_of_sorted_rays_are_only_tidied() {
    let c = RationalPolyhedralCone::new(
        vec![vec![0, 1], vec![1, 0]],
        None,
        None,
        Some(vec![vec![1, 1], vec![0]]),
    )
    .expect("valid rays");
    assert_eq!(c.view_facets_idces(), Some(&vec![vec![0], vec![1]]));
}

#[test]
fn cone_does_not_depend_on_ray_order() {
    let a = RationalPolyhedralCone::new(vec![vec![1, 0], vec![0, 1], vec![2, 0]], None, None, None)
        .expect("valid rays");
    let b = RationalPolyhedralCone::new(vec![vec![0, 3], vec![1, 0]], None, None, None).expect("valid rays");
    assert_eq!(gens(&a), gens(&b));
    assert_eq!(a, b);
}

#[test]
fn zero_cone_and_variety_dimension() {
    let z = RationalPolyhedralCone::zero_cone(3);
    assert!(gens(&z).is_empty());
    assert_eq!(z.ambient_dim, 3);
    assert_eq!(z.view_spanning_dim(), Some(0));
    assert_eq!(z.num_rays(), Ok(0));
    assert_eq!(z.view_facets_idces(), Some(&vec![]));
    assert_eq!(z.variety_dim(), Err(()));
}

#[test]
fn combinatorial_intersection_keeps_shared_rays() {
    let a = RationalPolyhedralCone::new(vec![vec![1, 0], vec![1, 1]], Some(true), None, None).expect("valid");
    let b = RationalPolyhedralCone::new(vec![vec![1, 1], vec![0, 1]], Some(true), None, None).expect("valid");
    let i = a.combinatorial_intersection(&b).expect("both minimal");
    assert_eq!(gens(&i), vec![vec![1, 1]]);
    assert_eq!(i.view_spanning_dim(), Some(1));
    let c = RationalPolyhedralCone::new(vec![vec![0, 1]], None, None, None).expect("valid");
    let e = a.combinatorial_intersection(&c).expect("both minimal");
    assert!(gens(&e).is_empty());
    let n = RationalPolyhedralCone::new(vec![vec![1, 0], vec![0, 1]], None, None, None).expect("valid");
    assert_eq!(a.combinatorial_intersection(&n), Err(ConeError::NotMinimallyPresented));
    let far = RationalPolyhedralCone::new(vec![vec![1, 0, 0]], None, None, None).expect("valid");
    assert_eq!(
        a.combinatorial_intersection(&far),
        Err(ConeError::DimensionMismatch { expected: 2, found: 3 })
    );
}

use quiver_algebra::{ConeError, RationalPolyhedralCone, ToricFan, ToricFanError};

fn e1_e2() -> RationalPolyhedralCone {
    RationalPolyhedralCone::new(vec![vec![1, 0], vec![0, 1]], Some(true), Some(2), Some(vec![vec![0], vec![1]]))
        .expect("e1 e2 Valid cone")
}

fn e1e2_e2() -> RationalPolyhedralCone {
    RationalPolyhedralCone::new(vec![vec![1, 1], vec![0, 1]], Some(true), Some(2), Some(vec![vec![0], vec![1]]))
        .expect("e1+e2 e2 Valid cone")
}

#[test]
fn one_cone_fan_knows_its_variety_dimension() {
    let c1 = e1_e2();
    assert_eq!(c1.ambient_dim, 2);
    assert_eq!(c1.num_rays(), Ok(2));
    assert_eq!(c1.variety_dim(), Ok(2));
    assert_eq!(c1.view_spanning_dim(), Some(2));
    let mut fan = ToricFan::new(2);
    assert_eq!(fan.ambient_dim, 2);
    assert_eq!(fan.count_cones(), 0);
    assert_eq!(fan.view_variety_dim(), None);
    assert!(fan.add_cone(c1, true).is_ok(), "Only one cone added never causes issue with intersections");
    assert_eq!(fan.count_cones(), 1);
    assert_eq!(fan.view_variety_dim(), Some(2));
}

#[test]
fn two_cone_fan_forgets_its_variety_dimension() {
    let mut fan = ToricFan::new(2);
    assert!(fan.add_cone(e1_e2(), true).is_ok());
    assert!(fan.add_cone(e1e2_e2(), false).is_ok());
    assert_eq!(fan.count_cones(), 2);
    assert_eq!(fan.view_variety_dim(), None);
    // the same cone again is not added twice
    assert!(fan.add_cone(e1_e2(), false).is_ok());
    assert_eq!(fan.count_cones(), 2);
    assert_eq!(fan.iter_cones()[1].view_generators(), &vec![vec![0, 1], vec![1, 1]]);
}

#[test]
fn cone_of_another_dimension_is_refused() {
    let mut fan = ToricFan::new(3);
    match fan.add_cone(e1_e2(), false) {
        Err(ToricFanError::ConeError(e)) => assert_eq!(e, ConeError::DimensionMismatch { expected: 3, found: 2 }),
        _ => panic!("expected a dimension mismatch"),
    }
    assert_eq!(fan.count_cones(), 0);
}

#[test]
fn global_support_cone_gathers_all_rays() {
    let empty = ToricFan::new(2);
    let z = empty.global_support_cone().ok().unwrap();
    assert!(z.view_generators().is_empty());

    let mut one = ToricFan::new(2);
    assert!(one.add_cone(e1_e2(), true).is_ok());
    assert_eq!(one.global_support_cone().ok().unwrap(), e1_e2());

    let mut two = ToricFan::new(2);
    assert!(two.add_cone(e1_e2(), true).is_ok());
    assert!(two.add_cone(e1e2_e2(), false).is_ok());
    let g = two.global_support_cone().ok().unwrap();
    assert_eq!(g.view_generators(), &vec![vec![0, 1], vec![1, 0], vec![1, 1]]);
    assert_eq!(g.num_rays(), Err(ConeError::NotMinimallyPresented));
}

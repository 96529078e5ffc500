use quiver_algebra::{BasisElt, GradedDifferentialQuiver, PathAlgebra, Quiver};
use std::sync::Arc;

fn path(labels: &[&str]) -> BasisElt {
    let v: Vec<String> = labels.iter().map(|s| s.to_string()).collect();
    BasisElt::create(&v).unwrap()
}

/// One vertex `v` with loops `x` (degree 0), `y1` and `y2` (degree -1),
/// and `d(y1) = d(y2) = x`.
fn one_vertex_dga() -> (Arc<Quiver>, GradedDifferentialQuiver<i64, true>) {
    let mut quiver = Quiver::new();
    quiver.add_vertex("v".to_string());
    for a in ["x", "y1", "y2"] {
        quiver.add_edge("v".to_string(), "v".to_string(), a.to_string());
    }
    let quiver_arc = Arc::new(quiver);
    let x_elt = PathAlgebra::singleton(quiver_arc.clone(), path(&["x"]), 1i64);
    let degrees = vec![("x".to_string(), 0i64), ("y1".to_string(), -1i64), ("y2".to_string(), -1i64)];
    let differential = vec![("y1".to_string(), x_elt.clone()), ("y2".to_string(), x_elt)];
    let dga = GradedDifferentialQuiver::new(quiver_arc.clone(), degrees, differential);
    (quiver_arc, dga)
}

#[test]
fn d_squared_zero_with_koszul_signs() {
    let (quiver_arc, dga) = one_vertex_dga();
    let x_elt = PathAlgebra::singleton(quiver_arc.clone(), path(&["x"]), 1i64);
    let zero = PathAlgebra::zero(quiver_arc.clone());

    // 1. d(y1) = x
    let y1_elt = PathAlgebra::singleton(quiver_arc.clone(), path(&["y1"]), 1i64);
    assert!(dga.apply_differential(&y1_elt) == x_elt);

    // 2. d²(y1) = d(x) = 0
    assert!(dga.apply_differential(&x_elt) == zero);

    // 3. d(y1·y2) = x·y2 - y1·x
    let y1_y2 = PathAlgebra::singleton(quiver_arc.clone(), path(&["y1", "y2"]), 1i64);
    let x_y2 = PathAlgebra::singleton(quiver_arc.clone(), path(&["x", "y2"]), 1i64);
    let y1_x = PathAlgebra::singleton(quiver_arc.clone(), path(&["y1", "x"]), 1i64);
    let expected_d_y1y2 = x_y2 - y1_x;
    let d_y1y2 = dga.apply_differential(&y1_y2);
    assert!(d_y1y2 == expected_d_y1y2);

    // 4. d²(y1·y2) = 0
    assert!(dga.apply_differential(&d_y1y2) == zero);

    // 5. d² (x y1 y2 + 5 y1^2 - 7 y2) = 0
    let y1_elt = PathAlgebra::singleton(quiver_arc.clone(), path(&["y1"]), 1i64);
    let y2_elt = PathAlgebra::singleton(quiver_arc.clone(), path(&["y2"]), 1i64);
    let expr = x_elt.clone() * y1_elt.clone() * y2_elt.clone() + y1_elt.clone() * y1_elt * 5i64 - y2_elt * 7i64;
    let d_expr = dga.apply_differential(&expr);
    assert!(dga.apply_differential(&d_expr) == zero);
    assert!(dga.is_definitely_closed(&d_expr));
    assert!(!dga.is_definitely_closed(&expr));
}

#[test]
fn leibniz_rule() {
    let (quiver_arc, dga) = one_vertex_dga();
    let x_elt = PathAlgebra::singleton(quiver_arc.clone(), path(&["x"]), 1i64);
    let y1_elt = PathAlgebra::singleton(quiver_arc.clone(), path(&["y1"]), 1i64);
    let y2_elt = PathAlgebra::singleton(quiver_arc.clone(), path(&["y2"]), 1i64);

    for a in [x_elt.clone(), y1_elt.clone(), y2_elt.clone()] {
        let sign = if a == x_elt { 1 } else { -1 };
        for b in [x_elt.clone(), y1_elt.clone(), y2_elt.clone()] {
            let a_b = a.clone() * b.clone();
            let d_ab = dga.apply_differential(&a_b);
            let da_b = dga.apply_differential(&a) * b.clone();
            let a_db = a.clone() * dga.apply_differential(&b);
            assert!(d_ab == da_b + a_db * sign);
        }
    }
}

#[test]
fn differential_of_idempotents_and_plain_arrows_vanishes() {
    let (quiver_arc, dga) = one_vertex_dga();
    let e = PathAlgebra::singleton(quiver_arc.clone(), BasisElt::Idempotent("v".to_string()), 3i64);
    assert!(!dga.apply_differential(&e).might_be_nonzero());
    let xx = PathAlgebra::singleton(quiver_arc.clone(), path(&["x", "x"]), 2i64);
    assert!(dga.is_definitely_closed(&xx));
    assert!(Arc::ptr_eq(dga.quiver(), &quiver_arc));
}

#[test]
fn differential_scales_by_coefficients_and_signs() {
    let (quiver_arc, dga) = one_vertex_dga();
    // d(3 · y2·y1·x) = 3 x·y1·x - 3 y2·x·x
    let elt = PathAlgebra::singleton(quiver_arc.clone(), path(&["y2", "y1", "x"]), 3i64);
    let expected = PathAlgebra::singleton(quiver_arc.clone(), path(&["x", "y1", "x"]), 3i64)
        - PathAlgebra::singleton(quiver_arc.clone(), path(&["y2", "x", "x"]), 3i64);
    assert!(dga.apply_differential(&elt) == expected);
}

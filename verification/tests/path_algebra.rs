use quiver_algebra::{BasisElt, PathAlgebra, Quiver, QuiverWithRelations};
use std::sync::Arc;

fn make_ginzburg_quiver() -> (Quiver, Vec<(String, String)>, Vec<String>) {
    let mut ginzburg_quiver = Quiver::new();
    ginzburg_quiver.add_vertex("0".to_string());
    ginzburg_quiver.add_edge("0".to_string(), "0".to_string(), "A".to_string());
    ginzburg_quiver.ginzburgify(|a: &String| format!("{}Dagger", a), |v: &String| format!("Omega{}", v))
}

fn make_kronecker_quiver() -> Quiver {
    let mut kronecker_quiver = Quiver::new();
    kronecker_quiver.add_vertex("alpha".to_string());
    kronecker_quiver.add_vertex("beta".to_string());
    kronecker_quiver.add_edge("alpha".to_string(), "beta".to_string(), "a".to_string());
    kronecker_quiver.add_edge("alpha".to_string(), "beta".to_string(), "b".to_string());
    kronecker_quiver
}

fn arrow(label: &str) -> BasisElt {
    BasisElt::create(&[label.to_string()]).unwrap()
}

fn pair(a: &str, b: &str) -> Result<Option<(String, String)>, ()> {
    Ok(Some((a.to_string(), b.to_string())))
}

fn ginzburg<const OP_ALG: bool>() {
    let (ginzburg_quiver, adjoint_pairs, self_loops) = make_ginzburg_quiver();
    assert_eq!(ginzburg_quiver.num_vertices(), 1);
    assert!(!ginzburg_quiver.is_acyclic());
    assert_eq!(adjoint_pairs.len(), 1);
    assert_eq!(self_loops.len(), 1);
    assert_eq!(adjoint_pairs[0], ("A".to_string(), "ADagger".to_string()));
    assert_eq!(self_loops[0], "Omega0".to_string());
    let ginzburg_quiver = Arc::new(ginzburg_quiver);

    let alt_ginz_cubic = PathAlgebra::<f64, OP_ALG>::create_ginzburg_cubic(
        ginzburg_quiver.clone(),
        adjoint_pairs,
        self_loops,
        1.0,
    );

    let x_omega = PathAlgebra::<f64, OP_ALG>::singleton(ginzburg_quiver.clone(), arrow("Omega0"), 1.0);
    let x_a = PathAlgebra::<f64, OP_ALG>::singleton(ginzburg_quiver.clone(), arrow("A"), 1.0);
    let x_adag = PathAlgebra::<f64, OP_ALG>::singleton(ginzburg_quiver.clone(), arrow("ADagger"), 1.0);

    assert_eq!(x_a.all_parallel(), pair("0", "0"));
    assert_eq!(x_adag.all_parallel(), pair("0", "0"));
    assert_eq!(x_omega.all_parallel(), pair("0", "0"));

    let ginz_cubic;
    if OP_ALG {
        ginz_cubic = x_omega * (x_a.clone() * x_adag.clone() - x_adag.clone() * x_a.clone());
    } else {
        ginz_cubic = (-x_a.clone() * x_adag.clone() + x_adag.clone() * x_a.clone()) * x_omega;
    }
    assert!(ginz_cubic.is_cyclic());
    assert_eq!(ginz_cubic.all_parallel(), pair("0", "0"));
    assert!(ginz_cubic == alt_ginz_cubic);

    let mut ginz_cubic_d_omega = ginz_cubic.clone();
    ginz_cubic_d_omega.cyclic_derivative(&"Omega0".to_string());
    assert_eq!(ginz_cubic_d_omega.all_parallel(), pair("0", "0"));

    let expected_cyclic_derivative;
    if OP_ALG {
        expected_cyclic_derivative = x_a.clone() * x_adag.clone() - x_adag.clone() * x_a.clone();
    } else {
        expected_cyclic_derivative = -x_a.clone() * x_adag.clone() + x_adag.clone() * x_a.clone();
    }
    assert!(ginz_cubic_d_omega == expected_cyclic_derivative);
}

#[test]
fn ginzburg_true() {
    ginzburg::<true>();
}

#[test]
fn ginzburg_false() {
    ginzburg::<false>();
}

#[test]
fn kronecker() {
    let kronecker_quiver = make_kronecker_quiver();
    assert_eq!(kronecker_quiver.num_vertices(), 2);
    assert!(kronecker_quiver.is_acyclic());
    let kronecker_quiver = Arc::new(kronecker_quiver);
    let xa = PathAlgebra::<f64, true>::singleton(kronecker_quiver.clone(), arrow("a"), 1.0);
    assert_eq!(xa.all_parallel(), pair("alpha", "beta"));
    let xb = PathAlgebra::<f64, true>::singleton(kronecker_quiver.clone(), arrow("b"), 1.0);
    assert_eq!(xa.all_parallel(), pair("alpha", "beta"));
    let comb = xa.clone() - xb.clone() * 5.0;
    assert_eq!(comb.all_parallel(), pair("alpha", "beta"));
    let comb2 = -xb.clone() * 5.0 + xa.clone();
    assert_eq!(comb2.all_parallel(), pair("alpha", "beta"));
    let mut prod = xa * xb;
    assert_eq!(prod.all_parallel(), Ok(None));
    prod.scale_assign(303.95);
    prod.sub_assign(comb);
    prod = -prod;
    assert!(prod == comb2);
}

#[test]
fn quiver_with_rels_test_ginzburg() {
    let (ginzburg_quiver, _adjoint_pairs, _self_loops) = make_ginzburg_quiver();
    let ginzburg_quiver = Arc::new(ginzburg_quiver);
    let x_omega = arrow("Omega0");
    let x_a = PathAlgebra::<f64, true>::singleton(ginzburg_quiver.clone(), arrow("A"), 1.0);
    let x_adag = PathAlgebra::<f64, true>::singleton(ginzburg_quiver.clone(), arrow("ADagger"), 1.0);
    let ginz_cubic = (x_a.clone() * x_adag.clone() - x_adag.clone() * x_a.clone()) * x_omega;
    let ginz_with_rels =
        QuiverWithRelations::<f64, true>::new(ginzburg_quiver.clone(), vec![ginz_cubic], Some(|x: &f64| *x == 0.0));
    assert_eq!(ginz_with_rels.relations().len(), 1);
}

#[test]
fn jacobian_algebra_of_the_ginzburg_cubic() {
    let (ginzburg_quiver, adjoint_pairs, self_loops) = make_ginzburg_quiver();
    let ginzburg_quiver = Arc::new(ginzburg_quiver);
    let w = PathAlgebra::<f64, true>::create_ginzburg_cubic(ginzburg_quiver.clone(), adjoint_pairs, self_loops, 1.0);
    let jacobian = QuiverWithRelations::from_quiver_and_w(ginzburg_quiver.clone(), &w, Some(|x: &f64| *x == 0.0));
    // One relation per arrow: d/dA, d/dADagger and d/dOmega0, none of them zero.
    assert_eq!(jacobian.relations().len(), 3);
    let mut d_omega = w.clone();
    d_omega.cyclic_derivative(&"Omega0".to_string());
    assert!(jacobian.relations().iter().any(|r| *r == d_omega));
    for r in jacobian.relations() {
        assert!(r.is_homogeneous_of_degree(2));
    }
}

#[test]
fn jacobian_algebra_drops_vanishing_derivatives() {
    let q = Arc::new(make_kronecker_quiver());
    // No cycles in the Kronecker quiver: the zero superpotential has zero derivatives.
    let w = PathAlgebra::<f64, true>::zero(q.clone());
    let jacobian = QuiverWithRelations::from_quiver_and_w(q, &w, None::<fn(&f64) -> bool>);
    assert_eq!(jacobian.relations().len(), 0);
}

fn make_a2_quiver() -> Quiver {
    let mut q = Quiver::new();
    q.add_vertex("alpha".to_string());
    q.add_vertex("beta".to_string());
    q.add_edge("alpha".to_string(), "beta".to_string(), "a".to_string());
    q
}

#[test]
fn a2_preprojective() {
    let a2 = make_a2_quiver();
    let (_doubled_arc, preprojective) = a2.preprojective_algebra::<i64, true, _>(|e: &String| format!("{e}*"), &1i64);
    // The doubled A2 quiver has arrows a (alpha -> beta) and a* (beta -> alpha);
    // the relations are a a* at alpha and -a* a at beta.
    assert_eq!(preprojective.relations().len(), 2);
    for rel in preprojective.relations() {
        assert!(rel.is_homogeneous_of_degree(2));
    }
}

#[test]
fn a2_preprojective_relation_terms() {
    let a2 = make_a2_quiver();
    let (doubled, preprojective) = a2.preprojective_algebra::<i64, true, _>(|e: &String| format!("{e}*"), &1i64);
    assert_eq!(doubled.edge_endpoint_labels(&"a*".to_string()), Some(("beta".to_string(), "alpha".to_string())));
    let rels = preprojective.relations();
    let path = |w: &[&str]| BasisElt::create(&w.iter().map(|x| x.to_string()).collect::<Vec<_>>()).unwrap();
    assert_eq!(rels[0].iter(), &[(path(&["a", "a*"]), 1i64)][..]);
    assert_eq!(rels[1].iter(), &[(path(&["a*", "a"]), -1i64)][..]);
}

#[test]
fn kronecker_preprojective_sums_over_arrows() {
    let k = make_kronecker_quiver();
    let (doubled, preprojective) = k.preprojective_algebra::<i64, false, _>(|e: &String| format!("{e}'"), &1i64);
    assert_eq!(doubled.num_arrows(), 4);
    let rels = preprojective.relations();
    assert_eq!(rels.len(), 2);
    // At alpha: a a' + b b'; at beta: -(a' a) - (b' b).
    assert_eq!(rels[0].iter().len(), 2);
    assert_eq!(rels[1].iter().len(), 2);
    assert!(rels[0].iter().iter().all(|(_, c)| *c == 1));
    assert!(rels[1].iter().iter().all(|(_, c)| *c == -1));
}

fn a3_quiver() -> Arc<Quiver> {
    let mut q = Quiver::new();
    q.add_edge("0".to_string(), "1".to_string(), "a".to_string());
    q.add_edge("1".to_string(), "2".to_string(), "b".to_string());
    Arc::new(q)
}

fn same_terms(x: &[(BasisElt, f64)], y: &[(BasisElt, f64)]) -> bool {
    x.len() == y.len() && x.iter().all(|t| y.iter().any(|u| u == t))
}

#[test]
fn opposite_multiplication_swaps_factors() {
    let q = a3_quiver();
    let e1 = BasisElt::Idempotent("1".to_string());
    let p = PathAlgebra::<f64, true>::singleton(q.clone(), arrow("a"), 2.0)
        + PathAlgebra::<f64, true>::singleton(q.clone(), e1.clone(), 3.0);
    let r = PathAlgebra::<f64, true>::singleton(q.clone(), arrow("b"), 5.0)
        + PathAlgebra::<f64, true>::singleton(q.clone(), e1, 7.0);
    let op_product = p.clone() * r.clone();
    let swapped = (r.toggle_convention() * p.toggle_convention()).toggle_convention();
    assert!(same_terms(op_product.iter(), swapped.iter()));
    assert!(!op_product.iter().is_empty());
}

use quiver_algebra::{
    BasisElt, DiagonalBimodule, DiagonalBimoduleError, NonMonomialIdeal, PathAlgebra,
    PeirceElement, Quiver, QuiverBimodule, QuiverWithRelations,
};
use std::sync::Arc;

fn s(x: &str) -> String {
    x.to_string()
}

fn word(labels: &[&str]) -> Vec<String> {
    labels.iter().map(|l| l.to_string()).collect()
}

/// alpha -a-> beta
fn make_a2_quiver() -> Quiver {
    let mut q = Quiver::new();
    q.add_vertex(s("alpha"));
    q.add_vertex(s("beta"));
    q.add_edge(s("alpha"), s("beta"), s("a"));
    q
}

/// alpha =a,b=> beta
fn make_kronecker_quiver() -> Quiver {
    let mut q = Quiver::new();
    q.add_vertex(s("alpha"));
    q.add_vertex(s("beta"));
    q.add_edge(s("alpha"), s("beta"), s("a"));
    q.add_edge(s("alpha"), s("beta"), s("b"));
    q
}

fn no_relations(q: Quiver) -> Arc<QuiverWithRelations<Real, true>> {
    Arc::new(QuiverWithRelations::from_quiver_no_relations(Arc::new(q)))
}

/// 0 -a-> 1 -b-> 2 with the relation ab = 0.
fn make_a3_with_rel() -> Arc<QuiverWithRelations<Real, true>> {
    let mut q = Quiver::new();
    q.add_edge(s("0"), s("1"), s("a"));
    q.add_edge(s("1"), s("2"), s("b"));
    let q = Arc::new(q);
    let rel: PathAlgebra<Real, true> = PathAlgebra::singleton(q.clone(), BasisElt::create(&word(&["a", "b"])).unwrap(), Real(1.0));
    Arc::new(QuiverWithRelations::new(q, vec![rel], Some(|x: &Real| x.0 == 0.0)))
}

#[test]
fn a2_peirce_basis_dimensions() {
    let bim = DiagonalBimodule::try_new(no_relations(make_a2_quiver()), 100).unwrap();
    assert_eq!(bim.peirce_basis(&s("alpha"), &s("alpha")).len(), 1);
    assert_eq!(bim.peirce_basis(&s("alpha"), &s("beta")).len(), 1);
    assert_eq!(bim.peirce_basis(&s("beta"), &s("alpha")).len(), 0);
    assert_eq!(bim.peirce_basis(&s("beta"), &s("beta")).len(), 1);
}

#[test]
fn a2_peirce_basis_labels() {
    let bim = DiagonalBimodule::try_new(no_relations(make_a2_quiver()), 100).unwrap();
    assert_eq!(bim.peirce_basis(&s("alpha"), &s("alpha")), &[Vec::<String>::new()]);
    assert_eq!(bim.peirce_basis(&s("alpha"), &s("beta")), &[word(&["a"])]);
}

#[test]
fn a2_left_act_on_basis_element() {
    let bim = DiagonalBimodule::try_new(no_relations(make_a2_quiver()), 100).unwrap();
    let e_beta = PeirceElement::basis_vec(s("beta"), s("beta"), 1, 0);
    let result = bim.left_act(&s("a"), &e_beta);
    assert_eq!(result.left, "alpha");
    assert_eq!(result.right, "beta");
    assert_eq!(result.coords, vec![Real(1.0)]);
}

#[test]
fn a2_right_act_on_basis_element() {
    let bim = DiagonalBimodule::try_new(no_relations(make_a2_quiver()), 100).unwrap();
    let e_alpha = PeirceElement::basis_vec(s("alpha"), s("alpha"), 1, 0);
    let result = bim.right_act(&s("a"), &e_alpha);
    assert_eq!(result.left, "alpha");
    assert_eq!(result.right, "beta");
    assert_eq!(result.coords, vec![Real(1.0)]);
}

#[test]
fn left_act_wrong_peirce_index_returns_zero() {
    let bim = DiagonalBimodule::try_new(no_relations(make_a2_quiver()), 100).unwrap();
    let wrong = PeirceElement::basis_vec(s("alpha"), s("beta"), 1, 0);
    let result = bim.left_act(&s("a"), &wrong);
    assert!(result.is_zero());
}

#[test]
fn quiver_bimodule_a2_diagonal_satisfies_axioms() {
    let bim = DiagonalBimodule::try_new(no_relations(make_a2_quiver()), 100).unwrap();
    let v = bim.check_bimodule_axioms();
    assert!(v.is_empty(), "{v:?}");
}

#[test]
fn quiver_bimodule_kronecker_diagonal_satisfies_axioms() {
    let bim = DiagonalBimodule::try_new(no_relations(make_kronecker_quiver()), 100).unwrap();
    let v = bim.check_bimodule_axioms();
    assert!(v.is_empty(), "{v:?}");
}

#[test]
fn quiver_bimodule_a3_with_relation_satisfies_axioms() {
    let bim = DiagonalBimodule::try_new(make_a3_with_rel(), 100).unwrap();
    let v = bim.check_bimodule_axioms();
    assert!(v.is_empty(), "{v:?}");
}

#[test]
fn quiver_bimodule_a3_with_rel_zero_peirce_piece() {
    let bim = DiagonalBimodule::try_new(make_a3_with_rel(), 100).unwrap();
    assert_eq!(bim.peirce_dim(&s("0"), &s("2")), 0);
}

#[test]
fn kronecker_peirce_piece_dimensions() {
    let bim = DiagonalBimodule::try_new(no_relations(make_kronecker_quiver()), 100).unwrap();
    assert_eq!(bim.peirce_dim(&s("alpha"), &s("beta")), 2);
    assert_eq!(bim.peirce_dim(&s("alpha"), &s("alpha")), 1);
    assert_eq!(bim.peirce_dim(&s("beta"), &s("beta")), 1);
    assert_eq!(bim.peirce_dim(&s("beta"), &s("alpha")), 0);
}

#[test]
fn kronecker_right_act_lands_in_two_dimensional_piece() {
    let bim = DiagonalBimodule::try_new(no_relations(make_kronecker_quiver()), 100).unwrap();
    let e_alpha = PeirceElement::basis_vec(s("alpha"), s("alpha"), 1, 0);
    let by_a = bim.right_act(&s("a"), &e_alpha);
    let by_b = bim.right_act(&s("b"), &e_alpha);
    assert_eq!(by_a.coords.len(), 2);
    assert_eq!(by_b.coords.len(), 2);
    // e_alpha a = a and e_alpha b = b are the two distinct basis paths.
    assert_ne!(by_a.coords, by_b.coords);
    assert_eq!(by_a.coords.iter().filter(|c| c.0 == 1.0).count(), 1);
}

#[test]
fn a3_relation_kills_composite_action() {
    let bim = DiagonalBimodule::try_new(make_a3_with_rel(), 100).unwrap();
    // a, seen in the piece (0, 1), times b on the right is ab = 0.
    let a = PeirceElement::basis_vec(s("0"), s("1"), bim.peirce_dim(&s("0"), &s("1")), 0);
    assert_eq!(bim.peirce_basis(&s("0"), &s("1")), &[word(&["a"])]);
    let ab = bim.right_act(&s("b"), &a);
    assert_eq!(ab.left, "0");
    assert_eq!(ab.right, "2");
    assert!(ab.is_zero());
}

#[test]
fn acting_on_a_scaled_element_scales_the_result() {
    let bim = DiagonalBimodule::try_new(no_relations(make_a2_quiver()), 100).unwrap();
    let mut e_beta = PeirceElement::basis_vec(s("beta"), s("beta"), 1, 0);
    e_beta.scale_assign(&Real(3.0));
    let result = bim.left_act(&s("a"), &e_beta);
    assert_eq!(result.coords, vec![Real(3.0)]);
}

#[test]
fn too_many_paths_is_refused() {
    // The Kronecker algebra has two nonzero paths besides the idempotents: a and b.
    let err = DiagonalBimodule::try_new(no_relations(make_kronecker_quiver()), 1).err().unwrap();
    assert_eq!(err, DiagonalBimoduleError::TooManyPaths { max_paths: 1 });
    assert!(DiagonalBimodule::try_new(no_relations(make_kronecker_quiver()), 2).is_ok());
}

#[test]
fn non_monomial_relations_are_refused() {
    let q = Arc::new(make_kronecker_quiver());
    let rel: PathAlgebra<Real, true> = PathAlgebra::new(
        q.clone(),
        vec![
            (BasisElt::create(&word(&["a"])).unwrap(), Real(1.0)),
            (BasisElt::create(&word(&["b"])).unwrap(), Real(-1.0)),
        ],
    );
    let alg = Arc::new(QuiverWithRelations::new(q, vec![rel], Some(|x: &Real| x.0 == 0.0)));
    let err = DiagonalBimodule::try_new(alg, 100).err().unwrap();
    assert_eq!(
        err,
        DiagonalBimoduleError::NonMonomialRelations(NonMonomialIdeal::NonMonomialRelation { relation_index: 0 })
    );
}

/// A real coefficient, for the bimodule's actions.
#[derive(Clone, Copy, Debug, PartialEq)]
struct Real(f64);

impl std::ops::Add for Real {
    type Output = Real;
    fn add(self, rhs: Real) -> Real {
        Real(self.0 + rhs.0)
    }
}

impl std::ops::Sub for Real {
    type Output = Real;
    fn sub(self, rhs: Real) -> Real {
        Real(self.0 - rhs.0)
    }
}

impl std::ops::Mul for Real {
    type Output = Real;
    fn mul(self, rhs: Real) -> Real {
        Real(self.0 * rhs.0)
    }
}

impl std::ops::Neg for Real {
    type Output = Real;
    fn neg(self) -> Real {
        Real(-self.0)
    }
}

impl quiver_algebra::Field for Real {
    fn spec_zero() -> Self {
        Real(0.0)
    }
    fn spec_one() -> Self {
        Real(1.0)
    }
    fn zero() -> Self {
        Real(0.0)
    }
    fn one() -> Self {
        Real(1.0)
    }
    fn obeys_inv_spec() -> bool {
        true
    }
    fn spec_inv(self) -> Self {
        Real(1.0 / self.0)
    }
    fn inv(self) -> Self {
        Real(1.0 / self.0)
    }
}

fn shape(m: &Vec<Vec<bool>>) -> (usize, usize) {
    (m.len(), if m.is_empty() { 0 } else { m[0].len() })
}

#[test]
fn a2_left_action_shape() {
    let bim = DiagonalBimodule::try_new(no_relations(make_a2_quiver()), 100).unwrap();

    // L_{a,"beta"}: e_beta A e_beta -> e_alpha A e_beta, both of dimension 1
    let mat = bim.left_action(&s("a"), &s("beta")).unwrap();
    assert_eq!(shape(mat), (1, 1));
    assert_eq!(mat[0][0], true);

    // L_{a,"alpha"}: e_beta A e_alpha (dimension 0) -> e_alpha A e_alpha
    let mat = bim.left_action(&s("a"), &s("alpha")).unwrap();
    assert_eq!(shape(mat), (1, 0));
}

#[test]
fn a2_right_action_shape() {
    let bim = DiagonalBimodule::try_new(no_relations(make_a2_quiver()), 100).unwrap();

    // R_{a,"alpha"}: e_alpha A e_alpha -> e_alpha A e_beta, both of dimension 1
    let mat = bim.right_action(&s("a"), &s("alpha")).unwrap();
    assert_eq!(shape(mat), (1, 1));
    assert_eq!(mat[0][0], true);

    // R_{a,"beta"}: e_beta A e_alpha -> e_beta A e_beta, domain empty
    let mat = bim.right_action(&s("a"), &s("beta")).unwrap();
    assert_eq!(shape(mat), (1, 0));
    assert!(bim.right_action(&s("z"), &s("beta")).is_none());
    assert!(bim.left_action(&s("a"), &s("gamma")).is_none());
}

#[test]
fn kronecker_peirce_piece_e0_a_e1_has_dimension_two() {
    // In the Kronecker algebra, e_alpha A e_beta = span{a, b} (dim 2), so
    // R_{a,"alpha"}: e_alpha A e_alpha -> e_alpha A e_beta is 2 x 1.
    let bim = DiagonalBimodule::try_new(no_relations(make_kronecker_quiver()), 100).unwrap();
    let mat = bim.right_action(&s("a"), &s("alpha")).unwrap();
    assert_eq!(shape(mat), (2, 1));
}

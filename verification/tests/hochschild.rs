use quiver_algebra::{
    BasisElt, Chain, CochainAnchor, Field, HochschildError, MonomialQuiverAlgebraHH, Quiver, QuiverWithMonomialRelations,
};
use std::sync::Arc;

/// Real numbers as coefficients (floats suffice for these small integer matrices).
#[derive(Clone, Copy, Debug, PartialEq)]
struct Real(f64);

impl std::ops::Add for Real {
    type Output = Real;
    fn add(self, rhs: Real) -> Real {
        Real(self.0 + rhs.0)
    }
}

impl std::ops::Sub for Real {
    type Output = Real;
    fn sub(self, rhs: Real) -> Real {
        Real(self.0 - rhs.0)
    }
}

impl std::ops::Mul for Real {
    type Output = Real;
    fn mul(self, rhs: Real) -> Real {
        Real(self.0 * rhs.0)
    }
}

impl std::ops::Neg for Real {
    type Output = Real;
    fn neg(self) -> Real {
        Real(-self.0)
    }
}

impl Field for Real {
    fn spec_zero() -> Self {
        Real(0.0)
    }
    fn spec_one() -> Self {
        Real(1.0)
    }
    fn zero() -> Self {
        Real(0.0)
    }
    fn one() -> Self {
        Real(1.0)
    }
    fn obeys_inv_spec() -> bool {
        true
    }
    fn spec_inv(self) -> Self {
        Real(1.0 / self.0)
    }
    fn inv(self) -> Self {
        Real(1.0 / self.0)
    }
}

fn label(s: &str) -> String {
    s.to_string()
}

fn hh_dims(hh: &mut MonomialQuiverAlgebraHH<Real>, max_degree: usize) -> Vec<usize> {
    let dims = hh.hochschild_dimensions(max_degree, 10_000).ok().expect("HH computation failed");
    (0..=max_degree).map(|d| dims[&d]).collect()
}

fn no_rels(q: Quiver) -> MonomialQuiverAlgebraHH<Real> {
    let q = Arc::new(QuiverWithMonomialRelations::new(Arc::new(q), Vec::new()));
    MonomialQuiverAlgebraHH::new(q, 20)
}

fn make_kronecker_quiver() -> Quiver {
    let mut q = Quiver::new();
    q.add_vertex(label("alpha"));
    q.add_vertex(label("beta"));
    q.add_edge(label("alpha"), label("beta"), label("a"));
    q.add_edge(label("alpha"), label("beta"), label("b"));
    q
}

#[test]
fn hh_a1_no_relations() {
    let mut q = Quiver::new();
    q.add_vertex(label("0"));
    let mut hh = no_rels(q);
    let dims = hh_dims(&mut hh, 3);
    assert_eq!(dims[0], 1, "HH^0(k) = k");
    assert_eq!(dims[1], 0);
    assert_eq!(dims[2], 0);
    assert_eq!(dims[3], 0);
}

#[test]
fn hh_a2_no_relations() {
    let mut q = Quiver::new();
    q.add_vertex(label("0"));
    q.add_vertex(label("1"));
    q.add_edge(label("0"), label("1"), label("a"));
    let mut hh = no_rels(q);
    let dims = hh_dims(&mut hh, 3);
    assert_eq!(dims[0], 1, "HH^0(kA_2) = k, center of connected path algebra");
    assert_eq!(dims[1], 0, "kA_2 hereditary + acyclic → HH^1 = 0");
    assert_eq!(dims[2], 0);
    assert_eq!(dims[3], 0);
}

#[test]
fn hh_kronecker_no_relations() {
    let kq = make_kronecker_quiver();
    let mut hh = no_rels(kq);
    let dims = hh_dims(&mut hh, 3);
    assert_eq!(dims[0], 1, "HH^0(Kronecker) = k");
    assert_eq!(dims[1], 3, "HH^1(Kronecker) = k^3, three outer derivations");
    assert_eq!(dims[2], 0, "Kronecker algebra is hereditary, HH^2 = 0");
    assert_eq!(dims[3], 0);
}

#[test]
fn hh_a3_relation_ab() {
    let mut q = Quiver::new();
    q.add_vertex(label("0"));
    q.add_vertex(label("1"));
    q.add_vertex(label("2"));
    q.add_edge(label("0"), label("1"), label("a"));
    q.add_edge(label("1"), label("2"), label("b"));
    let q = Arc::new(QuiverWithMonomialRelations::new(Arc::new(q), vec![vec![label("a"), label("b")]]));
    let mut hh: MonomialQuiverAlgebraHH<Real> = MonomialQuiverAlgebraHH::new(q, 20);

    assert_eq!(hh.cochain_dim(0), 3);
    assert_eq!(hh.cochain_dim(1), 2);
    assert_eq!(hh.cochain_dim(2), 0);

    let dims = hh_dims(&mut hh, 3);
    assert_eq!(dims[0], 1, "HH^0 = k, center of connected algebra");
    assert_eq!(dims[1], 0, "d^0 surjects onto C^1, so HH^1 = 0");
    assert_eq!(dims[2], 0, "C^2 = 0 since e_0·A·e_2 = 0");
    assert_eq!(dims[3], 0);
}

fn a3_with_ab() -> MonomialQuiverAlgebraHH<Real> {
    let mut q = Quiver::new();
    q.add_vertex(label("0"));
    q.add_vertex(label("1"));
    q.add_vertex(label("2"));
    q.add_edge(label("0"), label("1"), label("a"));
    q.add_edge(label("1"), label("2"), label("b"));
    let q = Arc::new(QuiverWithMonomialRelations::new(Arc::new(q), vec![vec![label("a"), label("b")]]));
    MonomialQuiverAlgebraHH::new(q, 20)
}

#[test]
fn a3_chains_by_degree() {
    let mut hh = a3_with_ab();
    assert!(hh.chains_in_degree(0).is_none());
    hh.build_chains();
    assert_eq!(hh.chains_in_degree(0).unwrap().len(), 0);
    assert_eq!(hh.chains_in_degree(1).unwrap().len(), 2);
    let deg2 = hh.chains_in_degree(2).unwrap();
    assert_eq!(deg2.len(), 1);
    assert_eq!(deg2[0].word, vec![label("a"), label("b")]);
    assert_eq!(deg2[0].rels, vec![(0, vec![label("a"), label("b")])]);
    assert_eq!(hh.maximal_possible_hh_degree(), Some(2));
}

#[test]
fn a3_basis_has_idempotents_then_paths() {
    let mut hh = a3_with_ab();
    assert!(hh.view_basis().is_empty());
    assert!(hh.build_basis(100).is_ok());
    let basis = hh.view_basis();
    assert_eq!(basis.len(), 5);
    let idempotents = basis.iter().take(3).filter(|b| matches!(b, BasisElt::Idempotent(_))).count();
    assert_eq!(idempotents, 3);
}

#[test]
fn basis_enumeration_bound() {
    let mut q = Quiver::new();
    q.add_edge(label("0"), label("0"), label("x"));
    let q = Arc::new(QuiverWithMonomialRelations::new(Arc::new(q), vec![]));
    let mut hh: MonomialQuiverAlgebraHH<Real> = MonomialQuiverAlgebraHH::new(q, 20);
    assert_eq!(hh.build_basis(5), Err(HochschildError::BasisEnumerationExceeded { max_paths: 5 }));
    let q2 = {
        let mut q = Quiver::new();
        q.add_edge(label("0"), label("0"), label("x"));
        Arc::new(QuiverWithMonomialRelations::new(Arc::new(q), vec![vec![label("x"), label("x"), label("x")]]))
    };
    let mut truncated: MonomialQuiverAlgebraHH<Real> = MonomialQuiverAlgebraHH::new(q2, 20);
    assert!(truncated.build_basis(5).is_ok());
    // e_0, x, x x
    assert_eq!(truncated.view_basis().len(), 3);
}

#[test]
fn basis_cap_counts_single_arrows() {
    let mut q = Quiver::new();
    q.add_edge(label("alpha"), label("beta"), label("a"));
    let q = Arc::new(QuiverWithMonomialRelations::new(Arc::new(q), vec![]));
    let mut hh: MonomialQuiverAlgebraHH<Real> = MonomialQuiverAlgebraHH::new(q.clone(), 20);
    assert_eq!(hh.build_basis(0), Err(HochschildError::BasisEnumerationExceeded { max_paths: 0 }));
    assert_eq!(hh.view_basis().len(), 0);
    let mut hh1: MonomialQuiverAlgebraHH<Real> = MonomialQuiverAlgebraHH::new(q, 20);
    assert!(hh1.build_basis(1).is_ok());
    // e_alpha, e_beta, a
    assert_eq!(hh1.view_basis().len(), 3);
}

#[test]
fn a3_differential_in_degree_zero() {
    let mut hh = a3_with_ab();
    let d0 = hh.differential_matrix(0);
    assert_eq!(d0.len(), 2);
    assert_eq!(d0[0].len(), 3);
    let mut rows: Vec<Vec<f64>> = d0.iter().map(|r| r.iter().map(|x| x.0).collect()).collect();
    rows.sort_by(|a, b| a.partial_cmp(b).unwrap());
    // one row per arrow: [a] gives (-1, +1, 0) on (e_0, e_1, e_2) and [b] gives (0, -1, +1),
    // up to the order of the vertices
    for row in &rows {
        assert_eq!(row.iter().filter(|x| **x == 1.0).count(), 1);
        assert_eq!(row.iter().filter(|x| **x == -1.0).count(), 1);
        assert_eq!(row.iter().filter(|x| **x == 0.0).count(), 1);
    }
    let d1 = hh.differential_matrix(1);
    assert_eq!(d1.len(), 0);
}

#[test]
fn a3_cochain_basis_anchors() {
    let mut hh = a3_with_ab();
    let c1 = hh.cochain_basis(1);
    assert_eq!(c1.len(), 2);
    for (anchor, _) in &c1 {
        assert!(matches!(anchor, CochainAnchor::Chain(_)));
    }
    let c0 = hh.cochain_basis(0);
    for (anchor, _) in &c0 {
        assert!(matches!(anchor, CochainAnchor::Vertex(_)));
    }
}

#[test]
fn subchains_of_a_relation_chain() {
    let mut hh = a3_with_ab();
    hh.build_chains();
    let chain = Chain { word: vec![label("a"), label("b")], rels: vec![(0, vec![label("a"), label("b")])] };
    let terms = hh.subchains(&chain, 2);
    assert_eq!(terms.len(), 2);
    assert_eq!(terms[0].0, Vec::<String>::new());
    assert_eq!(terms[0].1.word, vec![label("a")]);
    assert_eq!(terms[0].2, vec![label("b")]);
    assert_eq!(terms[1].0, vec![label("a")]);
    assert_eq!(terms[1].1.word, vec![label("b")]);
    assert!(terms[1].2.is_empty());
}

#[test]
fn overlapping_relations_give_higher_chains() {
    // one loop x with relation x x: chains in every degree up to the word bound
    let mut q = Quiver::new();
    q.add_edge(label("0"), label("0"), label("x"));
    let q = Arc::new(QuiverWithMonomialRelations::new(Arc::new(q), vec![vec![label("x"), label("x")]]));
    let mut hh: MonomialQuiverAlgebraHH<Real> = MonomialQuiverAlgebraHH::new(q, 4);
    hh.build_chains();
    assert_eq!(hh.chains_in_degree(3).unwrap()[0].word.len(), 3);
    assert_eq!(hh.chains_in_degree(4).unwrap()[0].word.len(), 4);
    assert!(hh.chains_in_degree(5).is_none());
    assert_eq!(hh.maximal_possible_hh_degree(), Some(4));
    // k[x]/(x^2): HH^0 = 2 (the algebra is commutative)
    let dims = hh.hochschild_dimensions(0, 100).ok().unwrap();
    assert_eq!(dims[&0], 2);
}

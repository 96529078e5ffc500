use quiver_algebra::{
    BasisElt, HochschildError, MonomialQuiverAlgebraHH, NonMonomialIdeal, PathAlgebra, Quiver, QuiverWithMonomialRelations,
    QuiverWithRelations,
};
use std::sync::Arc;

fn s(x: &str) -> String {
    x.to_string()
}

fn word(labels: &[&str]) -> Vec<String> {
    labels.iter().map(|l| l.to_string()).collect()
}

fn path(labels: &[&str]) -> BasisElt {
    BasisElt::create(&word(labels)).unwrap()
}

/// 0 -a-> 1 -b-> 2 -c-> 3
fn a4() -> Quiver {
    let mut q = Quiver::new();
    q.add_edge(s("0"), s("1"), s("a"));
    q.add_edge(s("1"), s("2"), s("b"));
    q.add_edge(s("2"), s("3"), s("c"));
    q
}

#[test]
fn new_keeps_minimal_generators() {
    let q = Arc::new(a4());
    let alg = QuiverWithMonomialRelations::new(
        q,
        vec![word(&["a", "b", "c"]), word(&["b", "c"]), word(&["b", "c"]), word(&["a", "b"])],
    );
    // [a, b, c] contains the shorter [b, c]; the repeated [b, c] is kept once.
    assert_eq!(alg.relations(), &[word(&["b", "c"]), word(&["a", "b"])][..]);
}

#[test]
fn same_zero_words_with_minimal_generators() {
    let q = Arc::new(a4());
    let all = QuiverWithMonomialRelations::new(q.clone(), vec![word(&["a", "b", "c"]), word(&["b", "c"])]);
    let minimal = QuiverWithMonomialRelations::new(q, vec![word(&["b", "c"])]);
    for w in [word(&["a", "b", "c"]), word(&["b", "c"]), word(&["a", "b"]), word(&["c"])] {
        let b = BasisElt::create(&w).unwrap();
        assert_eq!(all.retain_if_nonzero(b.clone()).is_none(), minimal.retain_if_nonzero(b).is_none());
    }
}

#[test]
fn retain_if_nonzero_drops_zero_paths() {
    let alg = QuiverWithMonomialRelations::new(Arc::new(a4()), vec![word(&["b", "c"])]);
    assert_eq!(alg.retain_if_nonzero(path(&["a", "b"])), Some(path(&["a", "b"])));
    assert_eq!(alg.retain_if_nonzero(path(&["a", "b", "c"])), None);
    assert_eq!(alg.retain_if_nonzero(path(&["b", "a"])), None);
    let e = BasisElt::Idempotent(s("2"));
    assert_eq!(alg.retain_if_nonzero(e.clone()), Some(e));
}

#[test]
fn multiply_basis_elts_in_the_quotient() {
    let alg = QuiverWithMonomialRelations::new(Arc::new(a4()), vec![word(&["b", "c"])]);
    assert_eq!(alg.multiply_basis_elts(&path(&["a"]), &path(&["b"])), Some(path(&["a", "b"])));
    assert_eq!(alg.multiply_basis_elts(&path(&["b"]), &path(&["c"])), None);
    assert_eq!(alg.multiply_basis_elts(&path(&["c"]), &path(&["b"])), None);
    assert_eq!(
        alg.multiply_basis_elts(&BasisElt::Idempotent(s("1")), &path(&["b"])),
        Some(path(&["b"]))
    );
    // associativity on an example: (a b) c = a (b c) = 0
    let ab = alg.multiply_basis_elts(&path(&["a"]), &path(&["b"])).unwrap();
    assert_eq!(alg.multiply_basis_elts(&ab, &path(&["c"])), None);
}

#[test]
fn basis_endpoints_and_labels() {
    let alg = QuiverWithMonomialRelations::new(Arc::new(a4()), vec![]);
    assert_eq!(alg.basis_endpoints(&path(&["a", "b"])), Some((s("0"), s("2"))));
    let mut vs = alg.vertices();
    vs.sort();
    assert_eq!(vs, word(&["0", "1", "2", "3"]));
    let mut es = alg.edge_labels();
    es.sort();
    assert_eq!(es, word(&["a", "b", "c"]));
}

#[test]
fn gentle_a3_with_relation() {
    let mut q = Quiver::new();
    q.add_edge(s("0"), s("1"), s("a"));
    q.add_edge(s("1"), s("2"), s("b"));
    let alg = QuiverWithMonomialRelations::new(Arc::new(q), vec![word(&["a", "b"])]);
    assert!(alg.is_gentle().is_ok());
}

#[test]
fn not_gentle_long_relation() {
    let alg = QuiverWithMonomialRelations::new(Arc::new(a4()), vec![word(&["a", "b", "c"])]);
    assert!(alg.is_gentle().is_err());
}

#[test]
fn not_gentle_three_arrows_out() {
    let mut q = Quiver::new();
    q.add_edge(s("0"), s("1"), s("a"));
    q.add_edge(s("0"), s("2"), s("b"));
    q.add_edge(s("0"), s("3"), s("c"));
    let alg = QuiverWithMonomialRelations::new(Arc::new(q), vec![]);
    assert!(alg.is_gentle().is_err());
}

fn relation(q: &Arc<Quiver>, terms: Vec<(BasisElt, i64)>) -> PathAlgebra<i64, true> {
    PathAlgebra::new(q.clone(), terms)
}

#[test]
fn relations_drop_zero_terms_and_zero_relations() {
    let mut k = Quiver::new();
    k.add_edge(s("0"), s("1"), s("a"));
    k.add_edge(s("0"), s("1"), s("b"));
    let q = Arc::new(k);
    let r1 = relation(&q, vec![(path(&["a"]), 1), (path(&["b"]), 0)]);
    let r2 = relation(&q, vec![(path(&["b"]), 0)]);
    let alg = QuiverWithRelations::new(q.clone(), vec![r1, r2], Some(|c: &i64| *c == 0));
    assert_eq!(alg.relations().len(), 1);
    assert_eq!(alg.relations()[0].iter().len(), 1);
    let kept = QuiverWithRelations::new(
        q.clone(),
        vec![relation(&q, vec![(path(&["b"]), 0)])],
        None::<fn(&i64) -> bool>,
    );
    assert_eq!(kept.relations().len(), 1);
    let free = QuiverWithRelations::<i64, true>::from_quiver_no_relations(q);
    assert_eq!(free.relations().len(), 0);
}

#[test]
fn monomial_algebra_from_relations() {
    let q = Arc::new(a4());
    let alg = QuiverWithRelations::new(
        q.clone(),
        vec![relation(&q, vec![(path(&["b", "c"]), 3)])],
        None::<fn(&i64) -> bool>,
    );
    let mon = QuiverWithMonomialRelations::try_from_relations(&alg).ok().unwrap();
    assert_eq!(mon.relations(), &[word(&["b", "c"])][..]);
}

#[test]
fn non_monomial_relation_is_reported() {
    let mut q = Quiver::new();
    q.add_edge(s("0"), s("1"), s("a"));
    q.add_edge(s("0"), s("1"), s("b"));
    let q = Arc::new(q);
    let alg = QuiverWithRelations::new(
        q.clone(),
        vec![
            relation(&q, vec![(path(&["a"]), 1)]),
            relation(&q, vec![(path(&["a"]), 1), (path(&["b"]), -1)]),
        ],
        None::<fn(&i64) -> bool>,
    );
    let err = QuiverWithMonomialRelations::try_from_relations(&alg).err().unwrap();
    assert_eq!(err, NonMonomialIdeal::NonMonomialRelation { relation_index: 1 });
    let hh = MonomialQuiverAlgebraHH::<Real>::try_from_quiver_with_relations(&alg, 10);
    assert_eq!(
        hh.err().unwrap(),
        HochschildError::NonMonomialIdeal(NonMonomialIdeal::NonMonomialRelation { relation_index: 1 })
    );
}

#[test]
fn idempotent_relation_is_reported() {
    let q = Arc::new(a4());
    let alg = QuiverWithRelations::new(
        q.clone(),
        vec![relation(&q, vec![(BasisElt::Idempotent(s("1")), 1)])],
        None::<fn(&i64) -> bool>,
    );
    let err = QuiverWithMonomialRelations::try_from_relations(&alg).err().unwrap();
    assert_eq!(err, NonMonomialIdeal::IdempotentRelation { relation_index: 0 });
}

/// A coefficient type for the Hochschild structure built from relations.
#[derive(Clone, Copy, Debug, PartialEq)]
struct Real(f64);

impl std::ops::Add for Real {
    type Output = Real;
    fn add(self, rhs: Real) -> Real {
        Real(self.0 + rhs.0)
    }
}

impl std::ops::Sub for Real {
    type Output = Real;
    fn sub(self, rhs: Real) -> Real {
        Real(self.0 - rhs.0)
    }
}

impl std::ops::Mul for Real {
    type Output = Real;
    fn mul(self, rhs: Real) -> Real {
        Real(self.0 * rhs.0)
    }
}

impl std::ops::Neg for Real {
    type Output = Real;
    fn neg(self) -> Real {
        Real(-self.0)
    }
}

impl quiver_algebra::Field for Real {
    fn spec_zero() -> Self {
        Real(0.0)
    }
    fn spec_one() -> Self {
        Real(1.0)
    }
    fn zero() -> Self {
        Real(0.0)
    }
    fn one() -> Self {
        Real(1.0)
    }
    fn obeys_inv_spec() -> bool {
        true
    }
    fn spec_inv(self) -> Self {
        Real(1.0 / self.0)
    }
    fn inv(self) -> Self {
        Real(1.0 / self.0)
    }
}

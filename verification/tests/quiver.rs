use quiver_algebra::{BasisElt, Quiver};

fn s(x: &str) -> String {
    x.to_string()
}

fn path(labels: &[&str]) -> BasisElt {
    let v: Vec<String> = labels.iter().map(|l| l.to_string()).collect();
    BasisElt::create(&v).unwrap()
}

fn a3() -> Quiver {
    let mut q = Quiver::new();
    q.add_vertex(s("0"));
    q.add_vertex(s("1"));
    q.add_vertex(s("2"));
    q.add_edge(s("0"), s("1"), s("a"));
    q.add_edge(s("1"), s("2"), s("b"));
    q
}

#[test]
fn add_vertices_and_edges() {
    let mut q = Quiver::new();
    assert_eq!(q.num_vertices(), 0);
    q.add_vertex(s("x"));
    q.add_edge(s("x"), s("y"), s("e"));
    assert_eq!(q.num_vertices(), 2);
    assert_eq!(q.num_arrows(), 1);
    assert!(q.contains_vertex(&s("y")));
    assert!(q.contains_edge(&s("e")));
    assert!(!q.contains_edge(&s("f")));
    assert_eq!(q.edge_endpoint_labels(&s("e")), Some((s("x"), s("y"))));
    assert_eq!(q.edge_endpoint_labels(&s("f")), None);
}

#[test]
fn remove_edge_reports_presence() {
    let mut q = a3();
    assert!(q.remove_edge(&s("a")));
    assert!(!q.contains_edge(&s("a")));
    assert!(!q.remove_edge(&s("a")));
    assert_eq!(q.num_arrows(), 1);
    assert_eq!(q.num_vertices(), 3);
}

#[test]
fn acyclic_and_cyclic_quivers() {
    let q = a3();
    assert!(q.is_acyclic());
    let mut c = Quiver::new();
    c.add_edge(s("0"), s("1"), s("a"));
    c.add_edge(s("1"), s("0"), s("b"));
    assert!(!c.is_acyclic());
}

#[test]
fn composable_arrows() {
    let q = a3();
    assert!(q.composable(&s("a"), &s("b")));
    assert!(!q.composable(&s("b"), &s("a")));
    assert!(!q.composable(&s("a"), &s("zzz")));
}

#[test]
fn labels_listed_once() {
    let q = a3();
    let mut vs = q.vertex_labels();
    vs.sort();
    assert_eq!(vs, vec![s("0"), s("1"), s("2")]);
    let mut es = q.edge_labels();
    es.sort();
    assert_eq!(es, vec![s("a"), s("b")]);
}

#[test]
fn successors_and_predecessors() {
    let q = a3();
    assert_eq!(q.successors(&s("0")), vec![(s("a"), s("1"))]);
    assert_eq!(q.predecessors(&s("2")), vec![(s("b"), s("1"))]);
    assert!(q.successors(&s("2")).is_empty());
    assert!(q.predecessors(&s("0")).is_empty());
}

#[test]
fn basis_endpoints_of_paths_and_idempotents() {
    let q = a3();
    assert_eq!(q.basis_endpoints(&path(&["a", "b"])), Some((s("0"), s("2"))));
    assert_eq!(q.basis_endpoints(&BasisElt::Idempotent(s("1"))), Some((s("1"), s("1"))));
}

#[test]
fn multiply_basis_op_and_regular() {
    let q = a3();
    let a = path(&["a"]);
    let b = path(&["b"]);
    // kQ^op: a followed by b
    assert_eq!(q.multiply_basis::<true>(&a, &b), Some(path(&["a", "b"])));
    assert_eq!(q.multiply_basis::<true>(&b, &a), None);
    // kQ: the product a * b of kQ is b * a of kQ^op
    assert_eq!(q.multiply_basis::<false>(&b, &a), Some(path(&["a", "b"])));
    assert_eq!(q.multiply_basis::<false>(&a, &b), None);
    let e0 = BasisElt::Idempotent(s("0"));
    let e1 = BasisElt::Idempotent(s("1"));
    assert_eq!(q.multiply_basis::<true>(&e0, &a), Some(a.clone()));
    assert_eq!(q.multiply_basis::<true>(&a, &e1), Some(a.clone()));
    assert_eq!(q.multiply_basis::<true>(&a, &e0), None);
    assert_eq!(q.multiply_basis::<true>(&e0, &e0), Some(e0.clone()));
    assert_eq!(q.multiply_basis::<true>(&e0, &e1), None);
}

#[test]
fn basis_product_is_associative_on_an_example() {
    let q = a3();
    let e0 = BasisElt::Idempotent(s("0"));
    let a = path(&["a"]);
    let b = path(&["b"]);
    let ab = q.multiply_basis::<true>(&e0, &a).unwrap();
    let left = q.multiply_basis::<true>(&ab, &b);
    let a_b = q.multiply_basis::<true>(&a, &b).unwrap();
    let right = q.multiply_basis::<true>(&e0, &a_b);
    assert_eq!(left, right);
    assert_eq!(left, Some(path(&["a", "b"])));
}

#[test]
fn double_adds_reverse_arrows() {
    let q = a3();
    let (d, pairs) = q.double(|e: &String| format!("{}*", e));
    assert_eq!(d.num_arrows(), 4);
    let mut pairs = pairs;
    pairs.sort();
    assert_eq!(pairs, vec![(s("a"), s("a*")), (s("b"), s("b*"))]);
    assert_eq!(d.edge_endpoint_labels(&s("a*")), Some((s("1"), s("0"))));
    assert_eq!(d.edge_endpoint_labels(&s("b*")), Some((s("2"), s("1"))));
}

#[test]
fn ginzburgify_adds_loops() {
    let q = a3();
    let (g, pairs, loops) = q.ginzburgify(|e: &String| format!("{}*", e), |v: &String| format!("w{}", v));
    assert_eq!(pairs.len(), 2);
    assert_eq!(loops.len(), 3);
    assert_eq!(g.num_arrows(), 2 + 2 + 3);
    assert_eq!(g.edge_endpoint_labels(&s("w1")), Some((s("1"), s("1"))));
    assert!(!g.is_acyclic());
}

#[test]
fn disjoint_union_keeps_both_quivers() {
    let mut other = Quiver::new();
    other.add_edge(s("u"), s("v"), s("c"));
    other.add_edge(s("u"), s("v"), s("d"));
    other.add_vertex(s("w"));
    let q = a3().disjoint_union(other);
    assert_eq!(q.num_vertices(), 6);
    assert_eq!(q.num_arrows(), 4);
    assert_eq!(q.edge_endpoint_labels(&s("a")), Some((s("0"), s("1"))));
    assert_eq!(q.edge_endpoint_labels(&s("b")), Some((s("1"), s("2"))));
    assert_eq!(q.edge_endpoint_labels(&s("c")), Some((s("u"), s("v"))));
    assert_eq!(q.edge_endpoint_labels(&s("d")), Some((s("u"), s("v"))));
    assert!(q.contains_vertex(&s("w")));
}

#[test]
fn opposite_reverses_every_arrow() {
    let q = a3().opposite();
    assert_eq!(q.num_vertices(), 3);
    assert_eq!(q.num_arrows(), 2);
    assert_eq!(q.edge_endpoint_labels(&s("a")), Some((s("1"), s("0"))));
    assert_eq!(q.edge_endpoint_labels(&s("b")), Some((s("2"), s("1"))));
    assert!(q.composable(&s("b"), &s("a")));
    assert!(!q.composable(&s("a"), &s("b")));
}

#[test]
fn basis_map_labels_renames_each_label() {
    let p = path(&["a", "b"]).map_labels(|v: String| format!("v{}", v), |e: String| format!("{}'", e));
    assert_eq!(p, path(&["a'", "b'"]));
    let e = BasisElt::Idempotent(s("0")).map_labels(|v: String| format!("v{}", v), |e: String| e);
    assert_eq!(e, BasisElt::Idempotent(s("v0")));
}

#[test]
fn heartify_adds_adjoints_and_framings() {
    let (q, pairs, framings) = a3().heartify(
        |a: &String| format!("{}*", a),
        |v: &String| (format!("f{}", v), format!("w{}", v)),
        true,
    );
    assert_eq!(pairs.len(), 2);
    assert_eq!(framings.len(), 3);
    assert_eq!(q.num_vertices(), 6);
    assert_eq!(q.num_arrows(), 2 + 2 + 3 + 3);
    assert_eq!(q.edge_endpoint_labels(&s("a*")), Some((s("1"), s("0"))));
    assert_eq!(q.edge_endpoint_labels(&s("f1")), Some((s("w1"), s("1"))));
    assert_eq!(q.edge_endpoint_labels(&s("f1*")), Some((s("1"), s("w1"))));
    let (q2, _, framings2) = a3().heartify(
        |a: &String| format!("{}*", a),
        |v: &String| (format!("f{}", v), format!("w{}", v)),
        false,
    );
    assert_eq!(q2.num_arrows(), 2 + 2 + 3);
    assert!(framings2.iter().all(|f| f.2.is_none()));
}

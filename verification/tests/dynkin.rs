use quiver_algebra::Quiver;

fn s(x: &str) -> String {
    x.to_string()
}

fn strings(xs: &[&str]) -> Vec<String> {
    xs.iter().map(|x| x.to_string()).collect()
}

fn sorted(mut v: Vec<String>) -> Vec<String> {
    v.sort_unstable();
    v
}

/// alpha -a-> beta
fn make_a2_quiver() -> Quiver {
    let mut q = Quiver::new();
    q.add_vertex(s("alpha"));
    q.add_vertex(s("beta"));
    q.add_edge(s("alpha"), s("beta"), s("a"));
    q
}

#[test]
fn a2_match() {
    let quiver = Quiver::make_a_n(&strings(&["alpha", "beta"]), strings(&["a"]));
    let make_a2_alt = make_a2_quiver();
    assert_eq!(sorted(quiver.vertex_labels()), sorted(make_a2_alt.vertex_labels()));
    assert_eq!(sorted(quiver.edge_labels()), sorted(make_a2_alt.edge_labels()));
    assert_eq!(quiver.edge_endpoint_labels(&s("a")), make_a2_alt.edge_endpoint_labels(&s("a")));
    assert_eq!(quiver.num_vertices(), make_a2_alt.num_vertices());
    assert_eq!(quiver.num_arrows(), make_a2_alt.num_arrows());
}

#[test]
fn make_d5() {
    let quiver = Quiver::make_d_n(&strings(&["v1", "v2", "v3", "v4", "v5"]), strings(&["e12", "e23", "e34", "e35"]));
    assert_eq!(sorted(quiver.vertex_labels()), strings(&["v1", "v2", "v3", "v4", "v5"]));
    assert_eq!(sorted(quiver.edge_labels()), strings(&["e12", "e23", "e34", "e35"]));
    assert_eq!(quiver.edge_endpoint_labels(&s("e12")), Some((s("v1"), s("v2"))));
    assert_eq!(quiver.edge_endpoint_labels(&s("e23")), Some((s("v2"), s("v3"))));
    assert_eq!(quiver.edge_endpoint_labels(&s("e34")), Some((s("v3"), s("v4"))));
    assert_eq!(quiver.edge_endpoint_labels(&s("e35")), Some((s("v3"), s("v5"))));
}

#[test]
fn make_b3_doubles_the_last_arrow_forwards() {
    let quiver = Quiver::make_bc_n(true, &strings(&["1", "2", "3"]), strings(&["e12", "e23", "e23'"]));
    assert_eq!(quiver.num_arrows(), 3);
    assert_eq!(quiver.edge_endpoint_labels(&s("e12")), Some((s("1"), s("2"))));
    assert_eq!(quiver.edge_endpoint_labels(&s("e23")), Some((s("2"), s("3"))));
    assert_eq!(quiver.edge_endpoint_labels(&s("e23'")), Some((s("2"), s("3"))));
}

#[test]
fn make_c3_doubles_the_last_arrow_backwards() {
    let quiver = Quiver::make_bc_n(false, &strings(&["1", "2", "3"]), strings(&["e12", "e32", "e32'"]));
    assert_eq!(quiver.edge_endpoint_labels(&s("e12")), Some((s("1"), s("2"))));
    assert_eq!(quiver.edge_endpoint_labels(&s("e32")), Some((s("3"), s("2"))));
    assert_eq!(quiver.edge_endpoint_labels(&s("e32'")), Some((s("3"), s("2"))));
    assert!(quiver.is_acyclic());
}

#[test]
fn small_dynkin_quivers_have_no_arrows() {
    let a1 = Quiver::make_a_n(&strings(&["x"]), vec![]);
    assert_eq!(a1.num_vertices(), 1);
    assert_eq!(a1.num_arrows(), 0);
    let d2 = Quiver::make_d_n(&strings(&["x", "y"]), vec![]);
    assert_eq!(d2.num_vertices(), 2);
    assert_eq!(d2.num_arrows(), 0);
    let b1 = Quiver::make_bc_n(true, &strings(&["x"]), vec![]);
    assert_eq!(b1.num_arrows(), 0);
}

#[test]
fn a4_is_a_chain() {
    let q = Quiver::make_a_n(&strings(&["0", "1", "2", "3"]), strings(&["a", "b", "c"]));
    assert_eq!(q.edge_endpoint_labels(&s("b")), Some((s("1"), s("2"))));
    assert!(q.composable(&s("a"), &s("b")));
    assert!(q.composable(&s("b"), &s("c")));
    assert!(!q.composable(&s("a"), &s("c")));
    assert!(q.is_acyclic());
}

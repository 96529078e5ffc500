# quiver_algebra

Quivers, their path algebras and monomial quotients, representations and
bimodules, Hochschild cochain complexes of monomial algebras, differential
graded path algebras and DG-modules, and the integer side of toric geometry
(rational polyhedral cones, fans, binomial presentations of coordinate rings),
written in Verus: every function in `src/` carries a contract that Verus proves.

Layout of `src/`:

- `quiver.rs`, `quiver_operations.rs`, `dynkin.rs`, `graph.rs`, `words.rs`:
  quivers over a `petgraph` stable graph, paths as `nonempty` words.
- `path_algebra.rs`: elements of `kQ` / `kQ^op`, products, cyclic derivatives,
  the Ginzburg cubic; `laws.rs` holds the algebraic laws proved about them.
- `dg_path_algebra.rs`, `dg_module.rs`: graded quivers with a differential
  extended by the graded Leibniz rule, and DG-modules over them.
- `quiver_rep.rs`, `quiver_with_rels.rs`, `quiver_with_mon_rels.rs`:
  representations, ideals of relations, monomial algebras and gentleness.
- `bimodule.rs`, `quiver_bimodule.rs`, `diagonal_bimodule.rs`: bimodules over
  a quiver algebra, the axiom check, and the diagonal bimodule.
- `hochschild.rs`, `hochschild_complex.rs`, `checked_arith.rs`: the Bardzell
  cochain basis, the differential matrices and Hochschild dimensions.
- `cone.rs`, `fan.rs`, `cone_errors.rs`, `toric_ideal.rs`: cones from integer
  rays, fans, and toric coordinate ring presentations.

The tests under `tests/` run the compiled library on concrete inputs.

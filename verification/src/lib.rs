//! Quivers, path algebras, monomial quotients, their Hochschild cochain
//! complexes, and presentations of toric coordinate rings.

mod utils;
mod checked_arith;

pub use utils::contains_subword;

mod homological_degree;
pub use homological_degree::{DegreeLabel, HasHomologicalDegree};
mod graph;
mod words;
pub use words::contains_subword_v2;
mod quiver;
mod dynkin;
pub use dynkin::{law_a_n_is_a_path, law_d_n_has_one_branch_point};
mod quiver_operations;
pub use quiver::Quiver;
mod path_algebra;
mod dg_path_algebra;
mod dg_module;
pub use dg_module::DGModule;
pub use dg_path_algebra::GradedDifferentialQuiver;

pub use path_algebra::PathAlgebra;
pub use quiver::BasisElt;
pub use checked_arith::{
    ChainMultiplyable, chain_multiply_after, CheckedAdd, CheckedAddAssign, CheckedArithError, CheckedMul, CheckedMulAssign, Field, Ring, rank,
};
mod quiver_rep;
pub use quiver_rep::QuiverRep;
mod quiver_with_rels;
pub use quiver_with_rels::QuiverWithRelations;
mod quiver_with_mon_rels;
pub use quiver_with_mon_rels::{NonMonomialIdeal, QuiverWithMonomialRelations};
mod quiver_bimodule;
pub use quiver_bimodule::{BimoduleAxiomViolation, DiagonalBimoduleError, PeirceElement};
mod bimodule;
pub use bimodule::{BimoduleActions, QuiverBimodule};
mod diagonal_bimodule;
pub use diagonal_bimodule::DiagonalBimodule;
mod toric_ideal;
pub use toric_ideal::{
    Binomial, CoordinateRingError, CoordinateRingPresentation, CoordinateRingRepr, DefaultRepr, Monomial, collect_failures,
    kernel_to_binomials, law_check_reports_failing_generators, law_extend_irrelevant_keeps_check,
    law_kernel_binomials_of_vectors_with_positive_entries, law_kernel_sides_are_reduced_vector,
};
mod cone;
pub use cone::{
    law_cone_generators_order_free, law_cone_generators_primitive, law_intersection_spanned_by_shared_rays,
    law_primitive_form_is_primitive, law_shared_rays_are_common, primitive_vector, RationalPolyhedralCone,
};
mod cone_errors;
pub use cone_errors::{ConeError, ToricFanError};
mod fan;
pub use fan::ToricFan;
mod dyn_matrix;
pub use dyn_matrix::ShapeMismatch;
mod hochschild;
pub use hochschild::{Chain, ChainView, CochainAnchor, HochschildError, MonomialQuiverAlgebraHH};
mod hochschild_complex;
pub use hochschild_complex::{CochainBasis, law_cochain_basis_parallel};
mod laws;
pub use laws::{
    law_adjoint_degree, law_algebra_product_associative, law_basis_product_associative,
    law_basis_product_associative_regular, law_minimal_generators_antichain, law_minimal_generators_same_ideal,
    law_opposite_product, law_opposite_product_same_element, law_reduced_is_normal, law_reduction_idempotent,
    law_regular_is_opposite,
};

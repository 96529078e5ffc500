//! Errors of the operations on rational polyhedral cones.
use crate::cone::RationalPolyhedralCone;
use vstd::prelude::*;

verus! {

/// Errors for cone operations.
#[derive(Debug, PartialEq, Eq)]
pub enum ConeError {
    DimensionMismatch { expected: usize, found: usize },
    EmptyGeneratorList,
    ZeroGenerator,
    NotMinimallyPresented,
}

/// Errors for toric fan operations.
#[derive(Debug)]
pub enum ToricFanError {
    ConeError(ConeError),
    IntersectionNotFace { cone1: Box<RationalPolyhedralCone>, cone2: Box<RationalPolyhedralCone> },
    GlobalConeOnlyForAffine,
}

} // verus!

//! Shapes of matrices and the error of combining two of incompatible shapes.
use vstd::prelude::*;

verus! {

/// Error returned when two matrices have incompatible shapes for the
/// requested operation: the `(rows, columns)` of each operand.
#[derive(Debug)]
pub struct ShapeMismatch {
    pub lhs: (usize, usize),
    pub rhs: (usize, usize),
}

impl Clone for ShapeMismatch {
    fn clone(&self) -> (r: Self)
        ensures
            r == *self,
    {
        ShapeMismatch { lhs: self.lhs, rhs: self.rhs }
    }
}

} // verus!

use vstd::prelude::*;

verus! {

// Standard homological degrees for the Ginzburg DG-algebra:
//   original arrows a  ->  degree  0
//   adjoint arrows  a* ->  degree -1
//   self-loops      w_v ->  degree -2
// so that the Ginzburg cubic is homogeneous of degree -3.

/// Implemented by types that carry an explicit integer homological degree.
pub trait HasHomologicalDegree {
    /// The degree, where it is defined.
    spec fn spec_homological_degree(&self) -> Option<i64>;

    /// Returns the homological degree of the element, or `Err(())` where it has
    /// none (an element that is zero, or a sum of homogeneous pieces of different degrees).
    #[allow(clippy::result_unit_err)]
    fn homological_degree(&self) -> (r: Result<i64, ()>)
        ensures
            r matches Ok(d) ==> self.spec_homological_degree() == Some(d),
            r is Err ==> self.spec_homological_degree() is None,
    ;
}

/// Edge label carrying an explicit homological degree.
#[derive(Clone, Eq, PartialEq, Hash, Debug, PartialOrd, Ord)]
pub struct DegreeLabel<T> {
    name: T,
    degree: Option<i64>,
}

/// The degree of the adjoint of an arrow of degree `d`: `-d - 1`, so that
/// `deg(a) + deg(a*) = -1`.
pub open spec fn adjoint_degree(d: Option<i64>) -> Option<i64> {
    match d {
        Some(z) => Some((-z - 1) as i64),
        None => None,
    }
}

/// `rename` accepts the name of `t`, and the degree of `t` has a negation.
pub open spec fn dagger_allowed<T, F: Fn(&T) -> T>(rename: F, t: DegreeLabel<T>) -> bool {
    &&& call_requires(rename, (&t.spec_name(),))
    &&& t.spec_degree() != Some(i64::MIN)
}

/// `out` is the adjoint label of `t`: renamed by `rename`, with degree `-deg(t) - 1`.
pub open spec fn dagger_result<T, F: Fn(&T) -> T>(rename: F, t: DegreeLabel<T>, out: DegreeLabel<T>) -> bool {
    &&& call_ensures(rename, (&t.spec_name(),), out.spec_name())
    &&& out.spec_degree() == adjoint_degree(t.spec_degree())
}

impl<T> DegreeLabel<T> {
    /// The label without its degree.
    pub closed spec fn spec_name(self) -> T {
        self.name
    }

    /// The degree the label carries.
    pub closed spec fn spec_degree(self) -> Option<i64> {
        self.degree
    }

    /// Create a label with an explicit homological degree.
    pub fn new(name: T, degree: i64) -> (r: Self)
        ensures
            r.spec_name() == name,
            r.spec_degree() == Some(degree),
    {
        Self { name, degree: Some(degree) }
    }

    /// Create a label with homological degree 0 (the default for original quiver arrows).
    pub fn new_deg_zero(name: T) -> (r: Self)
        ensures
            r.spec_name() == name,
            r.spec_degree() == Some(0i64),
    {
        Self { name, degree: Some(0) }
    }

    /// The label of the adjoint arrow: renamed by `rename`, with degree `-deg(a) - 1`
    /// (and no degree where `a` has none).
    ///
    /// This is the function that [`DegreeLabel::dagger`] returns, applied to `t`.
    fn dagger_of<F: Fn(&T) -> T>(rename: &F, t: &Self) -> (r: Self)
        requires
            dagger_allowed(*rename, *t),
        ensures
            dagger_result(*rename, *t, r),
    {
        let degree = match t.homological_degree() {
            Ok(z) => Some(-z - 1),
            Err(()) => None,
        };
        Self { name: rename(&t.name), degree }
    }

    /// Returns a closure suitable for use as the `dagger` argument of the
    /// doubling constructions: it renames the arrow via `rename` and gives the
    /// adjoint the degree `-deg(a) - 1`, so that `deg(a) + deg(a*) = -1`.
    pub fn dagger<F: Fn(&T) -> T>(rename: F) -> (r: impl Fn(&Self) -> Self)
        ensures
            forall|t: &Self| dagger_allowed(rename, *t) ==> #[trigger] call_requires(r, (t,)),
            forall|t: &Self, out: Self| #[trigger] call_ensures(r, (t,), out) ==> dagger_result(rename, *t, out),
    {
        move |t: &Self| -> (out: Self)
            requires
                dagger_allowed(rename, *t),
            ensures
                dagger_result(rename, *t, out),
            { Self::dagger_of(&rename, t) }
    }

    /// The underlying label, without the degree.
    pub fn name(&self) -> (r: &T)
        ensures
            *r == self.spec_name(),
    {
        &self.name
    }
}

impl<T> HasHomologicalDegree for DegreeLabel<T> {
    open spec fn spec_homological_degree(&self) -> Option<i64> {
        self.spec_degree()
    }

    fn homological_degree(&self) -> (r: Result<i64, ()>) {
        match self.degree {
            Some(d) => Ok(d),
            None => Err(()),
        }
    }
}

} // verus!

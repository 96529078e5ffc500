//! Toric fans: collections of rational polyhedral cones in one lattice.
use crate::cone::{RationalPolyhedralCone, copy_ray, rays_view, same_cone, same_ray, uniform_lengths};
use crate::cone_errors::{ConeError, ToricFanError};
use vstd::prelude::*;

verus! {

/// The dimension of the toric variety of a single cone, where it is known:
/// the ambient dimension of an irredundant full-dimensional cone with that
/// many rays.
pub open spec fn cone_variety_dim(c: RationalPolyhedralCone) -> Option<usize> {
    if c.minimal() == Some(true) && c.spanning() == Some(c.ambient()) && c.gens().len() == c.ambient() {
        Some(c.ambient())
    } else {
        None
    }
}

/// Some cone of `cs` holds the same data as `c`.
pub open spec fn has_same_cone(cs: Seq<RationalPolyhedralCone>, c: RationalPolyhedralCone) -> bool {
    exists|i: int| 0 <= i < cs.len() && same_cone(#[trigger] cs[i], c)
}

/// `acc` followed by the rays of `g` it does not hold yet, in order, each once.
pub open spec fn add_new_rays(acc: Seq<Seq<i64>>, g: Seq<Seq<i64>>) -> Seq<Seq<i64>>
    decreases g.len(),
{
    if g.len() == 0 {
        acc
    } else {
        let prev = add_new_rays(acc, g.drop_last());
        if prev.contains(g.last()) {
            prev
        } else {
            prev.push(g.last())
        }
    }
}

/// The generators of the first `n` cones, in order, each once.
pub open spec fn fan_rays(cs: Seq<RationalPolyhedralCone>, n: int) -> Seq<Seq<i64>>
    decreases n,
{
    if n <= 0 {
        Seq::empty()
    } else {
        add_new_rays(fan_rays(cs, n - 1), cs[n - 1].gens())
    }
}

/// A toric fan: cones in the lattice `Z^d` of dimension `ambient_dim`.
pub struct ToricFan {
    cones: Vec<RationalPolyhedralCone>,
    /// Dimension `d` of the ambient lattice.
    pub ambient_dim: usize,
    variety_dim: Option<usize>,
}

impl ToricFan {
    /// The cones, in the order they were added.
    pub closed spec fn cones_view(&self) -> Seq<RationalPolyhedralCone> {
        self.cones@
    }

    /// The ambient dimension.
    pub closed spec fn ambient(&self) -> usize {
        self.ambient_dim
    }

    /// The dimension of the toric variety, where it was worked out.
    pub closed spec fn cached_variety_dim(&self) -> Option<usize> {
        self.variety_dim
    }

    /// The empty fan in the lattice of dimension `ambient_dim`.
    pub fn new(ambient_dim: usize) -> (r: Self)
        ensures
            r.cones_view().len() == 0,
            r.ambient() == ambient_dim,
            r.cached_variety_dim() is None,
    {
        ToricFan { cones: Vec::new(), ambient_dim, variety_dim: None }
    }

    /// Adds a cone of the ambient dimension (a cone equal to one already in
    /// the fan is not added again); the dimension of the variety is known
    /// again once the fan has a single cone. The check of the fan axiom
    /// against cones already present is not available.
    ///
    /// Errors: a cone of another ambient dimension.
    pub fn add_cone(&mut self, cone: RationalPolyhedralCone, check_intersection: bool) -> (r: Result<(), ToricFanError>)
        requires
            !(check_intersection && cone.ambient() == old(self).ambient() && old(self).cones_view().len() > 0),
        ensures
            final(self).ambient() == old(self).ambient(),
            cone.ambient() != old(self).ambient() ==> {
                &&& r == Err::<(), ToricFanError>(
                    ToricFanError::ConeError(
                        ConeError::DimensionMismatch { expected: old(self).ambient(), found: cone.ambient() },
                    ),
                )
                &&& final(self).cones_view() == old(self).cones_view()
                &&& final(self).cached_variety_dim() is None
            },
            cone.ambient() == old(self).ambient() ==> {
                &&& r is Ok
                &&& final(self).cones_view() == if has_same_cone(old(self).cones_view(), cone) {
                    old(self).cones_view()
                } else {
                    old(self).cones_view().push(cone)
                }
                &&& final(self).cached_variety_dim() == if final(self).cones_view().len() == 1 {
                    cone_variety_dim(final(self).cones_view()[0])
                } else {
                    None
                }
            },
    {
        self.variety_dim = None;
        let found = cone.ambient_dimension();
        if self.ambient_dim != found {
            return Err(
                ToricFanError::ConeError(ConeError::DimensionMismatch { expected: self.ambient_dim, found }),
            );
        }
        let mut present = false;
        let mut i: usize = 0;
        while i < self.cones.len()
            invariant
                i <= self.cones@.len(),
                present <==> exists|j: int| 0 <= j < i && same_cone(#[trigger] self.cones@[j], cone),
            decreases self.cones.len() - i,
        {
            if self.cones[i].same_as(&cone) {
                present = true;
            }
            i = i + 1;
        }
        if !present {
            self.cones.push(cone);
        }
        if self.cones.len() == 1 {
            self.variety_dim = self.cones[0].variety_dim().ok();
        }
        Ok(())
    }

    /// The cones, in the order they were added.
    pub fn iter_cones(&self) -> (r: &[RationalPolyhedralCone])
        ensures
            r@ == self.cones_view(),
    {
        self.cones.as_slice()
    }

    /// The number of cones.
    pub fn count_cones(&self) -> (r: usize)
        ensures
            r == self.cones_view().len(),
    {
        self.cones.len()
    }

    /// The dimension of the toric variety, where it has been worked out.
    pub fn view_variety_dim(&self) -> (r: Option<usize>)
        ensures
            r == self.cached_variety_dim(),
    {
        self.variety_dim
    }

    /// The cone spanned by all the rays of all the cones: the zero cone for
    /// no cones, the cone itself for one, and otherwise the cone built from
    /// their generators, each once, with equal rays merged.
    ///
    /// Errors: `GlobalConeOnlyForAffine` where that cone cannot be built (no
    /// rays at all, or rays of different lengths).
    pub fn global_support_cone(&self) -> (r: Result<RationalPolyhedralCone, ToricFanError>)
        ensures
            self.cones_view().len() == 0 ==> r is Ok && r.unwrap().gens().len() == 0 && r.unwrap().ambient()
                == self.ambient() && r.unwrap().spanning() == Some(0usize) && r.unwrap().minimal() == Some(true),
            self.cones_view().len() == 1 ==> r is Ok && same_cone(r.unwrap(), self.cones_view()[0]),
            self.cones_view().len() >= 2 ==> {
                let g = fan_rays(self.cones_view(), self.cones_view().len() as int);
                &&& (g.len() > 0 && uniform_lengths(g)) ==> r is Ok && r.unwrap().built_from(g, Some(false), None, None)
                &&& !(g.len() > 0 && uniform_lengths(g)) ==> r == Err::<RationalPolyhedralCone, ToricFanError>(
                    ToricFanError::GlobalConeOnlyForAffine,
                )
            },
    {
        let n = self.cones.len();
        if n == 0 {
            return Ok(RationalPolyhedralCone::zero_cone(self.ambient_dim));
        }
        if n == 1 {
            return Ok(self.cones[0].copy());
        }
        let ghost cs = self.cones@;
        let mut gens: Vec<Vec<i64>> = Vec::new();
        let mut k: usize = 0;
        while k < n
            invariant
                n == cs.len(),
                cs == self.cones@,
                k <= n,
                rays_view(gens@) == fan_rays(cs, k as int),
            decreases n - k,
        {
            let cone_gens = self.cones[k].view_generators();
            let ghost acc0 = rays_view(gens@);
            let ghost g = cs[k as int].gens();
            let mut j: usize = 0;
            while j < cone_gens.len()
                invariant
                    rays_view(cone_gens@) == g,
                    j <= cone_gens@.len(),
                    rays_view(gens@) == add_new_rays(acc0, g.take(j as int)),
                decreases cone_gens.len() - j,
            {
                assert(g.take(j + 1).drop_last() =~= g.take(j as int));
                assert(g.take(j + 1).last() == cone_gens@[j as int]@);
                let ghost before = rays_view(gens@);
                let mut seen = false;
                let mut t: usize = 0;
                while t < gens.len()
                    invariant
                        t <= gens@.len(),
                        before == rays_view(gens@),
                        j < cone_gens@.len(),
                        seen <==> before.take(t as int).contains(cone_gens@[j as int]@),
                    decreases gens.len() - t,
                {
                    assert(before.take(t + 1) =~= before.take(t as int).push(before[t as int]));
                    if !seen && same_ray(&gens[t], &cone_gens[j]) {
                        seen = true;
                        assert(before.take(t + 1)[t as int] == cone_gens@[j as int]@);
                    } else if !seen {
                        proof {
                            if before.take(t + 1).contains(cone_gens@[j as int]@) {
                                let u = choose|u: int|
                                    0 <= u < t + 1 && #[trigger] before.take(t + 1)[u] == cone_gens@[j as int]@;
                                if u < t {
                                    assert(before.take(t as int)[u] == cone_gens@[j as int]@);
                                }
                            }
                        }
                    } else {
                        proof {
                            let u = choose|u: int|
                                0 <= u < t && #[trigger] before.take(t as int)[u] == cone_gens@[j as int]@;
                            assert(before.take(t + 1)[u] == cone_gens@[j as int]@);
                        }
                    }
                    t = t + 1;
                }
                assert(before.take(before.len() as int) =~= before);
                if !seen {
                    let x = copy_ray(&cone_gens[j]);
                    gens.push(x);
                    assert(rays_view(gens@) =~= before.push(cone_gens@[j as int]@));
                }
                j = j + 1;
            }
            assert(g.take(g.len() as int) =~= g);
            k = k + 1;
        }
        match RationalPolyhedralCone::new(gens, Some(false), None, None) {
            Ok(c) => Ok(c),
            Err(_) => Err(ToricFanError::GlobalConeOnlyForAffine),
        }
    }
}

} // verus!

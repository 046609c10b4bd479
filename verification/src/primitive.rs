//! The capability a shape must offer the index: bounds, an intersection
//! test, and a clone, each pinned by a specification.

use crate::bounds::Bounds3;
use crate::bounds::pt_in_box;
use crate::rat::Rat;
use crate::ray::Hit;
use crate::ray::Ray;
use crate::vec3::Vec3i;
use vstd::prelude::*;

verus! {

/// A shape the index can hold. Implementors fix, in spec, their bounding
/// box and their hit distance for every ray; the distance depends on the
/// ray's origin and direction alone, never on its cutoff.
pub trait Primitive: Sized {
    /// The shape's own validity: coordinates small enough that the exact
    /// intersection arithmetic cannot overflow.
    spec fn inv(&self) -> bool;

    /// The box the shape promises to stay inside.
    spec fn bounds_spec(&self) -> Bounds3;

    /// The distance at which a ray from `org` along `dir` first hits the
    /// shape, if it does.
    spec fn hit_spec(&self, org: Vec3i, dir: Vec3i) -> Option<Rat>;

    fn bounds(&self) -> (r: Bounds3)
        requires
            self.inv(),
        ensures
            r == self.bounds_spec(),
            r.wf(),
    ;

    fn raycast(&self, ray: &Ray) -> (r: Option<Hit>)
        requires
            self.inv(),
            ray.wf(),
        ensures
            match r {
                Some(h) => self.hit_spec(ray.org, ray.dir) == Some(h.t) && h.t.wf()
                    && h.t.spec_nonneg(),
                None => self.hit_spec(ray.org, ray.dir) is None,
            },
    ;

    fn clone_prim(&self) -> (r: Self)
        requires
            self.inv(),
        ensures
            r == *self,
    ;

    /// Every hit lies inside the shape's own box, at a well-formed
    /// nonnegative distance: box pruning can provably discard nothing.
    proof fn hit_in_bounds(&self, org: Vec3i, dir: Vec3i, t: Rat)
        requires
            self.inv(),
            org.in_range(),
            dir.in_range(),
            self.hit_spec(org, dir) == Some(t),
        ensures
            t.wf(),
            t.spec_nonneg(),
            pt_in_box(self.bounds_spec(), org, dir, t),
    ;
}

} // verus!

//! Rays with integer origin and direction and an exact rational cutoff.

use crate::rat::Rat;
use crate::vec3::Vec3i;
use vstd::prelude::*;

verus! {

/// A ray `org + t * dir`. The direction need not be unit length: hit
/// distances are in direction-length units. `t_max` cuts the ray off.
#[derive(Clone, Copy, Debug)]
pub struct Ray {
    pub org: Vec3i,
    pub dir: Vec3i,
    pub t_max: Rat,
}

impl Ray {
    pub open spec fn wf(self) -> bool {
        self.org.in_range() && self.dir.in_range() && self.t_max.wf()
    }

    /// A ray with no cutoff.
    pub fn new(org: Vec3i, dir: Vec3i) -> (r: Ray)
        ensures
            r.org == org,
            r.dir == dir,
            r.t_max == (Rat { num: i64::MAX, den: 1 }),
    {
        Ray { org, dir, t_max: Rat { num: i64::MAX, den: 1 } }
    }

    /// A ray cut off at `t_max`.
    pub fn segment(org: Vec3i, dir: Vec3i, t_max: Rat) -> (r: Ray)
        ensures
            r == (Ray { org, dir, t_max }),
    {
        Ray { org, dir, t_max }
    }
}

/// A hit at parameter `t` along the ray that was cast.
#[derive(Clone, Copy, Debug)]
pub struct Hit {
    pub t: Rat,
}

} // verus!

//! Axis-aligned boxes with integer corners: union, enlarge, surface area,
//! and an exact slab test against a ray.

use crate::rat::Rat;
use crate::rat::lemma_rat_le_trans;
use crate::ray::Hit;
use crate::ray::Ray;
use crate::vec3::COORD_LIMIT;
use crate::vec3::Vec3i;
use crate::vec3::imax;
use crate::vec3::imin;
use crate::vec3::smax;
use crate::vec3::smin;
use vstd::prelude::*;

verus! {

#[derive(Clone, Copy, Debug, PartialEq, Eq, Structural)]
pub struct Bounds3 {
    pub min: Vec3i,
    pub max: Vec3i,
}

/// The identity of `union`: extremes that any real box shrinks.
pub open spec fn empty_bounds() -> Bounds3 {
    Bounds3 {
        min: Vec3i { x: i64::MAX, y: i64::MAX, z: i64::MAX },
        max: Vec3i { x: i64::MIN, y: i64::MIN, z: i64::MIN },
    }
}

/// The smallest box holding both arguments.
pub open spec fn union_spec(a: Bounds3, b: Bounds3) -> Bounds3 {
    Bounds3 {
        min: Vec3i {
            x: smin(a.min.x as int, b.min.x as int) as i64,
            y: smin(a.min.y as int, b.min.y as int) as i64,
            z: smin(a.min.z as int, b.min.z as int) as i64,
        },
        max: Vec3i {
            x: smax(a.max.x as int, b.max.x as int) as i64,
            y: smax(a.max.y as int, b.max.y as int) as i64,
            z: smax(a.max.z as int, b.max.z as int) as i64,
        },
    }
}

/// The smallest box holding `a` and the point `p`.
pub open spec fn enlarge_spec(a: Bounds3, p: Vec3i) -> Bounds3 {
    Bounds3 {
        min: Vec3i {
            x: smin(a.min.x as int, p.x as int) as i64,
            y: smin(a.min.y as int, p.y as int) as i64,
            z: smin(a.min.z as int, p.z as int) as i64,
        },
        max: Vec3i {
            x: smax(a.max.x as int, p.x as int) as i64,
            y: smax(a.max.y as int, p.y as int) as i64,
            z: smax(a.max.z as int, p.z as int) as i64,
        },
    }
}

impl Bounds3 {
    pub open spec fn wf(self) -> bool {
        self.min.in_range() && self.max.in_range()
    }

    pub open spec fn is_empty(self) -> bool {
        self.min.x > self.max.x || self.min.y > self.max.y || self.min.z > self.max.z
    }

    /// Twice the box's surface area; an empty box counts zero.
    pub open spec fn area_spec(self) -> int {
        if self.is_empty() {
            0
        } else {
            let dx = self.max.x - self.min.x;
            let dy = self.max.y - self.min.y;
            let dz = self.max.z - self.min.z;
            2 * (dx * dy + dx * dz + dy * dz)
        }
    }

    /// The axis of largest extent; ties prefer `x` over `y` over `z`.
    pub open spec fn max_dim_spec(self) -> int {
        let dx = self.max.x - self.min.x;
        let dy = self.max.y - self.min.y;
        let dz = self.max.z - self.min.z;
        if dx >= dy && dx >= dz {
            0
        } else if dy >= dz {
            1
        } else {
            2
        }
    }

    pub fn new(min: Vec3i, max: Vec3i) -> (r: Bounds3)
        ensures
            r == (Bounds3 { min, max }),
    {
        Bounds3 { min, max }
    }

    /// The `union` identity, with inverted extremes.
    pub fn empty() -> (r: Bounds3)
        ensures
            r == empty_bounds(),
            r.is_empty(),
    {
        Bounds3 {
            min: Vec3i { x: i64::MAX, y: i64::MAX, z: i64::MAX },
            max: Vec3i { x: i64::MIN, y: i64::MIN, z: i64::MIN },
        }
    }

    pub fn union(&self, other: Bounds3) -> (r: Bounds3)
        ensures
            r == union_spec(*self, other),
    {
        Bounds3 {
            min: Vec3i {
                x: imin(self.min.x, other.min.x),
                y: imin(self.min.y, other.min.y),
                z: imin(self.min.z, other.min.z),
            },
            max: Vec3i {
                x: imax(self.max.x, other.max.x),
                y: imax(self.max.y, other.max.y),
                z: imax(self.max.z, other.max.z),
            },
        }
    }

    pub fn enlarge(&self, p: Vec3i) -> (r: Bounds3)
        ensures
            r == enlarge_spec(*self, p),
    {
        Bounds3 {
            min: Vec3i {
                x: imin(self.min.x, p.x),
                y: imin(self.min.y, p.y),
                z: imin(self.min.z, p.z),
            },
            max: Vec3i {
                x: imax(self.max.x, p.x),
                y: imax(self.max.y, p.y),
                z: imax(self.max.z, p.z),
            },
        }
    }

    /// The doubled centroid `min + max`, exact in integers.
    pub fn centroid2(&self) -> (r: Vec3i)
        requires
            self.wf(),
        ensures
            r.x == self.min.x + self.max.x,
            r.y == self.min.y + self.max.y,
            r.z == self.min.z + self.max.z,
    {
        Vec3i {
            x: self.min.x + self.max.x,
            y: self.min.y + self.max.y,
            z: self.min.z + self.max.z,
        }
    }

    /// The extent along each axis.
    pub fn diagonal(&self) -> (r: Vec3i)
        requires
            self.wf(),
        ensures
            r.x == self.max.x - self.min.x,
            r.y == self.max.y - self.min.y,
            r.z == self.max.z - self.min.z,
    {
        Vec3i {
            x: self.max.x - self.min.x,
            y: self.max.y - self.min.y,
            z: self.max.z - self.min.z,
        }
    }

    pub fn max_dim(&self) -> (r: usize)
        requires
            self.wf(),
        ensures
            r == self.max_dim_spec(),
    {
        let dx = self.max.x - self.min.x;
        let dy = self.max.y - self.min.y;
        let dz = self.max.z - self.min.z;
        if dx >= dy && dx >= dz {
            0
        } else if dy >= dz {
            1
        } else {
            2
        }
    }

    /// Twice the surface area, the weight the surface-area heuristic uses.
    pub fn area(&self) -> (r: i64)
        requires
            self.wf() || self == empty_bounds(),
        ensures
            r == self.area_spec(),
    {
        if self.min.x > self.max.x || self.min.y > self.max.y || self.min.z > self.max.z {
            0
        } else {
            let dx = self.max.x - self.min.x;
            let dy = self.max.y - self.min.y;
            let dz = self.max.z - self.min.z;
            proof {
                assert(0 <= dx * dy <= 0x1000000000000000 && 0 <= dx * dz <= 0x1000000000000000
                    && 0 <= dy * dz <= 0x1000000000000000) by (nonlinear_arith)
                    requires
                        0 <= dx <= 536870912,
                        0 <= dy <= 536870912,
                        0 <= dz <= 536870912,
                ;
            }
            2 * (dx * dy + dx * dz + dy * dz)
        }
    }
}

impl Default for Bounds3 {
    fn default() -> (r: Bounds3)
        ensures
            r == empty_bounds(),
    {
        Bounds3::empty()
    }
}

/// Box `a` lies inside box `b`, componentwise.
pub open spec fn box_le(a: Bounds3, b: Bounds3) -> bool {
    &&& b.min.x <= a.min.x
    &&& b.min.y <= a.min.y
    &&& b.min.z <= a.min.z
    &&& a.max.x <= b.max.x
    &&& a.max.y <= b.max.y
    &&& a.max.z <= b.max.z
}

/// The union is the least box holding its two parts.
pub proof fn lemma_union_lub(a: Bounds3, b: Bounds3, c: Bounds3)
    ensures
        box_le(a, union_spec(a, b)),
        box_le(b, union_spec(a, b)),
        box_le(a, c) && box_le(b, c) ==> box_le(union_spec(a, b), c),
{
}

/// Containment chains.
pub proof fn lemma_box_le_trans(a: Bounds3, b: Bounds3, c: Bounds3)
    requires
        box_le(a, b),
        box_le(b, c),
    ensures
        box_le(a, c),
{
}

/// Boxes inside one another are the same box.
pub proof fn lemma_box_le_antisym(a: Bounds3, b: Bounds3)
    requires
        box_le(a, b),
        box_le(b, a),
    ensures
        a == b,
{
}

/// The point `org + t * dir` lies between `min` and `max` on one axis,
/// stated over cross products so it is exact for rational `t`.
pub open spec fn on_axis(min: i64, max: i64, o: i64, d: i64, t: Rat) -> bool {
    min * t.den <= o * t.den + t.num * d && o * t.den + t.num * d <= max * t.den
}

/// The point `org + t * dir` lies inside the box.
pub open spec fn pt_in_box(b: Bounds3, org: Vec3i, dir: Vec3i, t: Rat) -> bool {
    &&& on_axis(b.min.x, b.max.x, org.x, dir.x, t)
    &&& on_axis(b.min.y, b.max.y, org.y, dir.y, t)
    &&& on_axis(b.min.z, b.max.z, org.z, dir.z, t)
}

/// `t` is a distance at which the ray, within its cutoff, touches the box.
pub open spec fn valid_box_hit(b: Bounds3, r: Ray, t: Rat) -> bool {
    &&& t.wf()
    &&& (Rat { num: 0, den: 1 }).spec_le(t)
    &&& t.spec_le(r.t_max)
    &&& pt_in_box(b, r.org, r.dir, t)
}

/// Narrows the pending parameter interval `[t0, t1]` by one axis's slab.
/// `None` means no parameter in the interval stays inside this axis's slab.
fn axis_slab(min_c: i64, max_c: i64, o: i64, d: i64, t0: Rat, t1: Rat) -> (r: Option<(Rat, Rat)>)
    requires
        -COORD_LIMIT <= min_c <= COORD_LIMIT,
        -COORD_LIMIT <= max_c <= COORD_LIMIT,
        -COORD_LIMIT <= o <= COORD_LIMIT,
        -COORD_LIMIT <= d <= COORD_LIMIT,
        t0.wf(),
        t1.wf(),
    ensures
        match r {
            Some(p) => p.0.wf() && p.1.wf() && p.0.spec_le(p.1) && forall|t: Rat|
                t.wf() ==> ((p.0.spec_le(t) && t.spec_le(p.1)) <==> (t0.spec_le(t) && t.spec_le(t1)
                    && on_axis(min_c, max_c, o, d, t))),
            None => forall|t: Rat|
                t.wf() ==> !(t0.spec_le(t) && t.spec_le(t1) && on_axis(min_c, max_c, o, d, t)),
        },
{
    if d == 0 {
        if o < min_c || o > max_c {
            proof {
                assert forall|t: Rat| t.wf() implies !(t0.spec_le(t) && t.spec_le(t1) && on_axis(
                    min_c,
                    max_c,
                    o,
                    d,
                    t,
                )) by {
                    assert(!(min_c * t.den <= o * t.den && o * t.den <= max_c * t.den))
                        by (nonlinear_arith)
                        requires
                            t.den > 0,
                            o < min_c || o > max_c,
                    ;
                }
            }
            return None;
        }
        proof {
            assert forall|t: Rat| t.wf() implies on_axis(min_c, max_c, o, d, t) by {
                assert(min_c * t.den <= o * t.den && o * t.den <= max_c * t.den)
                    by (nonlinear_arith)
                    requires
                        t.den > 0,
                        min_c <= o <= max_c,
                ;
            }
        }
        if t0.le(t1) {
            return Some((t0, t1));
        } else {
            proof {
                assert forall|t: Rat| t.wf() implies !(t0.spec_le(t) && t.spec_le(t1)) by {
                    if t0.spec_le(t) && t.spec_le(t1) {
                        lemma_rat_le_trans(t0, t, t1);
                    }
                }
            }
            return None;
        }
    }
    let (tn, tf): (Rat, Rat) = if d > 0 {
        (Rat { num: min_c - o, den: d }, Rat { num: max_c - o, den: d })
    } else {
        (Rat { num: o - max_c, den: -d }, Rat { num: o - min_c, den: -d })
    };
    proof {
        assert forall|t: Rat| t.wf() implies ((tn.spec_le(t) && t.spec_le(tf)) <==> on_axis(
            min_c,
            max_c,
            o,
            d,
            t,
        )) by {
            if d > 0 {
                assert(((min_c - o) * t.den <= t.num * d) == (min_c * t.den <= o * t.den + t.num
                    * d)) by (nonlinear_arith);
                assert((t.num * d <= (max_c - o) * t.den) == (o * t.den + t.num * d <= max_c
                    * t.den)) by (nonlinear_arith);
            } else {
                assert(((o - max_c) * t.den <= t.num * (-d)) == (o * t.den + t.num * d <= max_c
                    * t.den)) by (nonlinear_arith);
                assert((t.num * (-d) <= (o - min_c) * t.den) == (min_c * t.den <= o * t.den + t.num
                    * d)) by (nonlinear_arith);
            }
        }
    }
    let n0 = if t0.lt(tn) {
        tn
    } else {
        t0
    };
    let n1 = if tf.lt(t1) {
        tf
    } else {
        t1
    };
    proof {
        assert forall|t: Rat| t.wf() implies ((n0.spec_le(t) && t.spec_le(n1)) <==> (t0.spec_le(t)
            && t.spec_le(t1) && tn.spec_le(t) && t.spec_le(tf))) by {
            if n0.spec_le(t) && t.spec_le(n1) {
                if t0.spec_lt(tn) {
                    lemma_rat_le_trans(t0, tn, t);
                } else {
                    lemma_rat_le_trans(tn, t0, t);
                }
                if tf.spec_lt(t1) {
                    lemma_rat_le_trans(t, tf, t1);
                } else {
                    lemma_rat_le_trans(t, t1, tf);
                }
            }
        }
    }
    if n0.le(n1) {
        Some((n0, n1))
    } else {
        proof {
            assert forall|t: Rat| t.wf() implies !(t0.spec_le(t) && t.spec_le(t1) && on_axis(
                min_c,
                max_c,
                o,
                d,
                t,
            )) by {
                if t0.spec_le(t) && t.spec_le(t1) && on_axis(min_c, max_c, o, d, t) {
                    lemma_rat_le_trans(n0, t, n1);
                }
            }
        }
        None
    }
}

impl Bounds3 {
    /// The per-axis slab test: narrows `[0, t_max]` by each axis in turn
    /// and reports the entry distance, or the exit distance for a ray that
    /// starts inside the box, or nothing when the ray misses. The interval
    /// arithmetic is exact rational, so no conservative widening of the
    /// far intersections is needed to avoid false misses at box
    /// boundaries, and a zero direction component costs only an interval
    /// test on that axis.
    pub fn raycast(&self, ray: &Ray) -> (r: Option<Hit>)
        requires
            self.wf() || self.is_empty(),
            ray.wf(),
        ensures
            match r {
                Some(h) => valid_box_hit(*self, *ray, h.t) && (if valid_box_hit(
                    *self,
                    *ray,
                    (Rat { num: 0, den: 1 }),
                ) {
                    forall|t: Rat| #[trigger] valid_box_hit(*self, *ray, t) ==> t.spec_le(h.t)
                } else {
                    forall|t: Rat| #[trigger] valid_box_hit(*self, *ray, t) ==> h.t.spec_le(t)
                }),
                None => forall|t: Rat| !(#[trigger] valid_box_hit(*self, *ray, t)),
            },
    {
        if self.min.x > self.max.x || self.min.y > self.max.y || self.min.z > self.max.z {
            // an inverted box holds no point at all
            proof {
                assert forall|t: Rat| !(#[trigger] valid_box_hit(*self, *ray, t)) by {
                    if valid_box_hit(*self, *ray, t) {
                        if self.min.x > self.max.x {
                            assert(!(self.min.x * t.den <= self.max.x * t.den))
                                by (nonlinear_arith)
                                requires
                                    t.den > 0,
                                    self.min.x > self.max.x,
                            ;
                        } else if self.min.y > self.max.y {
                            assert(!(self.min.y * t.den <= self.max.y * t.den))
                                by (nonlinear_arith)
                                requires
                                    t.den > 0,
                                    self.min.y > self.max.y,
                            ;
                        } else {
                            assert(!(self.min.z * t.den <= self.max.z * t.den))
                                by (nonlinear_arith)
                                requires
                                    t.den > 0,
                                    self.min.z > self.max.z,
                            ;
                        }
                    }
                }
            }
            return None;
        }
        let zero = Rat { num: 0, den: 1 };
        let mut t0 = zero;
        let mut t1 = ray.t_max;
        let r1 = axis_slab(self.min.x, self.max.x, ray.org.x, ray.dir.x, t0, t1);
        match r1 {
            None => {
                return None;
            },
            Some(p) => {
                t0 = p.0;
                t1 = p.1;
            },
        }
        let r2 = axis_slab(self.min.y, self.max.y, ray.org.y, ray.dir.y, t0, t1);
        match r2 {
            None => {
                return None;
            },
            Some(p) => {
                t0 = p.0;
                t1 = p.1;
            },
        }
        let r3 = axis_slab(self.min.z, self.max.z, ray.org.z, ray.dir.z, t0, t1);
        match r3 {
            None => {
                return None;
            },
            Some(p) => {
                t0 = p.0;
                t1 = p.1;
            },
        }
        let t = if zero.lt(t0) {
            t0
        } else {
            t1
        };
        proof {
            assert(t0.spec_le(t0));
            assert(t1.spec_le(t1));
            assert(t0.spec_le(t) && t.spec_le(t1));
            assert(valid_box_hit(*self, *ray, t));
            if zero.spec_lt(t0) {
                // the narrowed interval starts past zero, so the zero
                // distance is not a valid hit and the entry is the least
                assert(!valid_box_hit(*self, *ray, zero)) by {
                    if valid_box_hit(*self, *ray, zero) {
                        assert(t0.spec_le(zero) && zero.spec_le(t1));
                    }
                }
                assert forall|u: Rat| #[trigger] valid_box_hit(*self, *ray, u) implies t.spec_le(
                    u,
                ) by {}
            } else {
                // the interval starts at or before zero: the ray begins
                // inside, zero is itself a valid hit, and the exit is the
                // greatest
                assert(t0.spec_le(zero));
                assert(zero.spec_le(t1)) by {
                    assert(t0.spec_le(t1) && t1.spec_le(t1));
                }
                assert(valid_box_hit(*self, *ray, zero));
                assert forall|u: Rat| #[trigger] valid_box_hit(*self, *ray, u) implies u.spec_le(
                    t,
                ) by {}
            }
        }
        Some(Hit { t })
    }
}

} // verus!

//! Spheres with integer center and radius, intersected exactly up to a
//! floor square root.

use crate::bounds::Bounds3;
use crate::bounds::pt_in_box;
use crate::primitive::Primitive;
use crate::rat::Rat;
use crate::ray::Hit;
use crate::ray::Ray;
use crate::vec3::Vec3i;
use vstd::prelude::*;

verus! {

/// Half of the coordinate limit: a sphere's box must stay in range.
pub const SPHERE_LIMIT: i64 = 134217728;

/// `s` is the floor square root of `n`.
pub open spec fn is_sqrt_floor(n: int, s: int) -> bool {
    s >= 0 && s * s <= n < (s + 1) * (s + 1)
}

/// The floor square root itself, as a value.
pub open spec fn sqrt_floor(n: int) -> int {
    choose|s: int| is_sqrt_floor(n, s)
}

/// The floor square root is unique, so any witness equals `sqrt_floor`.
pub proof fn lemma_sqrt_unique(n: int, s: int)
    requires
        is_sqrt_floor(n, s),
    ensures
        s == sqrt_floor(n),
{
    let s2 = sqrt_floor(n);
    assert(is_sqrt_floor(n, s2));
    if s < s2 {
        assert((s + 1) * (s + 1) <= s2 * s2) by (nonlinear_arith)
            requires
                0 <= s < s2,
        ;
    } else if s2 < s {
        assert((s2 + 1) * (s2 + 1) <= s * s) by (nonlinear_arith)
            requires
                0 <= s2 < s,
        ;
    }
}

/// Floor square root by binary search on the root's value.
pub fn isqrt(n: u128) -> (r: u128)
    ensures
        is_sqrt_floor(n as int, r as int),
{
    let mut lo: u128 = 0;
    let mut hi: u128 = 18446744073709551616;
    proof {
        assert((18446744073709551616 as int) * (18446744073709551616 as int) > n as int)
            by (nonlinear_arith)
            requires
                n <= u128::MAX,
        ;
    }
    while lo + 1 < hi
        invariant
            lo < hi <= 18446744073709551616,
            (lo as int) * (lo as int) <= n as int,
            (hi as int) * (hi as int) > n as int,
        decreases hi - lo,
    {
        let mid = lo + (hi - lo) / 2;
        proof {
            assert((mid as int) * (mid as int) <= u128::MAX as int) by (nonlinear_arith)
                requires
                    mid < 18446744073709551616,
            ;
        }
        if mid * mid <= n {
            lo = mid;
        } else {
            hi = mid;
        }
    }
    lo
}

/// Every nonnegative number has a floor square root.
proof fn lemma_sqrt_floor_exists(n: int)
    requires
        n >= 0,
    ensures
        is_sqrt_floor(n, sqrt_floor(n)),
    decreases n,
{
    if n == 0 {
        assert(is_sqrt_floor(0, 0));
    } else {
        lemma_sqrt_floor_exists(n - 1);
        let s = sqrt_floor(n - 1);
        if n < (s + 1) * (s + 1) {
            assert(is_sqrt_floor(n, s));
        } else {
            assert(n - 1 < (s + 1) * (s + 1));
            assert(n == (s + 1) * (s + 1));
            assert((s + 1) * (s + 1) < (s + 2) * (s + 2)) by (nonlinear_arith)
                requires
                    s >= 0,
            ;
            assert(is_sqrt_floor(n, s + 1));
        }
    }
}

/// A sphere: center and radius, both bounded so that the quadratic's
/// discriminant fits exact 128-bit arithmetic.
#[derive(Clone, Copy, Debug)]
pub struct Sphere {
    pub cnt: Vec3i,
    pub r: i64,
}

/// The quadratic solution `(-b - sqrt(det)) / a`, or the larger root when
/// the smaller is behind the origin. The square root is floored, so the
/// distance is exact whenever the discriminant is a perfect square, and
/// within one denominator unit otherwise. A zero direction never hits.
pub open spec fn sphere_hit(cnt: Vec3i, rad: i64, org: Vec3i, dir: Vec3i) -> Option<Rat> {
    let ox = org.x - cnt.x;
    let oy = org.y - cnt.y;
    let oz = org.z - cnt.z;
    let a = dir.x * dir.x + dir.y * dir.y + dir.z * dir.z;
    let b = ox * dir.x + oy * dir.y + oz * dir.z;
    let c = ox * ox + oy * oy + oz * oz - rad * rad;
    let det = b * b - c * a;
    if a == 0 || det < 0 {
        None
    } else {
        let s = sqrt_floor(det);
        if -b - s >= 0 {
            Some(Rat { num: (-b - s) as i64, den: a as i64 })
        } else if -b + s >= 0 {
            Some(Rat { num: (-b + s) as i64, den: a as i64 })
        } else {
            None
        }
    }
}

impl Sphere {
    pub open spec fn inv_spec(self) -> bool {
        &&& -SPHERE_LIMIT <= self.cnt.x <= SPHERE_LIMIT
    &&& -SPHERE_LIMIT <= self.cnt.y <= SPHERE_LIMIT
    &&& -SPHERE_LIMIT <= self.cnt.z <= SPHERE_LIMIT
    &&& 0 <= self.r <= SPHERE_LIMIT
    }

    pub fn new(cnt: Vec3i, r: i64) -> (s: Sphere)
        ensures
            s == (Sphere { cnt, r }),
    {
        Sphere { cnt, r }
    }

    /// Solves `t^2 (d.d) + 2 t (o-p).d + (o-p).(o-p) - r^2 = 0` for the
    /// smallest nonnegative root, exactly up to the floored square root.
    pub fn intersect(&self, ray_src: Vec3i, ray_dir: Vec3i) -> (r: Option<Rat>)
        requires
            self.inv_spec(),
            ray_src.in_range(),
            ray_dir.in_range(),
        ensures
            r == sphere_hit(self.cnt, self.r, ray_src, ray_dir),
            match r {
                Some(t) => t.wf() && t.spec_nonneg(),
                None => true,
            },
    {
        let ox = (ray_src.x - self.cnt.x) as i128;
        let oy = (ray_src.y - self.cnt.y) as i128;
        let oz = (ray_src.z - self.cnt.z) as i128;
        let dx = ray_dir.x as i128;
        let dy = ray_dir.y as i128;
        let dz = ray_dir.z as i128;
        let rr = self.r as i128;
        proof {
            assert forall|p: i128, q: i128|
                -536870912 <= p <= 536870912 && -536870912 <= q <= 536870912 implies -288230376151711744
                <= #[trigger] (p * q) <= 288230376151711744 by {
                assert(-288230376151711744 <= p * q <= 288230376151711744) by (nonlinear_arith)
                    requires
                        -536870912 <= p <= 536870912,
                        -536870912 <= q <= 536870912,
                ;
            }
        }
        let a = dx * dx + dy * dy + dz * dz;
        let b = ox * dx + oy * dy + oz * dz;
        let c = ox * ox + oy * oy + oz * oz - rr * rr;
        proof {
            assert(0 <= dx * dx && 0 <= dy * dy && 0 <= dz * dz && 0 <= ox * ox && 0 <= oy * oy
                && 0 <= oz * oz && 0 <= rr * rr) by (nonlinear_arith);
            assert(-1152921504606846976 <= b * b <= 1152921504606846976
                * 1152921504606846976int && -(1152921504606846976 * 1152921504606846976int) <= c
                * a <= 1152921504606846976 * 1152921504606846976int) by (nonlinear_arith)
                requires
                    -1152921504606846976 <= b <= 1152921504606846976,
                    -1152921504606846976 <= c <= 1152921504606846976,
                    0 <= a <= 1152921504606846976,
            ;
        }
        let det = b * b - c * a;
        if a == 0 || det < 0 {
            return None;
        }
        let su = isqrt(det as u128);
        proof {
            assert(su as int <= 2305843009213693952) by (nonlinear_arith)
                requires
                    su >= 0,
                    (su as int) * (su as int) <= det as int,
                    det as int <= 2305843009213693952 * 1152921504606846976int,
            ;
        }
        let s = su as i128;
        proof {
            lemma_sqrt_unique(det as int, s as int);
        }
        if -b - s >= 0 {
            Some(Rat { num: (-b - s) as i64, den: a as i64 })
        } else if -b + s >= 0 {
            Some(Rat { num: (-b + s) as i64, den: a as i64 })
        } else {
            None
        }
    }
}

impl Primitive for Sphere {
    open spec fn inv(&self) -> bool {
        self.inv_spec()
    }

    open spec fn bounds_spec(&self) -> Bounds3 {
        Bounds3 {
            min: Vec3i { x: (self.cnt.x - self.r) as i64, y: (self.cnt.y - self.r) as i64, z: (
            self.cnt.z - self.r) as i64 },
            max: Vec3i { x: (self.cnt.x + self.r) as i64, y: (self.cnt.y + self.r) as i64, z: (
            self.cnt.z + self.r) as i64 },
        }
    }

    open spec fn hit_spec(&self, org: Vec3i, dir: Vec3i) -> Option<Rat> {
        sphere_hit(self.cnt, self.r, org, dir)
    }

    fn bounds(&self) -> (r: Bounds3) {
        Bounds3 {
            min: Vec3i { x: self.cnt.x - self.r, y: self.cnt.y - self.r, z: self.cnt.z - self.r },
            max: Vec3i { x: self.cnt.x + self.r, y: self.cnt.y + self.r, z: self.cnt.z + self.r },
        }
    }

    fn raycast(&self, ray: &Ray) -> (r: Option<Hit>) {
        match self.intersect(ray.org, ray.dir) {
            Some(t) => Some(Hit { t }),
            None => None,
        }
    }

    fn clone_prim(&self) -> (r: Sphere) {
        Sphere { cnt: self.cnt, r: self.r }
    }

    proof fn hit_in_bounds(&self, org: Vec3i, dir: Vec3i, t: Rat) {
        let cx = self.cnt.x as int;
        let cy = self.cnt.y as int;
        let cz = self.cnt.z as int;
        let rr = self.r as int;
        let ox = org.x - cx;
        let oy = org.y - cy;
        let oz = org.z - cz;
        let dx = dir.x as int;
        let dy = dir.y as int;
        let dz = dir.z as int;
        let a = dx * dx + dy * dy + dz * dz;
        let b = ox * dx + oy * dy + oz * dz;
        let cc = ox * ox + oy * oy + oz * oz;
        let c = cc - rr * rr;
        let det = b * b - c * a;
        assert forall|p: int, q: int|
            -536870912 <= p <= 536870912 && -536870912 <= q <= 536870912 implies -288230376151711744
            <= #[trigger] (p * q) <= 288230376151711744 by {
            assert(-288230376151711744 <= p * q <= 288230376151711744) by (nonlinear_arith)
                requires
                    -536870912 <= p <= 536870912,
                    -536870912 <= q <= 536870912,
            ;
        }
        assert(0 <= dx * dx && 0 <= dy * dy && 0 <= dz * dz && 0 <= ox * ox && 0 <= oy * oy && 0
            <= oz * oz && 0 <= rr * rr) by (nonlinear_arith);
        assert(a != 0 && det >= 0);
        assert(-864691128455135232 <= b <= 864691128455135232);
        assert(0 <= a <= 864691128455135232);
        assert(-864691128455135232 <= c <= 864691128455135232);
        assert(det <= 2000000000000000000000000000000000000) by (nonlinear_arith)
            requires
                det == b * b - c * a,
                -864691128455135232 <= b <= 864691128455135232,
                -864691128455135232 <= c <= 864691128455135232,
                0 <= a <= 864691128455135232,
        ;
        let s = sqrt_floor(det);
        lemma_sqrt_floor_exists(det);
        assert(s <= 2000000000000000000) by (nonlinear_arith)
            requires
                s >= 0,
                s * s <= det,
                det <= 2000000000000000000000000000000000000,
        ;
        let xx = if -b - s >= 0 {
            -b - s
        } else {
            -b + s
        };
        assert(t.num == xx && t.den == a && xx >= 0);
        assert(t.wf() && t.spec_nonneg());
        // the returned root lies between the two exact roots, so its point
        // is inside the sphere, hence inside the sphere's box: the residual
        // of the quadratic at the root, scaled by the denominator squared,
        // is the squared offset of the hit point from the center
        let ex = ox * a + xx * dx;
        let ey = oy * a + xx * dy;
        let ez = oz * a + xx * dz;
        assert(ex * ex == (ox * a) * (ox * a) + 2 * ((ox * a) * (xx * dx)) + (xx * dx) * (xx * dx))
            by (nonlinear_arith)
            requires
                ex == ox * a + xx * dx,
        ;
        assert(ey * ey == (oy * a) * (oy * a) + 2 * ((oy * a) * (xx * dy)) + (xx * dy) * (xx * dy))
            by (nonlinear_arith)
            requires
                ey == oy * a + xx * dy,
        ;
        assert(ez * ez == (oz * a) * (oz * a) + 2 * ((oz * a) * (xx * dz)) + (xx * dz) * (xx * dz))
            by (nonlinear_arith)
            requires
                ez == oz * a + xx * dz,
        ;
        assert((ox * a) * (ox * a) == (ox * ox) * (a * a) && (oy * a) * (oy * a) == (oy * oy) * (a
            * a) && (oz * a) * (oz * a) == (oz * oz) * (a * a)) by (nonlinear_arith);
        assert((xx * dx) * (xx * dx) == (xx * xx) * (dx * dx) && (xx * dy) * (xx * dy) == (xx * xx)
            * (dy * dy) && (xx * dz) * (xx * dz) == (xx * xx) * (dz * dz)) by (nonlinear_arith);
        assert((ox * a) * (xx * dx) == (a * xx) * (ox * dx) && (oy * a) * (xx * dy) == (a * xx) * (
        oy * dy) && (oz * a) * (xx * dz) == (a * xx) * (oz * dz)) by (nonlinear_arith);
        assert((a * a) * cc == (ox * ox) * (a * a) + (oy * oy) * (a * a) + (oz * oz) * (a * a))
            by (nonlinear_arith)
            requires
                cc == ox * ox + oy * oy + oz * oz,
        ;
        assert((a * xx) * b == (a * xx) * (ox * dx) + (a * xx) * (oy * dy) + (a * xx) * (oz * dz))
            by (nonlinear_arith)
            requires
                b == ox * dx + oy * dy + oz * dz,
        ;
        assert((xx * xx) * a == (xx * xx) * (dx * dx) + (xx * xx) * (dy * dy) + (xx * xx) * (dz
            * dz)) by (nonlinear_arith)
            requires
                a == dx * dx + dy * dy + dz * dz,
        ;
        assert(ex * ex + ey * ey + ez * ez == (a * a) * cc + 2 * ((a * xx) * b) + (xx * xx) * a);
        assert(a * (xx * xx + 2 * b * xx + a * cc) == (xx * xx) * a + 2 * ((a * xx) * b) + (a * a)
            * cc) by (nonlinear_arith);
        // at either root the quadratic residual is the square-root slack
        assert(xx * xx + 2 * b * xx == s * s - b * b) by (nonlinear_arith)
            requires
                xx == -b - s || xx == -b + s,
        ;
        assert(a * cc == a * c + a * (rr * rr)) by (nonlinear_arith)
            requires
                cc == c + rr * rr,
        ;
        assert(a * c == c * a) by (nonlinear_arith);
        assert(xx * xx + 2 * b * xx + a * cc == s * s - det + a * (rr * rr));
        assert(a * (s * s - det + a * (rr * rr)) == a * (s * s - det) + a * (a * (rr * rr)))
            by (nonlinear_arith);
        assert(a * (s * s - det) <= 0) by (nonlinear_arith)
            requires
                a >= 0,
                s * s <= det,
        ;
        assert(a * (a * (rr * rr)) == (a * rr) * (a * rr)) by (nonlinear_arith);
        assert(ex * ex + ey * ey + ez * ez <= (a * rr) * (a * rr));
        assert(a * rr >= 0) by (nonlinear_arith)
            requires
                a >= 0,
                rr >= 0,
        ;
        assert(0 <= ex * ex && 0 <= ey * ey && 0 <= ez * ez) by (nonlinear_arith);
        assert(-(a * rr) <= ex <= a * rr && -(a * rr) <= ey <= a * rr && -(a * rr) <= ez <= a
            * rr) by (nonlinear_arith)
            requires
                ex * ex <= (a * rr) * (a * rr),
                ey * ey <= (a * rr) * (a * rr),
                ez * ez <= (a * rr) * (a * rr),
                a * rr >= 0,
        ;
        // unfold the per-axis box conditions
        assert((org.x - cx) * a == org.x * a - cx * a && (org.y - cy) * a == org.y * a - cy * a
            && (org.z - cz) * a == org.z * a - cz * a) by (nonlinear_arith);
        assert((cx - rr) * a == cx * a - rr * a && (cx + rr) * a == cx * a + rr * a && (cy - rr)
            * a == cy * a - rr * a && (cy + rr) * a == cy * a + rr * a && (cz - rr) * a == cz * a
            - rr * a && (cz + rr) * a == cz * a + rr * a) by (nonlinear_arith);
        assert(rr * a == a * rr) by (nonlinear_arith);
        assert(pt_in_box(self.bounds_spec(), org, dir, t));
    }
}

} // verus!

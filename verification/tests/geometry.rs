use illuminator::bounds::Bounds3;
use illuminator::primitive::Primitive;
use illuminator::ray::Ray;
use illuminator::sphere::Sphere;
use illuminator::vec3::Vec3i;

fn v(x: i64, y: i64, z: i64) -> Vec3i {
    Vec3i::new(x, y, z)
}

#[test]
fn test_bounds() {
    let b = Bounds3::new(v(-1, -1, -1), v(1, 1, 1));
    let b1 = Bounds3::new(v(-1, -1, -1), v(2, 2, 2));
    let b3 = b.union(b1);
    assert_eq!(b3.min.x, -1);
    assert_eq!(b3.max.x, 2);
    assert_eq!(b.centroid2().x, 0);
}

#[test]
fn test_hit_bounds() {
    // the box half-width is scaled to 10000 units, so a grazing distance
    // of one unit is vanishingly small next to it
    let e: i64 = 1;
    let b = Bounds3::new(v(-10000, -10000, -10000), v(10000, 10000, 10000));

    // just left of the box: a grazing hit at distance ~0, not a miss
    let org = v(-10000 - e, 0, 0);
    let dir = v(1, 0, 0);
    let ray = Ray::new(org, dir);

    let h = b.raycast(&ray);
    assert!(h.is_some());
    let h = h.unwrap();
    assert_eq!((h.t.num, h.t.den), (e, 1));

    // exactly on the near face: the exit distance comes back
    let org = v(-10000, 0, 0);
    let ray = Ray::new(org, dir);

    let h = b.raycast(&ray);
    assert!(h.is_some());
    assert_eq!((h.unwrap().t.num, 1), (20000, 1));

    // inside the box: the exit distance again
    let org = v(-10000 + e, 0, 0);
    let ray = Ray::new(org, dir);
    let h = b.raycast(&ray);
    assert!(h.is_some());
    assert_eq!(h.unwrap().t.num, 20000 - e);

    // already past the box: no hit
    let org = v(10000 + e, 0, 0);
    let ray = Ray::new(org, dir);
    let h = b.raycast(&ray);
    assert!(h.is_none());
}

#[test]
fn test_sphere() {
    let s = Sphere::new(v(0, 0, 0), 10);

    // axis rays from distance 20 hit the surface at distance 10
    let axes = [v(1, 0, 0), v(0, 1, 0), v(0, 0, 1)];
    for d in axes.iter() {
        let org = v(d.x * 20, d.y * 20, d.z * 20);
        let dir = v(-d.x, -d.y, -d.z);
        let hit = s.intersect(org, dir).unwrap();
        assert_eq!((hit.num, hit.den), (10, 1));
    }

    // a ray pointing away from the sphere misses
    assert!(s.intersect(v(20, 0, 0), v(0, 1, 0)).is_none());

    let b = s.bounds();
    assert_eq!(b.min.x, -10);
    assert_eq!(b.min.y, -10);
    assert_eq!(b.min.z, -10);
    assert_eq!(b.max.x, 10);
    assert_eq!(b.max.y, 10);
    assert_eq!(b.max.z, 10);
}

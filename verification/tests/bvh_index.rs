use illuminator::bounds::Bounds3;
use illuminator::bvh::BVH;
use illuminator::bvh::HitVisitor;
use illuminator::primitive::Primitive;
use illuminator::rat::Rat;
use illuminator::ray::Ray;
use illuminator::sphere::Sphere;
use illuminator::vec3::Vec3i;
use rand::seq::SliceRandom;
use std::time::Instant;

fn v(x: i64, y: i64, z: i64) -> Vec3i {
    Vec3i::new(x, y, z)
}

// one coordinate unit stands for half a scene unit, so a sphere of
// radius one half centered at i + 1/2 is exact in integers
fn diag_sphere(i: i64) -> Sphere {
    Sphere::new(v(2 * i + 1, 2 * i + 1, 2 * i + 1), 1)
}

#[test]
fn test_bvh_order() {
    // more than 1024 points per axis could share one 30-bit key cell
    let n: usize = 1024;
    let node_limit = 17;

    let mut bvh = BVH::new(n);
    let mut arr: Vec<usize> = (0..n).collect();
    let mut rng = rand::rng();
    arr.shuffle(&mut rng);
    for &i in arr.iter() {
        bvh.push(diag_sphere(i as i64));
    }

    // sequential build: all primitives come out sequentially ordered
    bvh.build(node_limit, false);

    for i in 1..n {
        let b1 = bvh.primitives[i].bounds();
        let b0 = bvh.primitives[i - 1].bounds();
        if b1.min.x < b0.min.x {
            panic!("b1:{} < b0:{}", i, i - 1);
        }
        assert!(b1.min.x >= b0.min.x)
    }
}

#[test]
fn test_bvh_nodes() {
    let n: usize = 1024;
    let node_limit = 17;

    let mut bvh = BVH::new(n);
    let mut arr: Vec<usize> = (0..n).collect();
    let mut rng = rand::rng();
    arr.shuffle(&mut rng);
    for &i in arr.iter() {
        bvh.push(diag_sphere(i as i64));
    }

    // parallel build: primitives are ordered inside each leaf's segment
    bvh.build(node_limit, true);

    let mut start = 0;
    while start < bvh.nodes.len() - 1 {
        let c = &bvh.nodes[start];
        let mut b = Bounds3::default();
        if c.nprimitives > 0 {
            for i in 0..c.nprimitives {
                let cb = bvh.primitives[c.offset + i].bounds();
                b = cb.union(b);
            }
            assert_eq!(b, c.bounds);
        } else {
            if start + 1 < bvh.nodes.len() {
                let c0 = &bvh.nodes[start + 1];
                b = c0.bounds.union(b);
            }
            if c.offset < bvh.nodes.len() {
                let c1 = &bvh.nodes[c.offset];
                b = c1.bounds.union(b);
            }
            assert_eq!(b, c.bounds)
        }

        start += 1;
    }
}

#[test]
fn test_bvh_cast() {
    let n: usize = 1024;
    let node_limit = 17;

    let mut bvh = BVH::new(n);
    let mut arr: Vec<usize> = (0..n).collect();
    let mut rng = rand::rng();
    arr.shuffle(&mut rng);
    let mut rays: Vec<(usize, Ray)> = Vec::new();
    for &i in arr.iter() {
        bvh.push(diag_sphere(i as i64));

        let org = v(2 * i as i64 + 1, 2 * i as i64 + 1, 2 * 1025);
        let dir = v(0, 0, -1);
        rays.push((i, Ray::new(org, dir)));
    }
    bvh.build(node_limit, true);

    let sw = Instant::now();

    rays.iter().for_each(|(i, ray)| {
        let hit = bvh.raycast(ray);
        assert!(hit.is_some());
        let t = hit.unwrap().t;
        // the hit distance is exactly 1024 - i scene units, doubled here
        assert_eq!((t.num, t.den), (2 * (1024 - *i as i64), 1));
    });

    println!(
        "raycast {} prims bvh, {}ms",
        bvh.primitives.len(),
        sw.elapsed().as_millis()
    );
}

#[test]
fn test_bvh_perf() {
    for n in [1024usize, 2048, 4096] {
        let node_limit = 65;

        let mut bvh = BVH::new(n);
        let mut arr: Vec<usize> = (0..n).collect();
        let mut rng = rand::rng();
        arr.shuffle(&mut rng);
        let mut rays: Vec<(usize, Ray)> = Vec::new();
        for &i in arr.iter() {
            bvh.push(diag_sphere(i as i64));

            let org = v(2 * i as i64 + 1, 2 * i as i64 + 1, 2 * (n as i64 + 1));
            let dir = v(0, 0, -1);
            rays.push((i, Ray::new(org, dir)));
        }
        bvh.build(node_limit, true);

        let sw = Instant::now();

        rays.iter().take(1024).for_each(|(_, ray)| {
            let hit = bvh.raycast(ray);
            assert!(hit.is_some());
        });

        println!(
            "raycast 1024 times, {} prims bvh, {}ms",
            bvh.primitives.len(),
            sw.elapsed().as_millis()
        );
    }
}

#[test]
fn test_two_builds_agree() {
    // two builds from the same unordered input give the same nearest hits
    let n: usize = 512;
    let mut rng = rand::rng();

    let mut arr0: Vec<usize> = (0..n).collect();
    arr0.shuffle(&mut rng);
    let mut bvh0 = BVH::new(n);
    for &i in arr0.iter() {
        bvh0.push(diag_sphere(i as i64));
    }
    bvh0.build(33, true);

    let mut arr1: Vec<usize> = (0..n).collect();
    arr1.shuffle(&mut rng);
    let mut bvh1 = BVH::new(n);
    for &i in arr1.iter() {
        bvh1.push(diag_sphere(i as i64));
    }
    bvh1.build(33, false);

    for i in 0..n {
        let org = v(2 * i as i64 + 1, 2 * i as i64 + 1, 2 * (n as i64 + 1));
        let dir = v(0, 0, -1);
        let ray = Ray::new(org, dir);
        let h0 = bvh0.raycast_node(&ray);
        let h1 = bvh1.raycast_node(&ray);
        assert_eq!(h0.is_some(), h1.is_some());
        if let (Some((hit0, i0)), Some((hit1, i1))) = (h0, h1) {
            assert_eq!((hit0.t.num, hit0.t.den), (hit1.t.num, hit1.t.den));
            // the hit primitive is the same sphere, whatever its slot
            assert_eq!(bvh0.primitives[i0].cnt, bvh1.primitives[i1].cnt);
        }
    }
}

struct CountAll {
    seen: usize,
}

impl HitVisitor for CountAll {
    fn visit(&mut self, _prim_index: usize, _t: Rat) -> bool {
        self.seen += 1;
        false
    }
}

struct StopFirst {
    seen: usize,
}

impl HitVisitor for StopFirst {
    fn visit(&mut self, _prim_index: usize, _t: Rat) -> bool {
        self.seen += 1;
        true
    }
}

#[test]
fn test_any_raycast_visits_all() {
    // ten collinear spheres pierced by one ray: the multi-hit walk
    // reports each of them, and an early stop ends after one
    let n: usize = 10;
    let mut bvh = BVH::new(n);
    for i in 0..n {
        bvh.push(Sphere::new(v(0, 0, 10 * i as i64), 2));
    }
    bvh.build(4, false);

    let ray = Ray::new(v(0, 0, -100), v(0, 0, 1));
    let mut all = CountAll { seen: 0 };
    let (stopped, _) = bvh.any_raycast(&ray, &mut all);
    assert!(!stopped);
    assert_eq!(all.seen, n);

    let mut one = StopFirst { seen: 0 };
    let (stopped, _) = bvh.any_raycast(&ray, &mut one);
    assert!(stopped);
    assert_eq!(one.seen, 1);
}

#[test]
fn test_empty_bvh() {
    let mut bvh: BVH<Sphere> = BVH::new(0);
    bvh.build(17, false);
    let ray = Ray::new(v(0, 0, 0), v(0, 0, 1));
    assert!(bvh.raycast(&ray).is_none());
    assert_eq!(bvh.bounds(), Bounds3::empty());
}

#[test]
fn test_coincident_centroids() {
    // degenerate geometry: every centroid in one spot still builds
    let n: usize = 64;
    let mut bvh = BVH::new(n);
    for i in 0..n {
        bvh.push(Sphere::new(v(5, 5, 5), 1 + (i as i64 % 3)));
    }
    bvh.build(4, false);
    let ray = Ray::new(v(5, 5, -100), v(0, 0, 1));
    let hit = bvh.raycast(&ray);
    assert!(hit.is_some());
}

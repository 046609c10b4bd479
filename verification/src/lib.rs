//! A bounding-volume hierarchy (BVH) over integer-coordinate primitives:
//! Morton-code bucketing, a stable radix sort with in-place permutation
//! application, bottom-up treelet building, a surface-area-heuristic merge,
//! a flattened linear node array and ray traversal over it.

pub mod bounds;
pub mod bvh;
pub mod bvhbuild;
pub mod image;
pub mod primitive;
pub mod morton;
pub mod rat;
pub mod sphere;
pub mod tensor;
pub mod util;
pub mod ray;
pub mod vec3;

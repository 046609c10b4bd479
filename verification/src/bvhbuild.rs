//! Building the index: Morton bucketing into treelets, a bottom-up build
//! of each treelet over key bits, a surface-area-heuristic merge of the
//! treelet roots, and flattening into the linear array.
//!
//! Each treelet builds into its own node arena and its own slice of
//! reordered primitives, and one sequential splice joins the slices
//! afterwards. That replaces coordination through an atomic cursor over a
//! shared buffer: the destination ranges are disjoint by construction, so
//! the treelets can run in parallel with nothing shared but read-only
//! input.

use crate::bounds::Bounds3;
use crate::bounds::box_le;
use crate::bounds::empty_bounds;
use crate::bounds::lemma_box_le_trans;
use crate::bounds::lemma_union_lub;
use crate::bounds::union_spec;
use crate::bvh::BVH;
use crate::bvh::LinearBVHNode;
use crate::bvh::in_subtree;
use crate::bvh::node_wf;
use crate::bvh::range_bounds;
use crate::bvh::seg_wf;
use crate::morton::MortonCode;
use crate::morton::encode_morton3;
use crate::morton::radix_sort;
use crate::morton::sorts_into;
use crate::primitive::Primitive;
use rayon::iter::IntoParallelRefIterator;
use rayon::iter::ParallelIterator;
use vstd::prelude::*;

verus! {

/// A proxy record for sorting: the 30-bit key and the originating
/// primitive's slot. Created once per build and discarded after sorting.
#[derive(Clone, Copy, Debug)]
pub struct MortonPrim {
    pub code: u32,
    pub prim_index: usize,
}

impl MortonCode for MortonPrim {
    open spec fn code_spec(&self) -> u32 {
        self.code
    }

    fn morton_code(&self) -> (r: u32) {
        self.code
    }
}

/// A node of the build arena. Children are arena slots, always below the
/// node's own slot: subtrees are finished before their parent.
#[derive(Clone, Copy, Debug)]
pub struct BuildNode {
    pub bounds: Bounds3,
    pub axis: usize,
    pub prim_offset: usize,
    pub nprimitives: usize,
    pub c0: usize,
    pub c1: usize,
}

/// A leaf's box is the union of its primitive range's boxes; an interior
/// node's box is the union of its children's, which sit at lower slots.
pub open spec fn build_node_wf<P: Primitive>(
    arena: Seq<BuildNode>,
    prims: Seq<P>,
    i: int,
) -> bool {
    let nd = arena[i];
    if nd.nprimitives > 0 {
        &&& nd.prim_offset + nd.nprimitives <= prims.len()
        &&& nd.bounds == range_bounds(prims, nd.prim_offset as int, nd.prim_offset
            + nd.nprimitives)
        &&& nd.bounds.wf()
    } else {
        &&& nd.c0 < i
        &&& nd.c1 < i
        &&& nd.axis < 3
        &&& nd.bounds == union_spec(arena[nd.c0 as int].bounds, arena[nd.c1 as int].bounds)
        &&& nd.bounds.wf()
    }
}

pub open spec fn arena_wf<P: Primitive>(arena: Seq<BuildNode>, prims: Seq<P>) -> bool {
    forall|i: int| 0 <= i < arena.len() ==> #[trigger] build_node_wf(arena, prims, i)
}

/// Primitive slot `p` lies under the arena subtree rooted at slot `i`.
pub open spec fn arena_covers(arena: Seq<BuildNode>, i: int, p: int) -> bool
    decreases i,
{
    if !(0 <= i < arena.len()) {
        false
    } else {
        let nd = arena[i];
        if nd.nprimitives > 0 {
            nd.prim_offset <= p < nd.prim_offset + nd.nprimitives
        } else if nd.c0 < i && nd.c1 < i {
            arena_covers(arena, nd.c0 as int, p) || arena_covers(arena, nd.c1 as int, p)
        } else {
            false
        }
    }
}

/// Coverage reads only slots at or below the root, so appended nodes
/// change nothing.
proof fn lemma_arena_covers_frame(a1: Seq<BuildNode>, a2: Seq<BuildNode>, i: int, p: int)
    requires
        0 <= i < a1.len(),
        a2.len() >= a1.len(),
        forall|j: int| 0 <= j < a1.len() ==> a2[j] == a1[j],
        arena_covers(a1, i, p),
    ensures
        arena_covers(a2, i, p),
    decreases i,
{
    let nd = a1[i];
    if nd.nprimitives == 0 {
        if arena_covers(a1, nd.c0 as int, p) {
            lemma_arena_covers_frame(a1, a2, nd.c0 as int, p);
        } else {
            lemma_arena_covers_frame(a1, a2, nd.c1 as int, p);
        }
    }
}

/// Ranges that read the same primitives have the same box.
proof fn lemma_range_bounds_eq<P: Primitive>(
    p1: Seq<P>,
    lo1: int,
    p2: Seq<P>,
    lo2: int,
    n: int,
)
    requires
        0 <= lo1,
        0 <= lo2,
        lo1 + n <= p1.len(),
        lo2 + n <= p2.len(),
        forall|k: int| 0 <= k < n ==> p2[lo2 + k] == p1[#[trigger] (lo1 + k)],
    ensures
        range_bounds(p2, lo2, lo2 + n) == range_bounds(p1, lo1, lo1 + n),
    decreases n,
{
    if n > 0 {
        lemma_range_bounds_eq(p1, lo1, p2, lo2, n - 1);
        assert(p2[lo2 + (n - 1)] == p1[lo1 + (n - 1)]);
    }
}

/// Two adjacent ranges union into the whole.
proof fn lemma_range_bounds_concat<P: Primitive>(prims: Seq<P>, lo: int, mid: int, hi: int)
    requires
        0 <= lo <= mid <= hi <= prims.len(),
    ensures
        union_spec(range_bounds(prims, lo, mid), range_bounds(prims, mid, hi)) == range_bounds(
            prims,
            lo,
            hi,
        ),
    decreases hi - mid,
{
    if hi == mid {
        assert(union_spec(range_bounds(prims, lo, mid), empty_bounds()) == range_bounds(
            prims,
            lo,
            mid,
        ));
    } else {
        lemma_range_bounds_concat(prims, lo, mid, hi - 1);
        assert(union_spec(
            union_spec(range_bounds(prims, lo, mid), range_bounds(prims, mid, hi - 1)),
            prims[hi - 1].bounds_spec(),
        ) == union_spec(
            range_bounds(prims, lo, mid),
            union_spec(range_bounds(prims, mid, hi - 1), prims[hi - 1].bounds_spec()),
        ));
    }
}

/// An arena's shape survives appending nodes and primitives.
proof fn lemma_arena_wf_extend<P: Primitive>(
    a1: Seq<BuildNode>,
    p1: Seq<P>,
    a2: Seq<BuildNode>,
    p2: Seq<P>,
)
    requires
        arena_wf(a1, p1),
        a2.len() >= a1.len(),
        p2.len() >= p1.len(),
        forall|i: int| 0 <= i < a1.len() ==> a2[i] == a1[i],
        forall|q: int| 0 <= q < p1.len() ==> p2[q] == p1[q],
    ensures
        forall|i: int| 0 <= i < a1.len() ==> #[trigger] build_node_wf(a2, p2, i),
{
    assert forall|i: int| 0 <= i < a1.len() implies #[trigger] build_node_wf(a2, p2, i) by {
        assert(build_node_wf(a1, p1, i));
        let nd = a1[i];
        if nd.nprimitives > 0 {
            lemma_range_bounds_eq(
                p1,
                nd.prim_offset as int,
                p2,
                nd.prim_offset as int,
                nd.nprimitives as int,
            );
        }
    }
}

/// Record `j` of the run starting at `lo` agrees with the run's first
/// record on the masked bit.
pub open spec fn bit_match(morton: Seq<MortonPrim>, lo: int, j: int, mask: u32) -> bool {
    (morton[lo + j].code & mask) == (morton[lo].code & mask)
}

/// Agreement with the first record is a prefix of the run: once a record
/// differs, all later ones do. Sorted runs with equal higher bits have
/// this shape.
pub open spec fn match_monotone(morton: Seq<MortonPrim>, lo: int, n: int, mask: u32) -> bool {
    forall|j1: int, j2: int|
        0 <= j1 <= j2 < n && #[trigger] bit_match(morton, lo, j2, mask) ==> #[trigger] bit_match(
            morton,
            lo,
            j1,
            mask,
        )
}

/// The largest prefix length whose records match the first record on the
/// masked bit, plus one: the place where the run splits on this bit. Found
/// by binary search; always a proper cut of the run, and over a run whose
/// agreement is a prefix, exactly the cut after the last agreeing record
/// (clamped one short of the end when every record agrees).
fn find_split(morton: &Vec<MortonPrim>, lo: usize, n: usize, mask: u32) -> (s: usize)
    requires
        n >= 2,
        lo + n <= morton@.len(),
    ensures
        1 <= s <= n - 1,
        match_monotone(morton@, lo as int, n as int, mask) ==> (forall|j: int|
            0 <= j < s ==> #[trigger] bit_match(morton@, lo as int, j, mask)) && (s < n - 1
            ==> !bit_match(morton@, lo as int, s as int, mask)),
{
    let mlen = morton.len();
    let first = morton[lo].code & mask;
    let mut sz = n - 2;
    let mut base: usize = 1;
    while sz > 0
        invariant
            1 <= base,
            base + sz <= n - 1,
            lo + n <= mlen,
            mlen == morton@.len(),
            n >= 2,
            first == morton@[lo as int].code & mask,
            match_monotone(morton@, lo as int, n as int, mask) ==> forall|j: int|
                0 <= j < base ==> #[trigger] bit_match(morton@, lo as int, j, mask),
            match_monotone(morton@, lo as int, n as int, mask) ==> forall|j: int|
                base + sz <= j <= n - 2 ==> !(#[trigger] bit_match(morton@, lo as int, j, mask)),
        decreases sz,
    {
        let half = sz / 2;
        let mid = base + half;
        if (morton[lo + mid].code & mask) == first {
            proof {
                if match_monotone(morton@, lo as int, n as int, mask) {
                    assert(bit_match(morton@, lo as int, mid as int, mask));
                    assert forall|j: int| 0 <= j < mid + 1 implies #[trigger] bit_match(
                        morton@,
                        lo as int,
                        j,
                        mask,
                    ) by {}
                }
            }
            base = mid + 1;
            sz = sz - (half + 1);
        } else {
            proof {
                if match_monotone(morton@, lo as int, n as int, mask) {
                    assert(!bit_match(morton@, lo as int, mid as int, mask));
                    assert forall|j: int| mid <= j <= n - 2 implies !(#[trigger] bit_match(
                        morton@,
                        lo as int,
                        j,
                        mask,
                    )) by {
                        if bit_match(morton@, lo as int, j, mask) {
                            assert(bit_match(morton@, lo as int, mid as int, mask));
                        }
                    }
                }
            }
            sz = half;
        }
    }
    // the last matching index is `base - 1`; split just after it
    let mut s = base;
    if s > n - 1 {
        s = n - 1;
    }
    s
}

/// Builds the subtree for the sorted run `morton[lo .. lo + n]`, descending
/// from `bit`: a leaf once the bits run out or the run is below the leaf
/// limit, a skipped level when the whole run agrees on the bit, else a cut
/// at the bit's boundary and one child per side. Leaves claim the next free
/// range of `ordered` and copy their primitives into it in key order.
#[verifier::rlimit(100)]
fn emit_lbvh<P: Primitive>(
    prims: &Vec<P>,
    morton: &Vec<MortonPrim>,
    lo: usize,
    n: usize,
    limit: usize,
    bit: i32,
    arena: &mut Vec<BuildNode>,
    ordered: &mut Vec<P>,
) -> (root: usize)
    requires
        forall|p: int| 0 <= p < prims@.len() ==> (#[trigger] prims@[p]).inv(),
        lo + n <= morton@.len(),
        forall|q: int|
            0 <= q < morton@.len() ==> (#[trigger] morton@[q]).prim_index < prims@.len(),
        n >= 1,
        -1 <= bit <= 29,
        arena_wf(old(arena)@, old(ordered)@),
        old(ordered)@.len() + n <= usize::MAX,
    ensures
        final(arena)@.len() > old(arena)@.len(),
        final(arena)@.len() <= old(arena)@.len() + 2 * n - 1,
        root == final(arena)@.len() - 1,
        forall|i: int| 0 <= i < old(arena)@.len() ==> final(arena)@[i] == old(arena)@[i],
        final(ordered)@.len() == old(ordered)@.len() + n,
        forall|q: int| 0 <= q < old(ordered)@.len() ==> final(ordered)@[q] == old(ordered)@[q],
        forall|k: int|
            0 <= k < n ==> #[trigger] final(ordered)@[old(ordered)@.len() + k]
                == prims@[morton@[lo + k].prim_index as int],
        arena_wf(final(arena)@, final(ordered)@),
        final(arena)@[root as int].bounds == range_bounds(
            final(ordered)@,
            old(ordered)@.len() as int,
            old(ordered)@.len() + n,
        ),
        final(arena)@[root as int].bounds.wf(),
        forall|p: int|
            old(ordered)@.len() <= p < old(ordered)@.len() + n ==> #[trigger] arena_covers(
                final(arena)@,
                root as int,
                p,
            ),
    decreases bit + 1,
{
    let mlen = morton.len();
    let ghost a0 = arena@;
    let ghost o0 = ordered@;
    if bit == -1 || n < limit {
        // leaf: claim the next range and copy primitives in key order
        let first = ordered.len();
        let mut bb = Bounds3::empty();
        let mut k: usize = 0;
        while k < n
            invariant
                k <= n,
                n >= 1,
                lo + n <= mlen,
                mlen == morton@.len(),
                forall|p: int| 0 <= p < prims@.len() ==> (#[trigger] prims@[p]).inv(),
                forall|q: int|
                    0 <= q < morton@.len() ==> (#[trigger] morton@[q]).prim_index < prims@.len(),
                first == o0.len(),
                o0.len() + n <= usize::MAX,
                ordered@.len() == o0.len() + k,
                forall|q: int| 0 <= q < o0.len() ==> ordered@[q] == o0[q],
                forall|j: int|
                    0 <= j < k ==> #[trigger] ordered@[first + j] == prims@[morton@[lo
                        + j].prim_index as int],
                bb == range_bounds(ordered@, first as int, first + k),
                k > 0 ==> bb.wf(),
                arena@ == a0,
                o0 == old(ordered)@,
            decreases n - k,
        {
            let ghost opre = ordered@;
            let mp = morton[lo + k];
            let p = prims[mp.prim_index].clone_prim();
            let pb = p.bounds();
            let nb = bb.union(pb);
            ordered.push(p);
            proof {
                lemma_range_bounds_eq(opre, first as int, ordered@, first as int, k as int);
                assert(range_bounds(ordered@, first as int, first + (k + 1)) == union_spec(
                    range_bounds(ordered@, first as int, first + k),
                    ordered@[first + k].bounds_spec(),
                ));
            }
            bb = nb;
            k = k + 1;
        }
        let node = BuildNode {
            bounds: bb,
            axis: 0,
            prim_offset: first,
            nprimitives: n,
            c0: 0,
            c1: 0,
        };
        arena.push(node);
        proof {
            lemma_arena_wf_extend(a0, o0, arena@, ordered@);
            assert(build_node_wf(arena@, ordered@, a0.len() as int));
            assert forall|i: int| 0 <= i < arena@.len() implies #[trigger] build_node_wf(
                arena@,
                ordered@,
                i,
            ) by {}
            assert forall|p: int|
                o0.len() <= p < o0.len() + n implies #[trigger] arena_covers(
                arena@,
                a0.len() as int,
                p,
            ) by {}
        }
        arena.len() - 1
    } else {
        let mask: u32 = 1u32 << (bit as u32);
        let first_code = morton[lo].code & mask;
        let last_code = morton[lo + n - 1].code & mask;
        if first_code == last_code {
            // no cut at this bit: skip to the next lower one
            let r = emit_lbvh(prims, morton, lo, n, limit, bit - 1, arena, ordered);
            return r;
        }
        let split = find_split(morton, lo, n, mask);
        let r0 = emit_lbvh(prims, morton, lo, split, limit, bit - 1, arena, ordered);
        let ghost a1 = arena@;
        let ghost o1 = ordered@;
        let r1 = emit_lbvh(prims, morton, lo + split, n - split, limit, bit - 1, arena, ordered);
        let b0 = arena[r0].bounds;
        let b1 = arena[r1].bounds;
        let b = b0.union(b1);
        let axis = (bit as usize) % 3;
        let node = BuildNode {
            bounds: b,
            axis,
            prim_offset: 0,
            nprimitives: 0,
            c0: r0,
            c1: r1,
        };
        let ghost a2 = arena@;
        let ghost o2 = ordered@;
        arena.push(node);
        proof {
            // the left child's range reads the same primitives in the
            // final array
            lemma_range_bounds_eq(o1, o0.len() as int, ordered@, o0.len() as int, split as int);
            lemma_range_bounds_concat(ordered@, o0.len() as int, o0.len() + split, o0.len() + n);
            lemma_arena_wf_extend(a2, o2, arena@, ordered@);
            assert(build_node_wf(arena@, ordered@, a2.len() as int));
            assert forall|i: int| 0 <= i < arena@.len() implies #[trigger] build_node_wf(
                arena@,
                ordered@,
                i,
            ) by {}
            assert forall|k: int|
                0 <= k < n implies #[trigger] final(ordered)@[o0.len() + k] == prims@[morton@[lo
                + k].prim_index as int] by {
                if k < split {
                    assert(o1[o0.len() + k] == prims@[morton@[lo + k].prim_index as int]);
                } else {
                    assert(ordered@[o1.len() + (k - split)] == prims@[morton@[lo + split + (k
                        - split)].prim_index as int]);
                }
            }
            assert forall|p: int|
                o0.len() <= p < o0.len() + n implies #[trigger] arena_covers(
                arena@,
                a2.len() as int,
                p,
            ) by {
                if p < o0.len() + split {
                    assert(arena_covers(a1, r0 as int, p));
                    lemma_arena_covers_frame(a1, arena@, r0 as int, p);
                } else {
                    assert(arena_covers(a2, r1 as int, p));
                    lemma_arena_covers_frame(a2, arena@, r1 as int, p);
                }
            }
        }
        arena.len() - 1
    }
}

/// How many buckets the surface-area heuristic scores.
pub const N_BUCKETS: usize = 12;

/// Primitive `p` lies under the `k`-th root of the list.
spec fn rc_at(arena: Seq<BuildNode>, roots: Seq<usize>, k: int, p: int) -> bool {
    0 <= k < roots.len() && arena_covers(arena, roots[k] as int, p)
}

/// Slot `j` of `s` holds `x`.
spec fn seq_at(s: Seq<usize>, j: int, x: usize) -> bool {
    0 <= j < s.len() && s[j] == x
}

/// `x` occurs somewhere in `s`.
spec fn seq_has(s: Seq<usize>, x: usize) -> bool {
    exists|j: int| #[trigger] seq_at(s, j, x)
}

proof fn lemma_seq_has_push(s: Seq<usize>, x: usize, y: usize)
    requires
        seq_has(s, y) || x == y,
    ensures
        seq_has(s.push(x), y),
{
    if seq_has(s, y) {
        let j = choose|j: int| #[trigger] seq_at(s, j, y);
        assert(seq_at(s.push(x), j, y));
    } else {
        assert(seq_at(s.push(x), s.len() as int, y));
    }
}

proof fn lemma_seq_has_remove_first(s: Seq<usize>, y: usize)
    requires
        s.len() >= 1,
        seq_has(s, y),
    ensures
        y == s[0] || seq_has(s.remove(0), y),
{
    let j = choose|j: int| #[trigger] seq_at(s, j, y);
    if j > 0 {
        assert(seq_at(s.remove(0), j - 1, y));
    }
}

/// Pushing the `k`-th root to one side keeps both sides drawn from the
/// roots and keeps every processed root on some side.
proof fn lemma_partition_step(
    lpre: Seq<usize>,
    rpre: Seq<usize>,
    l2: Seq<usize>,
    r2: Seq<usize>,
    roots: Seq<usize>,
    k: int,
    ri: usize,
)
    requires
        0 <= k < roots.len(),
        ri == roots[k],
        (l2 == lpre.push(ri) && r2 == rpre) || (l2 == lpre && r2 == rpre.push(ri)),
        forall|j: int| 0 <= j < lpre.len() ==> seq_has(roots, #[trigger] lpre[j]),
        forall|j: int| 0 <= j < rpre.len() ==> seq_has(roots, #[trigger] rpre[j]),
        forall|j: int|
            0 <= j < k ==> seq_has(lpre, #[trigger] roots[j]) || seq_has(rpre, roots[j]),
    ensures
        forall|j: int| 0 <= j < l2.len() ==> seq_has(roots, #[trigger] l2[j]),
        forall|j: int| 0 <= j < r2.len() ==> seq_has(roots, #[trigger] r2[j]),
        forall|j: int|
            0 <= j < k + 1 ==> seq_has(l2, #[trigger] roots[j]) || seq_has(r2, roots[j]),
{
    assert(seq_at(roots, k, ri));
    if l2 == lpre.push(ri) && r2 == rpre {
        assert forall|j: int| 0 <= j < l2.len() implies seq_has(roots, #[trigger] l2[j]) by {
            if j < lpre.len() {
                assert(l2[j] == lpre[j]);
            } else {
                assert(l2[j] == ri);
            }
        }
        assert forall|j: int|
            0 <= j < k + 1 implies seq_has(l2, #[trigger] roots[j]) || seq_has(r2, roots[j]) by {
            if j == k {
                assert(seq_at(l2, lpre.len() as int, roots[j]));
            } else {
                if seq_has(lpre, roots[j]) {
                    lemma_seq_has_push(lpre, ri, roots[j]);
                }
            }
        }
    } else {
        assert forall|j: int| 0 <= j < r2.len() implies seq_has(roots, #[trigger] r2[j]) by {
            if j < rpre.len() {
                assert(r2[j] == rpre[j]);
            } else {
                assert(r2[j] == ri);
            }
        }
        assert forall|j: int|
            0 <= j < k + 1 implies seq_has(l2, #[trigger] roots[j]) || seq_has(r2, roots[j]) by {
            if j == k {
                assert(seq_at(r2, rpre.len() as int, roots[j]));
            } else {
                if seq_has(rpre, roots[j]) {
                    lemma_seq_has_push(rpre, ri, roots[j]);
                }
            }
        }
    }
}

proof fn lemma_seq_has_drop_last(s: Seq<usize>, y: usize)
    requires
        s.len() >= 1,
        seq_has(s, y),
    ensures
        y == s[s.len() - 1] || seq_has(s.drop_last(), y),
{
    let j = choose|j: int| #[trigger] seq_at(s, j, y);
    if j < s.len() - 1 {
        assert(seq_at(s.drop_last(), j, y));
    }
}

proof fn lemma_area_bound(b: Bounds3)
    requires
        b.wf() || b == empty_bounds(),
    ensures
        0 <= b.area_spec() <= 1729382256910270464,
{
    if !b.is_empty() {
        let dx = b.max.x - b.min.x;
        let dy = b.max.y - b.min.y;
        let dz = b.max.z - b.min.z;
        assert(0 <= 2 * (dx * dy + dx * dz + dy * dz) <= 1729382256910270464)
            by (nonlinear_arith)
            requires
                0 <= dx <= 536870912,
                0 <= dy <= 536870912,
                0 <= dz <= 536870912,
        ;
    }
}

proof fn lemma_cost_fits(c: i128, a: i128)
    requires
        0 <= c <= 0xffffffffffffffff,
        0 <= a <= 1729382256910270464,
    ensures
        0 <= c * a <= 0x7fffffffffffffffffffffffffffffffint / 2,
{
    assert(0 <= c * a <= 0x7fffffffffffffffffffffffffffffffint / 2) by (nonlinear_arith)
        requires
            0 <= c <= 0xffffffffffffffff,
            0 <= a <= 1729382256910270464,
    ;
}

/// The bucket a doubled centroid falls in among twelve equal-width
/// buckets of the extent, clamped at both ends.
pub open spec fn bucket12_spec(c: int, lo2: int, hi2: int) -> int {
    let num = c - lo2;
    if num <= 0 {
        0
    } else {
        let q = (num * 12) / (hi2 - lo2);
        if q >= 12 {
            11
        } else {
            q
        }
    }
}

fn bucket12(c: i64, lo2: i64, hi2: i64) -> (b: usize)
    requires
        hi2 > lo2,
        -1073741824 <= c <= 1073741824,
        -1073741824 <= lo2 <= 1073741824,
        -1073741824 <= hi2 <= 1073741824,
    ensures
        b < 12,
        b == bucket12_spec(c as int, lo2 as int, hi2 as int),
{
    let num = c - lo2;
    if num <= 0 {
        return 0;
    }
    let q = (num * 12) / (hi2 - lo2);
    if q >= 12 {
        11
    } else {
        q as usize
    }
}

/// Merges the treelet roots into the top of the tree: the split axis is
/// the widest centroid axis, each root goes to one of twelve equal-width
/// buckets along it, each of the eleven cuts is scored by the
/// count-weighted surface areas of its two sides, and the cheapest cut
/// splits the list; a cut that leaves one side empty is mended by peeling
/// one root across. The fixed overhead and the total-area divisor of the
/// usual cost formula are shared by every cut, so the cuts are compared
/// by their exact integer numerators. Runs single-threaded over the root
/// list.
#[verifier::rlimit(100)]
fn build_sah<P: Primitive>(
    arena: &mut Vec<BuildNode>,
    roots: &Vec<usize>,
    ordered: &Vec<P>,
) -> (root: usize)
    requires
        roots@.len() >= 1,
        forall|k: int| 0 <= k < roots@.len() ==> (#[trigger] roots@[k]) < old(arena)@.len(),
        arena_wf(old(arena)@, ordered@),
    ensures
        arena_wf(final(arena)@, ordered@),
        final(arena)@.len() >= old(arena)@.len(),
        forall|i: int| 0 <= i < old(arena)@.len() ==> final(arena)@[i] == old(arena)@[i],
        root < final(arena)@.len(),
        final(arena)@[root as int].bounds.wf(),
        forall|k: int|
            0 <= k < roots@.len() ==> box_le(
                (#[trigger] old(arena)@[roots@[k] as int]).bounds,
                final(arena)@[root as int].bounds,
            ),
        forall|bb: Bounds3|
            (forall|k: int|
                0 <= k < roots@.len() ==> box_le(
                    (#[trigger] old(arena)@[roots@[k] as int]).bounds,
                    bb,
                )) ==> #[trigger] box_le(final(arena)@[root as int].bounds, bb),
        forall|p: int|
            (exists|k: int| rc_at(old(arena)@, roots@, k, p)) ==> #[trigger] arena_covers(
                final(arena)@,
                root as int,
                p,
            ),
    decreases roots@.len(),
{
    let nr = roots.len();
    let alen = arena.len();
    if nr == 1 {
        let r = roots[0];
        proof {
            assert(build_node_wf(arena@, ordered@, r as int));
            assert forall|bb: Bounds3|
                (forall|k: int|
                    0 <= k < roots@.len() ==> box_le(
                        (#[trigger] arena@[roots@[k] as int]).bounds,
                        bb,
                    )) implies #[trigger] box_le(arena@[r as int].bounds, bb) by {
                assert(box_le(arena@[roots@[0] as int].bounds, bb));
            }
            assert forall|p: int|
                (exists|k: int| rc_at(arena@, roots@, k, p)) implies #[trigger] arena_covers(
                arena@,
                r as int,
                p,
            ) by {
                let k = choose|k: int| rc_at(arena@, roots@, k, p);
                assert(k == 0);
            }
        }
        return r;
    }
    // the box of all root centroids, in exact doubled coordinates
    let mut cb = Bounds3::empty();
    let mut k: usize = 0;
    while k < nr
        invariant
            k <= nr,
            nr == roots@.len(),
            alen == arena@.len(),
            arena@ == old(arena)@,
            forall|j: int| 0 <= j < nr ==> (#[trigger] roots@[j]) < alen,
            arena_wf(arena@, ordered@),
            k == 0 ==> cb == empty_bounds(),
            k > 0 ==> -536870912 <= cb.min.x <= 536870912 && -536870912 <= cb.min.y <= 536870912
                && -536870912 <= cb.min.z <= 536870912 && -536870912 <= cb.max.x <= 536870912
                && -536870912 <= cb.max.y <= 536870912 && -536870912 <= cb.max.z <= 536870912,
        decreases nr - k,
    {
        let ri = roots[k];
        let nd = arena[ri];
        proof {
            assert(build_node_wf(arena@, ordered@, ri as int));
        }
        let c2 = nd.bounds.centroid2();
        cb = cb.enlarge(c2);
        k = k + 1;
    }
    let dx = cb.max.x - cb.min.x;
    let dy = cb.max.y - cb.min.y;
    let dz = cb.max.z - cb.min.z;
    // the widest centroid axis; ties prefer the lower axis
    let dim: usize = if dx >= dy && dx >= dz {
        0
    } else if dy >= dz {
        1
    } else {
        2
    };
    let lo2 = if dim == 0 {
        cb.min.x
    } else if dim == 1 {
        cb.min.y
    } else {
        cb.min.z
    };
    let hi2 = if dim == 0 {
        cb.max.x
    } else if dim == 1 {
        cb.max.y
    } else {
        cb.max.z
    };
    let mut left: Vec<usize> = Vec::new();
    let mut right: Vec<usize> = Vec::new();
    if hi2 <= lo2 {
        // all centroids coincide along the widest axis: peel the first
        // root to one side
        let mut k: usize = 0;
        while k < nr
            invariant
                k <= nr,
                nr == roots@.len(),
                alen == arena@.len(),
                arena@ == old(arena)@,
                forall|j: int| 0 <= j < nr ==> (#[trigger] roots@[j]) < alen,
                left@.len() + right@.len() == k,
                forall|j: int| 0 <= j < left@.len() ==> (#[trigger] left@[j]) < alen,
                forall|j: int| 0 <= j < right@.len() ==> (#[trigger] right@[j]) < alen,
                forall|j: int| 0 <= j < left@.len() ==> seq_has(roots@, #[trigger] left@[j]),
                forall|j: int| 0 <= j < right@.len() ==> seq_has(roots@, #[trigger] right@[j]),
                forall|j: int|
                    0 <= j < k ==> seq_has(left@, #[trigger] roots@[j]) || seq_has(
                        right@,
                        roots@[j],
                    ),
                k > 0 ==> left@.len() == 1,
                k == 0 ==> left@.len() == 0,
            decreases nr - k,
        {
            let ri = roots[k];
            let ghost lpre = left@;
            let ghost rpre = right@;
            if k == 0 {
                left.push(ri);
            } else {
                right.push(ri);
            }
            proof {
                lemma_partition_step(lpre, rpre, left@, right@, roots@, k as int, ri);
            }
            k = k + 1;
        }
    } else {
        // bucket the roots along the chosen axis
        let mut counts: Vec<usize> = vec![0; 12];
        let mut bbs: Vec<Bounds3> = Vec::new();
        let mut bi: usize = 0;
        while bi < 12
            invariant
                bi <= 12,
                bbs@.len() == bi,
                forall|j: int| 0 <= j < bi ==> #[trigger] bbs@[j] == empty_bounds(),
            decreases 12 - bi,
        {
            bbs.push(Bounds3::empty());
            bi = bi + 1;
        }
        let mut k: usize = 0;
        while k < nr
            invariant
                k <= nr,
                nr == roots@.len(),
                alen == arena@.len(),
                arena@ == old(arena)@,
                forall|j: int| 0 <= j < nr ==> (#[trigger] roots@[j]) < alen,
                arena_wf(arena@, ordered@),
                hi2 > lo2,
                -1073741824 <= lo2 <= 1073741824,
                -1073741824 <= hi2 <= 1073741824,
                counts@.len() == 12,
                bbs@.len() == 12,
                forall|j: int| 0 <= j < 12 ==> (#[trigger] counts@[j]) <= k,
                forall|j: int|
                    0 <= j < 12 ==> (#[trigger] bbs@[j]) == empty_bounds() || bbs@[j].wf(),
            decreases nr - k,
        {
            let ri = roots[k];
            let nd = arena[ri];
            proof {
                assert(build_node_wf(arena@, ordered@, ri as int));
            }
            let c2 = nd.bounds.centroid2();
            let c = if dim == 0 {
                c2.x
            } else if dim == 1 {
                c2.y
            } else {
                c2.z
            };
            let b = bucket12(c, lo2, hi2);
            counts[b] = counts[b] + 1;
            let merged = bbs[b].union(nd.bounds);
            bbs[b] = merged;
            k = k + 1;
        }
        // score the eleven cuts and keep the cheapest
        let mut min_cost_idx: usize = 0;
        let mut min_cost: i128 = 0;
        let mut have_cost = false;
        let mut i: usize = 0;
        while i < 11
            invariant
                i <= 11,
                counts@.len() == 12,
                bbs@.len() == 12,
                min_cost_idx < 12,
                have_cost == (i > 0),
                forall|j: int| 0 <= j < 12 ==> (#[trigger] counts@[j]) <= usize::MAX,
                forall|j: int|
                    0 <= j < 12 ==> (#[trigger] bbs@[j]) == empty_bounds() || bbs@[j].wf(),
            decreases 11 - i,
        {
            let mut bl = Bounds3::empty();
            let mut cl: usize = 0;
            let mut j: usize = 0;
            while j <= i
                invariant
                    j <= i + 1,
                    i < 11,
                    counts@.len() == 12,
                    bbs@.len() == 12,
                    bl == empty_bounds() || bl.wf(),
                    forall|jj: int|
                        0 <= jj < 12 ==> (#[trigger] bbs@[jj]) == empty_bounds() || bbs@[jj].wf(),
                decreases i + 1 - j,
            {
                let nb = bl.union(bbs[j]);
                bl = nb;
                let c = counts[j];
                if cl <= usize::MAX - c {
                    cl = cl + c;
                } else {
                    cl = usize::MAX;
                }
                j = j + 1;
            }
            let mut br = Bounds3::empty();
            let mut cr: usize = 0;
            let mut j: usize = i + 1;
            while j < 12
                invariant
                    i + 1 <= j <= 12,
                    counts@.len() == 12,
                    bbs@.len() == 12,
                    br == empty_bounds() || br.wf(),
                    forall|jj: int|
                        0 <= jj < 12 ==> (#[trigger] bbs@[jj]) == empty_bounds() || bbs@[jj].wf(),
                decreases 12 - j,
            {
                let nb = br.union(bbs[j]);
                br = nb;
                let c = counts[j];
                if cr <= usize::MAX - c {
                    cr = cr + c;
                } else {
                    cr = usize::MAX;
                }
                j = j + 1;
            }
            let al = bl.area();
            let ar = br.area();
            proof {
                lemma_area_bound(bl);
                lemma_area_bound(br);
                lemma_cost_fits(cl as i128, al as i128);
                lemma_cost_fits(cr as i128, ar as i128);
            }
            let cost = (cl as i128) * (al as i128) + (cr as i128) * (ar as i128);
            if !have_cost || cost < min_cost {
                min_cost = cost;
                min_cost_idx = i;
            }
            have_cost = true;
            i = i + 1;
        }
        // partition the roots at the chosen cut
        let mut k: usize = 0;
        while k < nr
            invariant
                k <= nr,
                nr == roots@.len(),
                alen == arena@.len(),
                arena@ == old(arena)@,
                forall|j: int| 0 <= j < nr ==> (#[trigger] roots@[j]) < alen,
                arena_wf(arena@, ordered@),
                hi2 > lo2,
                -1073741824 <= lo2 <= 1073741824,
                -1073741824 <= hi2 <= 1073741824,
                left@.len() + right@.len() == k,
                forall|j: int| 0 <= j < left@.len() ==> (#[trigger] left@[j]) < alen,
                forall|j: int| 0 <= j < right@.len() ==> (#[trigger] right@[j]) < alen,
                forall|j: int| 0 <= j < left@.len() ==> seq_has(roots@, #[trigger] left@[j]),
                forall|j: int| 0 <= j < right@.len() ==> seq_has(roots@, #[trigger] right@[j]),
                forall|j: int|
                    0 <= j < k ==> seq_has(left@, #[trigger] roots@[j]) || seq_has(
                        right@,
                        roots@[j],
                    ),
            decreases nr - k,
        {
            let ri = roots[k];
            let nd = arena[ri];
            proof {
                assert(build_node_wf(arena@, ordered@, ri as int));
            }
            let c2 = nd.bounds.centroid2();
            let c = if dim == 0 {
                c2.x
            } else if dim == 1 {
                c2.y
            } else {
                c2.z
            };
            let b = bucket12(c, lo2, hi2);
            let ghost lpre = left@;
            let ghost rpre = right@;
            if b <= min_cost_idx {
                left.push(ri);
            } else {
                right.push(ri);
            }
            proof {
                lemma_partition_step(lpre, rpre, left@, right@, roots@, k as int, ri);
            }
            k = k + 1;
        }
        // a one-sided cut is mended by peeling exactly one root across
        if left.len() == 0 {
            let ghost rpre = right@;
            let moved = right.remove(0);
            left.push(moved);
            proof {
                assert(left@ == Seq::<usize>::empty().push(moved));
                assert(seq_at(left@, 0, moved));
                assert forall|j: int|
                    0 <= j < right@.len() implies seq_has(roots@, #[trigger] right@[j]) by {
                    assert(right@[j] == rpre[j + 1]);
                }
                assert forall|j: int|
                    0 <= j < nr implies seq_has(left@, #[trigger] roots@[j]) || seq_has(
                    right@,
                    roots@[j],
                ) by {
                    assert(seq_has(rpre, roots@[j]));
                    lemma_seq_has_remove_first(rpre, roots@[j]);
                    assert(right@ == rpre.remove(0));
                }
            }
        } else if right.len() == 0 {
            let ghost lpre = left@;
            let moved = left.pop().unwrap();
            right.push(moved);
            proof {
                assert(right@ == Seq::<usize>::empty().push(moved));
                assert(seq_at(right@, 0, moved));
                assert forall|j: int|
                    0 <= j < nr implies seq_has(left@, #[trigger] roots@[j]) || seq_has(
                    right@,
                    roots@[j],
                ) by {
                    assert(seq_has(lpre, roots@[j]));
                    lemma_seq_has_drop_last(lpre, roots@[j]);
                    assert(left@ == lpre.drop_last());
                }
            }
        }
    }
    let r0 = build_sah(arena, &left, ordered);
    let ghost amid = arena@;
    let r1 = build_sah(arena, &right, ordered);
    let b0 = arena[r0].bounds;
    let b1 = arena[r1].bounds;
    let b = b0.union(b1);
    let node = BuildNode {
        bounds: b,
        axis: dim,
        prim_offset: 0,
        nprimitives: 0,
        c0: r0,
        c1: r1,
    };
    let ghost apre = arena@;
    arena.push(node);
    proof {
        lemma_arena_wf_extend(apre, ordered@, arena@, ordered@);
        assert(build_node_wf(arena@, ordered@, apre.len() as int));
        assert forall|i: int| 0 <= i < arena@.len() implies #[trigger] build_node_wf(
            arena@,
            ordered@,
            i,
        ) by {}
        let newroot = apre.len() as int;
        // the new box holds every input root's box
        assert forall|k2: int|
            0 <= k2 < nr implies box_le(
            (#[trigger] old(arena)@[roots@[k2] as int]).bounds,
            arena@[newroot].bounds,
        ) by {
            if seq_has(left@, roots@[k2]) {
                let j = choose|j: int| #[trigger] seq_at(left@, j, roots@[k2]);
                assert(box_le(old(arena)@[left@[j] as int].bounds, amid[r0 as int].bounds));
                lemma_union_lub(b0, b1, b);
                lemma_box_le_trans(old(arena)@[roots@[k2] as int].bounds, b0, b);
            } else {
                assert(seq_has(right@, roots@[k2]));
                let j = choose|j: int| #[trigger] seq_at(right@, j, roots@[k2]);
                assert(box_le(amid[right@[j] as int].bounds, arena@[r1 as int].bounds));
                assert(amid[right@[j] as int] == old(arena)@[right@[j] as int]);
                lemma_union_lub(b0, b1, b);
                lemma_box_le_trans(old(arena)@[roots@[k2] as int].bounds, b1, b);
            }
        }
        // and no smaller box that holds them all is missed
        assert forall|bb: Bounds3|
            (forall|k2: int|
                0 <= k2 < nr ==> box_le(
                    (#[trigger] old(arena)@[roots@[k2] as int]).bounds,
                    bb,
                )) implies #[trigger] box_le(arena@[newroot].bounds, bb) by {
            assert forall|k2: int|
                0 <= k2 < left@.len() implies box_le(
                (#[trigger] old(arena)@[left@[k2] as int]).bounds,
                bb,
            ) by {
                assert(seq_has(roots@, left@[k2]));
                let j = choose|j: int| #[trigger] seq_at(roots@, j, left@[k2]);
                assert(box_le(old(arena)@[roots@[j] as int].bounds, bb));
            }
            assert(box_le(amid[r0 as int].bounds, bb));
            assert forall|k2: int|
                0 <= k2 < right@.len() implies box_le(
                (#[trigger] amid[right@[k2] as int]).bounds,
                bb,
            ) by {
                assert(seq_has(roots@, right@[k2]));
                let j = choose|j: int| #[trigger] seq_at(roots@, j, right@[k2]);
                assert(amid[right@[k2] as int] == old(arena)@[right@[k2] as int]);
                assert(box_le(old(arena)@[roots@[j] as int].bounds, bb));
            }
            assert(box_le(arena@[r1 as int].bounds, bb));
            lemma_union_lub(b0, b1, bb);
        }
        // anything under some input root is under the new node
        assert forall|p: int|
            (exists|k2: int| rc_at(old(arena)@, roots@, k2, p)) implies #[trigger] arena_covers(
            arena@,
            newroot,
            p,
        ) by {
            let k2 = choose|k2: int| rc_at(old(arena)@, roots@, k2, p);
            if seq_has(left@, roots@[k2]) {
                let j = choose|j: int| #[trigger] seq_at(left@, j, roots@[k2]);
                assert(rc_at(old(arena)@, left@, j, p));
                assert(arena_covers(amid, r0 as int, p));
                lemma_arena_covers_frame(amid, arena@, r0 as int, p);
            } else {
                assert(seq_has(right@, roots@[k2]));
                let j = choose|j: int| #[trigger] seq_at(right@, j, roots@[k2]);
                assert(amid[right@[j] as int] == old(arena)@[right@[j] as int]);
                assert(arena_covers(old(arena)@, right@[j] as int, p));
                lemma_arena_covers_frame(old(arena)@, amid, right@[j] as int, p);
                assert(rc_at(amid, right@, j, p));
                assert(arena_covers(apre, r1 as int, p));
                lemma_arena_covers_frame(apre, arena@, r1 as int, p);
            }
        }
    }
    arena.len() - 1
}

/// A node's shape reads only slots of its own segment, so it survives
/// changes outside the segment and a widening of the segment's end.
proof fn lemma_lin_node_frame<P: Primitive>(
    n1: Seq<LinearBVHNode>,
    n2: Seq<LinearBVHNode>,
    prims: Seq<P>,
    i: int,
    lo: int,
    hi1: int,
    lo2: int,
    hi2: int,
)
    requires
        node_wf(n1, prims, i, lo, hi1),
        lo <= i < hi1,
        hi1 <= n1.len(),
        hi1 <= hi2 <= n2.len(),
        lo2 <= lo,
        forall|j: int| lo <= j < hi1 ==> n2[j] == n1[j],
    ensures
        node_wf(n2, prims, i, lo2, hi2),
{
}

/// Serializes the subtree at `root` depth-first: each node lands before
/// its children, the first child in the very next slot, the second at the
/// slot the parent's offset records.
#[verifier::rlimit(100)]
fn flatten_bvh<P: Primitive>(
    arena: &Vec<BuildNode>,
    root: usize,
    nodes: &mut Vec<LinearBVHNode>,
    ordered: &Vec<P>,
) -> (idx: usize)
    requires
        arena_wf(arena@, ordered@),
        root < arena@.len(),
    ensures
        idx == old(nodes)@.len(),
        final(nodes)@.len() > old(nodes)@.len(),
        forall|i: int| 0 <= i < old(nodes)@.len() ==> final(nodes)@[i] == old(nodes)@[i],
        seg_wf(final(nodes)@, ordered@, idx as int, final(nodes)@.len() as int),
        final(nodes)@[idx as int].bounds == arena@[root as int].bounds,
        forall|p: int|
            #[trigger] arena_covers(arena@, root as int, p) ==> in_subtree(
                final(nodes)@,
                idx as int,
                final(nodes)@.len() as int,
                p,
            ),
    decreases root,
{
    let nd = arena[root];
    proof {
        assert(build_node_wf(arena@, ordered@, root as int));
    }
    let idx = nodes.len();
    if nd.nprimitives > 0 {
        let ln = LinearBVHNode {
            bounds: nd.bounds,
            axis: 0,
            nprimitives: nd.nprimitives,
            offset: nd.prim_offset,
        };
        nodes.push(ln);
        proof {
            assert(node_wf(nodes@, ordered@, idx as int, idx as int, nodes@.len() as int));
            assert forall|i: int| idx <= i < nodes@.len() implies #[trigger] node_wf(
                nodes@,
                ordered@,
                i,
                idx as int,
                nodes@.len() as int,
            ) by {}
        }
        idx
    } else {
        let ln = LinearBVHNode { bounds: nd.bounds, axis: nd.axis, nprimitives: 0, offset: 0 };
        nodes.push(ln);
        let ghost n0 = nodes@;
        let c0i = flatten_bvh(arena, nd.c0, nodes, ordered);
        let ghost n1 = nodes@;
        let c1i = flatten_bvh(arena, nd.c1, nodes, ordered);
        let ghost n2 = nodes@;
        let mut tmp = nodes[idx];
        tmp.offset = c1i;
        nodes[idx] = tmp;
        proof {
            let fin = nodes@;
            let end = fin.len() as int;
            assert(c0i == idx + 1);
            assert(c1i == n1.len());
            assert(idx + 1 < c1i < end);
            // the left child's slots are untouched by the right pass and
            // the patch
            assert forall|j: int| c0i <= j < c1i implies fin[j] == n1[j] by {}
            assert forall|j: int| c1i <= j < end implies fin[j] == n2[j] by {}
            assert(fin[c0i as int].bounds == arena@[nd.c0 as int].bounds);
            assert(fin[c1i as int].bounds == arena@[nd.c1 as int].bounds);
            assert forall|i: int| idx <= i < end implies #[trigger] node_wf(
                fin,
                ordered@,
                i,
                idx as int,
                end,
            ) by {
                if i == idx {
                    assert(fin[i].offset == c1i);
                    assert(fin[i].bounds == union_spec(
                        fin[idx + 1].bounds,
                        fin[c1i as int].bounds,
                    ));
                } else if i < c1i {
                    assert(node_wf(n1, ordered@, i, c0i as int, c1i as int));
                    lemma_lin_node_frame(
                        n1,
                        fin,
                        ordered@,
                        i,
                        c0i as int,
                        c1i as int,
                        idx as int,
                        end,
                    );
                } else {
                    assert(node_wf(n2, ordered@, i, c1i as int, end));
                    lemma_lin_node_frame(
                        n2,
                        fin,
                        ordered@,
                        i,
                        c1i as int,
                        end,
                        idx as int,
                        end,
                    );
                }
            }
            assert forall|p: int|
                #[trigger] arena_covers(arena@, root as int, p) implies in_subtree(
                fin,
                idx as int,
                end,
                p,
            ) by {
                if arena_covers(arena@, nd.c0 as int, p) {
                    assert(in_subtree(n1, c0i as int, c1i as int, p));
                    crate::bvh::lemma_in_subtree_frame(n1, fin, c0i as int, c1i as int, p);
                } else {
                    assert(arena_covers(arena@, nd.c1 as int, p));
                    assert(in_subtree(n2, c1i as int, n2.len() as int, p));
                    crate::bvh::lemma_in_subtree_frame(n2, fin, c1i as int, end, p);
                }
            }
        }
        idx
    }
}

/// One treelet's finished subtree, built independently of the others: its
/// own node arena, its own slice of reordered primitives, and its root.
pub struct TreeletOut<P: Primitive> {
    pub arena: Vec<BuildNode>,
    pub ordered: Vec<P>,
    pub root: usize,
}

pub open spec fn treelet_out_ok<P: Primitive>(
    prims: Seq<P>,
    morton: Seq<MortonPrim>,
    start: int,
    count: int,
    out: TreeletOut<P>,
) -> bool {
    &&& arena_wf(out.arena@, out.ordered@)
    &&& out.arena@.len() >= 1
    &&& out.root == out.arena@.len() - 1
    &&& out.ordered@.len() == count
    &&& forall|k: int|
        0 <= k < count ==> #[trigger] out.ordered@[k] == prims[morton[start
            + k].prim_index as int]
    &&& out.arena@[out.root as int].bounds == range_bounds(out.ordered@, 0, count)
    &&& forall|q: int|
        0 <= q < count ==> #[trigger] arena_covers(out.arena@, out.root as int, q)
}

/// Builds one treelet's subtree, descending from the first key bit below
/// the twelve treelet-clustering bits.
fn build_treelet<P: Primitive>(
    prims: &Vec<P>,
    morton: &Vec<MortonPrim>,
    start: usize,
    count: usize,
    limit: usize,
) -> (out: TreeletOut<P>)
    requires
        forall|p: int| 0 <= p < prims@.len() ==> (#[trigger] prims@[p]).inv(),
        start + count <= morton@.len(),
        forall|q: int|
            0 <= q < morton@.len() ==> (#[trigger] morton@[q]).prim_index < prims@.len(),
        count >= 1,
    ensures
        treelet_out_ok(prims@, morton@, start as int, count as int, out),
{
    let mlen = morton.len();
    let mut arena: Vec<BuildNode> = Vec::new();
    let mut ordered: Vec<P> = Vec::new();
    let root = emit_lbvh(prims, morton, start, count, limit, 17, &mut arena, &mut ordered);
    proof {
        assert forall|k2: int| 0 <= k2 < count implies #[trigger] ordered@[k2]
            == prims@[morton@[start + k2].prim_index as int] by {
            assert(ordered@[0 + k2] == prims@[morton@[start + k2].prim_index as int]);
        }
    }
    TreeletOut { arena, ordered, root }
}

/// Relies on rayon's parallel iterator `map`: it applies `f` to every
/// element independently and collects the results in input order.
#[verifier::external_body]
fn par_map<A: Copy + Send + Sync, B: Send, F: Fn(A) -> B + Send + Sync>(v: &Vec<A>, f: F) -> (r:
    Vec<B>)
    requires
        forall|k: int| 0 <= k < v@.len() ==> call_requires(f, (v@[k],)),
    ensures
        r@.len() == v@.len(),
        forall|k: int| 0 <= k < v@.len() ==> call_ensures(f, (v@[k],), #[trigger] r@[k]),
{
    v.par_iter().map(|a| f(*a)).collect()
}

/// `b` is `a` reordered by the slot map `m`: entry `q` of `b` is entry
/// `m[q]` of `a`, each slot of `a` used once.
pub open spec fn reordering<T>(a: Seq<T>, b: Seq<T>, m: Seq<int>) -> bool {
    &&& m.len() == a.len()
    &&& b.len() == a.len()
    &&& forall|q: int| 0 <= q < m.len() ==> 0 <= #[trigger] m[q] < a.len()
    &&& forall|p: int, q: int|
        #![trigger m[p], m[q]]
        0 <= p < m.len() && 0 <= q < m.len() && p != q ==> m[p] != m[q]
    &&& forall|q: int| 0 <= q < b.len() ==> b[q] == a[#[trigger] m[q]]
}

/// The treelet list tiles `[0, total)`: runs are adjacent, nonempty, and
/// the last ends at the total.
pub open spec fn tiles(ts: Seq<(usize, usize)>, total: int) -> bool {
    &&& ts.len() >= 1
    &&& ts[0].0 == 0
    &&& forall|k: int| 0 < k < ts.len() ==> (#[trigger] ts[k]).0 == ts[k - 1].0 + ts[k - 1].1
    &&& forall|k: int| 0 <= k < ts.len() ==> (#[trigger] ts[k]).1 >= 1
    &&& ts[ts.len() - 1].0 + ts[ts.len() - 1].1 == total
}

/// The scaled position of a doubled centroid inside an extent on one
/// axis: its cell among the 1024 of a key axis, clamped at both ends. A
/// zero extent puts everything in cell zero.
pub open spec fn cell_spec(c2: int, lo: int, hi: int) -> u32 {
    let d = hi - lo;
    if d <= 0 {
        0
    } else {
        let num = c2 - 2 * lo;
        if num <= 0 {
            0
        } else {
            let q = (num * 512) / d;
            if q >= 1024 {
                1023
            } else {
                q as u32
            }
        }
    }
}

/// The 30-bit key a primitive gets when the scene's box is the union of
/// all the primitives' boxes.
pub open spec fn key_of<P: Primitive>(a: Seq<P>, j: int) -> int {
    let gb = range_bounds(a, 0, a.len() as int);
    let b = a[j].bounds_spec();
    crate::morton::morton3(
        cell_spec(b.min.x + b.max.x, gb.min.x as int, gb.max.x as int),
        cell_spec(b.min.y + b.max.y, gb.min.y as int, gb.max.y as int),
        cell_spec(b.min.z + b.max.z, gb.min.z as int, gb.max.z as int),
    )
}

/// The map sends ascending slots to ascending keys, breaking key ties by
/// the source slot: the stable key order.
pub open spec fn keys_sorted<P: Primitive>(a: Seq<P>, m: Seq<int>) -> bool {
    forall|p: int, q: int|
        #![trigger m[p], m[q]]
        0 <= p < q < m.len() ==> key_of(a, m[p]) < key_of(a, m[q]) || (key_of(a, m[p]) == key_of(
            a,
            m[q],
        ) && m[p] < m[q])
}

/// A larger doubled centroid never lands in a smaller cell.
proof fn lemma_cell_monotone(c1: int, c2: int, lo: int, hi: int)
    requires
        c1 <= c2,
    ensures
        cell_spec(c1, lo, hi) <= cell_spec(c2, lo, hi),
{
    let d = hi - lo;
    if d > 0 {
        let n1 = c1 - 2 * lo;
        let n2 = c2 - 2 * lo;
        if n1 > 0 {
            vstd::arithmetic::div_mod::lemma_div_is_ordered(n1 * 512, n2 * 512, d);
            vstd::arithmetic::div_mod::lemma_div_is_ordered(0, n1 * 512, d);
        } else if n2 > 0 {
            vstd::arithmetic::div_mod::lemma_div_is_ordered(0, n2 * 512, d);
        }
    }
}

/// Keys keep the componentwise order of doubled centroids: a primitive
/// whose centroid is no later on every axis never gets a larger key. With
/// the stable key order that `build` promises, monotone input centroids
/// come out in their input order.
pub proof fn lemma_key_monotonic<P: Primitive>(a: Seq<P>, p: int, q: int)
    requires
        0 <= p < a.len(),
        0 <= q < a.len(),
        a[p].bounds_spec().min.x + a[p].bounds_spec().max.x <= a[q].bounds_spec().min.x
            + a[q].bounds_spec().max.x,
        a[p].bounds_spec().min.y + a[p].bounds_spec().max.y <= a[q].bounds_spec().min.y
            + a[q].bounds_spec().max.y,
        a[p].bounds_spec().min.z + a[p].bounds_spec().max.z <= a[q].bounds_spec().min.z
            + a[q].bounds_spec().max.z,
    ensures
        key_of(a, p) <= key_of(a, q),
{
    let gb = range_bounds(a, 0, a.len() as int);
    let bp = a[p].bounds_spec();
    let bq = a[q].bounds_spec();
    lemma_cell_monotone(bp.min.x + bp.max.x, bq.min.x + bq.max.x, gb.min.x as int, gb.max.x as int);
    lemma_cell_monotone(bp.min.y + bp.max.y, bq.min.y + bq.max.y, gb.min.y as int, gb.max.y as int);
    lemma_cell_monotone(bp.min.z + bp.max.z, bq.min.z + bq.max.z, gb.min.z as int, gb.max.z as int);
    crate::morton::lemma_morton3_monotonic(
        cell_spec(bp.min.x + bp.max.x, gb.min.x as int, gb.max.x as int),
        cell_spec(bp.min.y + bp.max.y, gb.min.y as int, gb.max.y as int),
        cell_spec(bp.min.z + bp.max.z, gb.min.z as int, gb.max.z as int),
        cell_spec(bq.min.x + bq.max.x, gb.min.x as int, gb.max.x as int),
        cell_spec(bq.min.y + bq.max.y, gb.min.y as int, gb.max.y as int),
        cell_spec(bq.min.z + bq.max.z, gb.min.z as int, gb.max.z as int),
    );
}

fn morton_cell(c2: i64, lo: i64, hi: i64) -> (r: u32)
    requires
        -536870912 <= c2 <= 536870912,
        -268435456 <= lo <= 268435456,
        -268435456 <= hi <= 268435456,
    ensures
        r < 1024,
        r == cell_spec(c2 as int, lo as int, hi as int),
{
    let d = hi - lo;
    if d <= 0 {
        return 0;
    }
    let num = c2 - 2 * lo;
    if num <= 0 {
        return 0;
    }
    let q = (num * 512) / d;
    if q >= 1024 {
        1023
    } else {
        q as u32
    }
}

impl<P: Primitive + Send + Sync> BVH<P> {
    /// Builds the index over the pushed primitives: global bounds, one
    /// 30-bit key per primitive, a stable radix sort, one subtree per run
    /// of equal high key bits (each run built independently, in parallel
    /// when asked), a surface-area-heuristic merge of the subtree roots,
    /// and a depth-first flattening. The primitive array ends reordered
    /// for leaf locality; the original push order is not kept.
    #[verifier::rlimit(100)]
    pub fn build(&mut self, node_prims_limit: usize, par_build: bool)
        requires
            old(self).inv(),
        ensures
            final(self).inv(),
            final(self).node_prims_limit == node_prims_limit,
            final(self).primitives@.len() == old(self).primitives@.len(),
            exists|m: Seq<int>|
                #[trigger] reordering(old(self).primitives@, final(self).primitives@, m)
                    && keys_sorted(old(self).primitives@, m),
            old(self).primitives@.len() > 0 ==> final(self).nodes@.len() > 0
                && final(self).nodes@[0].bounds == range_bounds(
                final(self).primitives@,
                0,
                final(self).primitives@.len() as int,
            ),
            final(self).covers_all(),
    {
        self.node_prims_limit = node_prims_limit;
        let mut prims: Vec<P> = Vec::new();
        core::mem::swap(&mut prims, &mut self.primitives);
        let ghost prims0 = prims@;
        let n = prims.len();
        if n == 0 {
            self.nodes = Vec::new();
            proof {
                let m = Seq::<int>::empty();
                assert(reordering(prims0, self.primitives@, m) && keys_sorted(prims0, m));
            }
            return ;
        }
        // global bounds of all primitive boxes
        let mut gb = Bounds3::empty();
        let mut i: usize = 0;
        while i < n
            invariant
                i <= n,
                n == prims@.len(),
                forall|p: int| 0 <= p < prims@.len() ==> (#[trigger] prims@[p]).inv(),
                gb == range_bounds(prims@, 0, i as int),
                i == 0 ==> gb == empty_bounds(),
                i > 0 ==> gb.wf(),
            decreases n - i,
        {
            let pb = prims[i].bounds();
            gb = gb.union(pb);
            i = i + 1;
        }
        // one interleaved 30-bit key per primitive, from its centroid's
        // cell in the global bounds
        let mut morton: Vec<MortonPrim> = Vec::new();
        let mut i: usize = 0;
        while i < n
            invariant
                i <= n,
                n == prims@.len(),
                forall|p: int| 0 <= p < prims@.len() ==> (#[trigger] prims@[p]).inv(),
                gb.wf(),
                gb == range_bounds(prims@, 0, n as int),
                morton@.len() == i,
                forall|q: int| 0 <= q < i ==> (#[trigger] morton@[q]).prim_index == q,
                forall|q: int| 0 <= q < i ==> (#[trigger] morton@[q]).code_spec() < 0x40000000,
                forall|q: int| 0 <= q < i ==> (#[trigger] morton@[q]).code_spec() == key_of(prims@, q),
            decreases n - i,
        {
            let pb = prims[i].bounds();
            let c2 = pb.centroid2();
            let cx = morton_cell(c2.x, gb.min.x, gb.max.x);
            let cy = morton_cell(c2.y, gb.min.y, gb.max.y);
            let cz = morton_cell(c2.z, gb.min.z, gb.max.z);
            let code = encode_morton3(cx, cy, cz);
            morton.push(MortonPrim { code, prim_index: i });
            i = i + 1;
        }
        let ghost mpre = morton@;
        radix_sort(&mut morton);
        proof {
            let sm = choose|m: Seq<int>| #[trigger] sorts_into(mpre, morton@, m);
            assert forall|q: int| 0 <= q < n implies (#[trigger] morton@[q]).prim_index < n by {
                assert(morton@[q] == mpre[sm[q]]);
            }
            assert forall|p: int, q: int|
                #![trigger morton@[p], morton@[q]]
                0 <= p < n && 0 <= q < n && p != q implies morton@[p].prim_index
                != morton@[q].prim_index by {
                assert(morton@[p] == mpre[sm[p]]);
                assert(morton@[q] == mpre[sm[q]]);
            }
        }
        // cluster into treelets: runs of equal high-order key bits
        let mask: u32 = 0b00111111111111000000000000000000;
        let mut tstarts: Vec<(usize, usize)> = Vec::new();
        let mut start: usize = 0;
        let mut end: usize = 1;
        while end < n
            invariant
                n == prims@.len(),
                morton@.len() == n,
                1 <= end <= n,
                start < end,
                forall|k: int|
                    0 < k < tstarts@.len() ==> (#[trigger] tstarts@[k]).0 == tstarts@[k - 1].0
                        + tstarts@[k - 1].1,
                forall|k: int| 0 <= k < tstarts@.len() ==> (#[trigger] tstarts@[k]).1 >= 1,
                tstarts@.len() >= 1 ==> tstarts@[0].0 == 0,
                tstarts@.len() >= 1 ==> start == tstarts@[tstarts@.len() - 1].0
                    + tstarts@[tstarts@.len() - 1].1,
                tstarts@.len() == 0 ==> start == 0,
            decreases n - end,
        {
            if (morton[start].code & mask) != (morton[end].code & mask) {
                tstarts.push((start, end - start));
                start = end;
            }
            end = end + 1;
        }
        tstarts.push((start, n - start));
        proof {
            assert(tiles(tstarts@, n as int));
        }
        let tn = tstarts.len();
        let limit = node_prims_limit;
        // build every treelet's subtree, each into its own arena
        let mut outs: Vec<TreeletOut<P>>;
        if par_build {
            let f = |tt: (usize, usize)| -> (out: TreeletOut<P>)
                requires
                    tt.0 + tt.1 <= morton@.len(),
                    tt.1 >= 1,
                ensures
                    treelet_out_ok(prims@, morton@, tt.0 as int, tt.1 as int, out),
                { build_treelet(&prims, &morton, tt.0, tt.1, limit) };
            proof {
                assert forall|k: int| 0 <= k < tstarts@.len() implies call_requires(
                    f,
                    (tstarts@[k],),
                ) by {
                    lemma_tile_in_range(tstarts@, n as int, k);
                }
            }
            outs = par_map(&tstarts, f);
            proof {
                assert forall|k: int| 0 <= k < tn implies #[trigger] treelet_out_ok(
                    prims@,
                    morton@,
                    tstarts@[k].0 as int,
                    tstarts@[k].1 as int,
                    outs@[k],
                ) by {
                    assert(call_ensures(f, (tstarts@[k],), outs@[k]));
                }
            }
        } else {
            outs = Vec::new();
            let mut k: usize = 0;
            while k < tn
                invariant
                    k <= tn,
                    tn == tstarts@.len(),
                    n == prims@.len(),
                    morton@.len() == n,
                    tiles(tstarts@, n as int),
                    forall|p: int| 0 <= p < prims@.len() ==> (#[trigger] prims@[p]).inv(),
                    forall|q: int|
                        0 <= q < morton@.len() ==> (#[trigger] morton@[q]).prim_index
                            < prims@.len(),
                    outs@.len() == k,
                    forall|j: int|
                        0 <= j < k ==> #[trigger] treelet_out_ok(
                            prims@,
                            morton@,
                            tstarts@[j].0 as int,
                            tstarts@[j].1 as int,
                            outs@[j],
                        ),
                decreases tn - k,
            {
                let t = tstarts[k];
                proof {
                    lemma_tile_in_range(tstarts@, n as int, k as int);
                }
                let out = build_treelet(&prims, &morton, t.0, t.1, limit);
                outs.push(out);
                k = k + 1;
            }
        }
        // merge the treelet results: append primitives, copy each arena
        // with its node slots and primitive offsets shifted
        let mut arena: Vec<BuildNode> = Vec::new();
        let mut ordered: Vec<P> = Vec::new();
        let mut roots: Vec<usize> = Vec::new();
        let mut k: usize = 0;
        while k < tn
            invariant
                k <= tn,
                tn == tstarts@.len(),
                n == prims@.len(),
                morton@.len() == n,
                tiles(tstarts@, n as int),
                forall|p: int| 0 <= p < prims@.len() ==> (#[trigger] prims@[p]).inv(),
                forall|q: int|
                    0 <= q < morton@.len() ==> (#[trigger] morton@[q]).prim_index < prims@.len(),
                outs@.len() == tn - k,
                forall|j: int|
                    0 <= j < tn - k ==> #[trigger] treelet_out_ok(
                        prims@,
                        morton@,
                        tstarts@[k + j].0 as int,
                        tstarts@[k + j].1 as int,
                        outs@[j],
                    ),
                ordered@.len() == (if k < tn {
                    tstarts@[k as int].0 as int
                } else {
                    n as int
                }),
                forall|q: int|
                    0 <= q < ordered@.len() ==> #[trigger] ordered@[q] == prims@[morton@[
                        q].prim_index as int],
                arena_wf(arena@, ordered@),
                roots@.len() == k,
                forall|j: int| 0 <= j < k ==> (#[trigger] roots@[j]) < arena@.len(),
                forall|j: int|
                    0 <= j < k ==> (#[trigger] arena@[roots@[j] as int]).bounds == range_bounds(
                        ordered@,
                        tstarts@[j].0 as int,
                        tstarts@[j].0 + tstarts@[j].1,
                    ),
                forall|j: int, p: int|
                    0 <= j < k && tstarts@[j].0 <= p < tstarts@[j].0 + tstarts@[j].1
                        ==> #[trigger] arena_covers(arena@, roots@[j] as int, p),
            decreases tn - k,
        {
            proof {
                lemma_tile_in_range(tstarts@, n as int, k as int);
                assert(treelet_out_ok(
                    prims@,
                    morton@,
                    tstarts@[k as int + 0].0 as int,
                    tstarts@[k as int + 0].1 as int,
                    outs@[0],
                ));
            }
            let ghost outspre = outs@;
            let out = outs.remove(0);
            proof {
                assert forall|j2: int| 0 <= j2 < tn - (k + 1) implies #[trigger] treelet_out_ok(
                    prims@,
                    morton@,
                    tstarts@[k + 1 + j2].0 as int,
                    tstarts@[k + 1 + j2].1 as int,
                    outs@[j2],
                ) by {
                    assert(treelet_out_ok(
                        prims@,
                        morton@,
                        tstarts@[k as int + (j2 + 1)].0 as int,
                        tstarts@[k as int + (j2 + 1)].1 as int,
                        outspre[j2 + 1],
                    ));
                }
            }
            let TreeletOut { arena: ta, ordered: tord, root: trt } = out;
            let ghost tordv = tord@;
            let ghost opre = ordered@;
            let ghost apre_merge = arena@;
            let base_prim = ordered.len();
            let base_node = arena.len();
            let rt = merge_one(&mut arena, &mut ordered, ta, tord, trt);
            proof {
                assert forall|q: int|
                    0 <= q < ordered@.len() implies #[trigger] ordered@[q] == prims@[morton@[
                q].prim_index as int] by {
                    if q >= base_prim {
                        assert(ordered@[q] == tordv[q - base_prim]);
                        assert(tordv[(q - base_prim) as int] == prims@[morton@[tstarts@[
                        k as int].0 + (q - base_prim)].prim_index as int]);
                    }
                }
                // older roots keep their range boxes: their entries are
                // framed and their ranges lie before the appended slice
                assert forall|j: int|
                    0 <= j < k implies (#[trigger] arena@[roots@[j] as int]).bounds
                    == range_bounds(
                    ordered@,
                    tstarts@[j].0 as int,
                    tstarts@[j].0 + tstarts@[j].1,
                ) by {
                    lemma_tiles_mono(tstarts@, j, k as int);
                    lemma_range_bounds_eq(
                        opre,
                        tstarts@[j].0 as int,
                        ordered@,
                        tstarts@[j].0 as int,
                        tstarts@[j].1 as int,
                    );
                }
                // the new root's box is its treelet's range box, shifted
                lemma_range_bounds_eq(
                    tordv,
                    0,
                    ordered@,
                    base_prim as int,
                    tstarts@[k as int].1 as int,
                );
                assert forall|j: int, p: int|
                    0 <= j < k && tstarts@[j].0 <= p < tstarts@[j].0 + tstarts@[j].1
                        implies #[trigger] arena_covers(arena@, roots@[j] as int, p) by {
                    lemma_arena_covers_frame(apre_merge, arena@, roots@[j] as int, p);
                }
            }
            roots.push(rt);
            k = k + 1;
        }
        // merge the treelet roots and flatten the finished tree
        let ghost apre_sah = arena@;
        let root = build_sah(&mut arena, &roots, &ordered);
        let mut nodes: Vec<LinearBVHNode> = Vec::new();
        let top = flatten_bvh(&arena, root, &mut nodes, &ordered);
        proof {
            // the merged root's box is exactly the box of all primitives:
            // it holds every treelet range's box, and the box of the whole
            // range holds each of them, so the two contain one another
            let rb = range_bounds(ordered@, 0, n as int);
            let nb = arena@[root as int].bounds;
            assert forall|j: int|
                0 <= j <= tn - 1 implies box_le(
                range_bounds(
                    ordered@,
                    (#[trigger] tstarts@[j]).0 as int,
                    tstarts@[j].0 + tstarts@[j].1,
                ),
                nb,
            ) by {
                assert(box_le(apre_sah[roots@[j] as int].bounds, nb));
            }
            lemma_segments_lub(ordered@, tstarts@, nb, tn as int - 1);
            assert(box_le(rb, nb));
            assert forall|k2: int|
                0 <= k2 < roots@.len() implies box_le(
                (#[trigger] apre_sah[roots@[k2] as int]).bounds,
                rb,
            ) by {
                lemma_tile_in_range(tstarts@, n as int, k2);
                lemma_range_le(
                    ordered@,
                    0,
                    tstarts@[k2].0 as int,
                    tstarts@[k2].0 + tstarts@[k2].1,
                    n as int,
                );
            }
            assert(box_le(nb, rb));
            crate::bounds::lemma_box_le_antisym(nb, rb);
            // every primitive sits in some treelet run, hence under its
            // root, hence under the merged root, hence under node zero
            assert forall|p: int| 0 <= p < n implies #[trigger] in_subtree(
                nodes@,
                0,
                nodes@.len() as int,
                p,
            ) by {
                lemma_tiles_find(tstarts@, tn as int - 1, p);
                let j = choose|j: int|
                    0 <= j <= tn - 1 && (#[trigger] tstarts@[j]).0 <= p < tstarts@[j].0
                        + tstarts@[j].1;
                assert(arena_covers(apre_sah, roots@[j] as int, p));
                assert(rc_at(apre_sah, roots@, j, p));
                assert(arena_covers(arena@, root as int, p));
            }
        }
        self.primitives = ordered;
        self.nodes = nodes;
        proof {
            assert forall|p: int| 0 <= p < self.primitives@.len() implies (
            #[trigger] self.primitives@[p]).inv() by {
                assert(self.primitives@[p] == prims@[morton@[p].prim_index as int]);
            }
            let m = Seq::<int>::new(n as nat, |q: int| morton@[q].prim_index as int);
            assert(reordering(prims0, self.primitives@, m));
            // the final order is the stable key order: the sorted proxy
            // records' slots are exactly the map, and their keys are the
            // primitives' keys
            let sm = choose|m0: Seq<int>| #[trigger] sorts_into(mpre, morton@, m0);
            assert forall|p: int| 0 <= p < n implies #[trigger] m[p] == sm[p] by {
                assert(morton@[p] == mpre[sm[p]]);
            }
            assert forall|p: int, q: int|
                #![trigger m[p], m[q]]
                0 <= p < q < m.len() implies key_of(prims0, m[p]) < key_of(prims0, m[q]) || (
            key_of(prims0, m[p]) == key_of(prims0, m[q]) && m[p] < m[q]) by {
                assert(morton@[p] == mpre[sm[p]]);
                assert(morton@[q] == mpre[sm[q]]);
                assert(mpre[m[p]].code_spec() == key_of(prims0, m[p]));
                assert(mpre[m[q]].code_spec() == key_of(prims0, m[q]));
            }
            assert(keys_sorted(prims0, m));
            assert(seg_wf(self.nodes@, self.primitives@, 0, self.nodes@.len() as int));
        }
    }
}

/// Node `m` is node `t` with its child slots moved up by `bn` and its
/// primitive range moved up by `bp`.
spec fn shifted_of(m: BuildNode, t: BuildNode, bn: int, bp: int) -> bool {
    &&& m.nprimitives == t.nprimitives
    &&& (t.nprimitives > 0 ==> m.prim_offset == t.prim_offset + bp)
    &&& (t.nprimitives == 0 ==> m.c0 == t.c0 + bn && m.c1 == t.c1 + bn)
}

/// Coverage carries over to the shifted copy of a subtree.
proof fn lemma_covers_shift(
    ta: Seq<BuildNode>,
    merged: Seq<BuildNode>,
    bn: int,
    bp: int,
    j: int,
    q: int,
)
    requires
        0 <= j < ta.len(),
        bn >= 0,
        bp >= 0,
        merged.len() >= bn + ta.len(),
        forall|jj: int|
            0 <= jj < ta.len() ==> shifted_of(#[trigger] merged[bn + jj], ta[jj], bn, bp),
        arena_covers(ta, j, q),
    ensures
        arena_covers(merged, bn + j, bp + q),
    decreases j,
{
    let nd = ta[j];
    assert(shifted_of(merged[bn + j], ta[j], bn, bp));
    if nd.nprimitives == 0 {
        if arena_covers(ta, nd.c0 as int, q) {
            lemma_covers_shift(ta, merged, bn, bp, nd.c0 as int, q);
        } else {
            lemma_covers_shift(ta, merged, bn, bp, nd.c1 as int, q);
        }
    }
}

/// Splices one treelet's result onto the shared arrays: its primitives go
/// after the ones already claimed, and its nodes are copied with their
/// child slots and primitive offsets shifted by the bases.
#[verifier::rlimit(100)]
fn merge_one<P: Primitive>(
    arena: &mut Vec<BuildNode>,
    ordered: &mut Vec<P>,
    ta: Vec<BuildNode>,
    tord: Vec<P>,
    trt: usize,
) -> (rt: usize)
    requires
        arena_wf(old(arena)@, old(ordered)@),
        arena_wf(ta@, tord@),
        ta@.len() >= 1,
        trt == ta@.len() - 1,
        forall|q: int| 0 <= q < tord@.len() ==> #[trigger] arena_covers(ta@, trt as int, q),
    ensures
        arena_wf(final(arena)@, final(ordered)@),
        final(ordered)@ == old(ordered)@ + tord@,
        final(arena)@.len() == old(arena)@.len() + ta@.len(),
        forall|i: int| 0 <= i < old(arena)@.len() ==> final(arena)@[i] == old(arena)@[i],
        rt < final(arena)@.len(),
        final(arena)@[rt as int].bounds == ta@[trt as int].bounds,
        forall|p: int|
            old(ordered)@.len() <= p < final(ordered)@.len() ==> #[trigger] arena_covers(
                final(arena)@,
                rt as int,
                p,
            ),
{
    let ghost tordv = tord@;
    let ghost opre = ordered@;
    let mut tord = tord;
    let base_prim = ordered.len();
    ordered.append(&mut tord);
    let olen = ordered.len();
    proof {
        lemma_arena_wf_extend(arena@, opre, arena@, ordered@);
        assert forall|i: int| 0 <= i < arena@.len() implies #[trigger] build_node_wf(
            arena@,
            ordered@,
            i,
        ) by {}
    }
    let base_node = arena.len();
    let talen = ta.len();
    let mut j: usize = 0;
    while j < talen
        invariant
            j <= talen,
            talen == ta@.len(),
            base_prim + tordv.len() == olen,
            olen == ordered@.len(),
            forall|q: int| 0 <= q < tordv.len() ==> ordered@[base_prim + q] == #[trigger] tordv[q],
            arena_wf(ta@, tordv),
            arena@.len() == base_node + j,
            forall|i: int| 0 <= i < base_node ==> #[trigger] arena@[i] == old(arena)@[i],
            forall|i: int| 0 <= i < base_node ==> #[trigger] build_node_wf(arena@, ordered@, i),
            forall|jj: int|
                0 <= jj < j ==> (#[trigger] arena@[base_node + jj]).bounds == ta@[jj].bounds,
            forall|jj: int|
                0 <= jj < j ==> #[trigger] build_node_wf(arena@, ordered@, base_node + jj),
            forall|jj: int|
                0 <= jj < j ==> shifted_of(
                    #[trigger] arena@[base_node + jj],
                    ta@[jj],
                    base_node as int,
                    base_prim as int,
                ),
        decreases talen - j,
    {
        let cur_len = arena.len();
        let nd = ta[j];
        proof {
            assert(build_node_wf(ta@, tordv, j as int));
        }
        let ghost apre = arena@;
        let shifted: BuildNode = if nd.nprimitives > 0 {
            BuildNode {
                bounds: nd.bounds,
                axis: nd.axis,
                prim_offset: nd.prim_offset + base_prim,
                nprimitives: nd.nprimitives,
                c0: 0,
                c1: 0,
            }
        } else {
            BuildNode {
                bounds: nd.bounds,
                axis: nd.axis,
                prim_offset: 0,
                nprimitives: 0,
                c0: nd.c0 + base_node,
                c1: nd.c1 + base_node,
            }
        };
        arena.push(shifted);
        proof {
            assert forall|i: int| 0 <= i < apre.len() implies arena@[i] == apre[i] by {}
            if nd.nprimitives > 0 {
                lemma_range_bounds_eq(
                    tordv,
                    nd.prim_offset as int,
                    ordered@,
                    base_prim + nd.prim_offset,
                    nd.nprimitives as int,
                );
            }
            if nd.nprimitives == 0 {
                assert(apre[(base_node + nd.c0) as int].bounds == ta@[nd.c0 as int].bounds);
                assert(apre[(base_node + nd.c1) as int].bounds == ta@[nd.c1 as int].bounds);
                assert(arena@[(base_node + nd.c0) as int].bounds == ta@[nd.c0 as int].bounds);
                assert(arena@[(base_node + nd.c1) as int].bounds == ta@[nd.c1 as int].bounds);
            }
            assert(build_node_wf(arena@, ordered@, (base_node + j) as int));
            assert forall|i: int| 0 <= i < base_node implies #[trigger] build_node_wf(
                arena@,
                ordered@,
                i,
            ) by {
                lemma_build_node_frame(apre, arena@, ordered@, i);
            }
            assert forall|jj: int| 0 <= jj < j implies #[trigger] build_node_wf(
                arena@,
                ordered@,
                base_node + jj,
            ) by {
                lemma_build_node_frame(apre, arena@, ordered@, base_node + jj);
            }
        }
        j = j + 1;
    }
    let flen = arena.len();
    proof {
        assert forall|i: int| 0 <= i < arena@.len() implies #[trigger] build_node_wf(
            arena@,
            ordered@,
            i,
        ) by {
            if i >= base_node {
                assert(build_node_wf(arena@, ordered@, base_node + (i - base_node)));
            }
        }
        assert(ordered@ =~= opre + tordv);
        assert(arena@[(base_node + trt) as int].bounds == ta@[trt as int].bounds);
        assert forall|p: int|
            opre.len() <= p < ordered@.len() implies #[trigger] arena_covers(
            arena@,
            (base_node + trt) as int,
            p,
        ) by {
            assert(arena_covers(ta@, trt as int, p - base_prim));
            lemma_covers_shift(
                ta@,
                arena@,
                base_node as int,
                base_prim as int,
                trt as int,
                p - base_prim,
            );
        }
    }
    base_node + trt
}

/// A range's box sits inside any wider range's box.
proof fn lemma_range_le<P: Primitive>(prims: Seq<P>, l2: int, l: int, h: int, h2: int)
    requires
        0 <= l2 <= l <= h <= h2 <= prims.len(),
    ensures
        box_le(range_bounds(prims, l, h), range_bounds(prims, l2, h2)),
{
    lemma_range_bounds_concat(prims, l, h, h2);
    lemma_union_lub(range_bounds(prims, l, h), range_bounds(prims, h, h2), empty_bounds());
    lemma_range_bounds_concat(prims, l2, l, h2);
    lemma_union_lub(range_bounds(prims, l2, l), range_bounds(prims, l, h2), empty_bounds());
    lemma_box_le_trans(
        range_bounds(prims, l, h),
        range_bounds(prims, l, h2),
        range_bounds(prims, l2, h2),
    );
}

/// A box that holds the first `k + 1` runs' boxes holds the box of
/// everything they tile.
proof fn lemma_segments_lub<P: Primitive>(
    prims: Seq<P>,
    ts: Seq<(usize, usize)>,
    bb: Bounds3,
    k: int,
)
    requires
        0 <= k < ts.len(),
        ts[0].0 == 0,
        forall|j: int| 0 < j < ts.len() ==> (#[trigger] ts[j]).0 == ts[j - 1].0 + ts[j - 1].1,
        ts[k].0 + ts[k].1 <= prims.len(),
        forall|j: int|
            0 <= j <= k ==> box_le(
                range_bounds(prims, (#[trigger] ts[j]).0 as int, ts[j].0 + ts[j].1),
                bb,
            ),
    ensures
        box_le(range_bounds(prims, 0, ts[k].0 + ts[k].1), bb),
    decreases k,
{
    if k == 0 {
    } else {
        lemma_segments_lub(prims, ts, bb, k - 1);
        lemma_range_bounds_concat(prims, 0, ts[k].0 as int, ts[k].0 + ts[k].1);
        lemma_union_lub(
            range_bounds(prims, 0, ts[k].0 as int),
            range_bounds(prims, ts[k].0 as int, ts[k].0 + ts[k].1),
            bb,
        );
    }
}

/// Earlier runs of the tiling end at or before later runs start.
proof fn lemma_tiles_mono(ts: Seq<(usize, usize)>, j: int, k: int)
    requires
        0 <= j < k < ts.len(),
        forall|j2: int| 0 < j2 < ts.len() ==> (#[trigger] ts[j2]).0 == ts[j2 - 1].0 + ts[j2 - 1].1,
    ensures
        ts[j].0 + ts[j].1 <= ts[k].0,
    decreases k - j,
{
    if j + 1 < k {
        lemma_tiles_mono(ts, j + 1, k);
    }
}

/// Every slot below the tiled total lies in some run.
proof fn lemma_tiles_find(ts: Seq<(usize, usize)>, k: int, p: int)
    requires
        0 <= k < ts.len(),
        ts[0].0 == 0,
        forall|j2: int| 0 < j2 < ts.len() ==> (#[trigger] ts[j2]).0 == ts[j2 - 1].0 + ts[j2 - 1].1,
        0 <= p < ts[k].0 + ts[k].1,
    ensures
        exists|j: int|
            0 <= j <= k && (#[trigger] ts[j]).0 <= p < ts[j].0 + ts[j].1,
    decreases k,
{
    if p >= ts[k].0 {
        assert(ts[k].0 <= p < ts[k].0 + ts[k].1);
    } else {
        lemma_tiles_find(ts, k - 1, p);
    }
}

/// Every run of the tiling lies inside the tiled range.
proof fn lemma_tile_in_range(ts: Seq<(usize, usize)>, total: int, k: int)
    requires
        tiles(ts, total),
        0 <= k < ts.len(),
    ensures
        ts[k].0 + ts[k].1 <= total,
    decreases ts.len() - k,
{
    if k == ts.len() - 1 {
    } else {
        lemma_tile_in_range(ts, total, k + 1);
    }
}

/// A node's shape reads only lower slots, so appended nodes cannot break
/// it.
proof fn lemma_build_node_frame<P: Primitive>(
    a1: Seq<BuildNode>,
    a2: Seq<BuildNode>,
    prims: Seq<P>,
    i: int,
)
    requires
        0 <= i < a1.len(),
        a2.len() >= a1.len(),
        build_node_wf(a1, prims, i),
        forall|j: int| 0 <= j < a1.len() ==> a2[j] == a1[j],
    ensures
        build_node_wf(a2, prims, i),
{
}

} // verus!

//! The persisted index: a linear array of nodes in depth-first order, and
//! the nearest-hit and multi-hit walks over it.

use crate::bounds::Bounds3;
use crate::bounds::box_le;
use crate::bounds::empty_bounds;
use crate::bounds::lemma_box_le_trans;
use crate::bounds::lemma_union_lub;
use crate::bounds::pt_in_box;
use crate::bounds::union_spec;
use crate::bounds::valid_box_hit;
use crate::primitive::Primitive;
use crate::rat::Rat;
use crate::ray::Hit;
use crate::ray::Ray;
use vstd::prelude::*;

verus! {

/// One persisted node. `nprimitives > 0` marks a leaf, whose primitives
/// start at `offset` in the reordered primitive array. An interior node's
/// first child is the next slot; `offset` is its second child's slot, the
/// one field serving both meanings.
#[derive(Clone, Copy, Debug)]
pub struct LinearBVHNode {
    pub bounds: Bounds3,
    pub axis: usize,
    pub nprimitives: usize,
    pub offset: usize,
}

impl LinearBVHNode {
    pub fn is_leaf(&self) -> (r: bool)
        ensures
            r == (self.nprimitives > 0),
    {
        self.nprimitives > 0
    }
}

/// The union of the boxes of `prims[lo..hi]`, folded left from the empty
/// box.
pub open spec fn range_bounds<P: Primitive>(prims: Seq<P>, lo: int, hi: int) -> Bounds3
    decreases hi - lo,
{
    if hi <= lo {
        empty_bounds()
    } else {
        union_spec(range_bounds(prims, lo, hi - 1), prims[hi - 1].bounds_spec())
    }
}

/// The shape of the node slice `[lo, hi)`: a leaf's box is the union of its
/// primitive range's boxes; an interior node's box is the union of its two
/// children's, which sit at the next slot and at `offset` inside the same
/// slice.
pub open spec fn seg_wf<P: Primitive>(
    nodes: Seq<LinearBVHNode>,
    prims: Seq<P>,
    lo: int,
    hi: int,
) -> bool {
    forall|i: int| lo <= i < hi ==> #[trigger] node_wf(nodes, prims, i, lo, hi)
}

pub open spec fn node_wf<P: Primitive>(
    nodes: Seq<LinearBVHNode>,
    prims: Seq<P>,
    i: int,
    lo: int,
    hi: int,
) -> bool {
    let nd = nodes[i];
    if nd.nprimitives > 0 {
        &&& nd.offset + nd.nprimitives <= prims.len()
        &&& nd.bounds == range_bounds(prims, nd.offset as int, nd.offset + nd.nprimitives)
        &&& nd.bounds.wf()
    } else {
        &&& i + 1 < nd.offset < hi
        &&& nd.axis < 3
        &&& nd.bounds == union_spec(nodes[i + 1].bounds, nodes[nd.offset as int].bounds)
        &&& nd.bounds.wf()
    }
}

/// Primitive slot `p` lies under the subtree rooted at node `i` of the
/// segment ending at `hi`: in a leaf's range, or under either child.
pub open spec fn in_subtree(nodes: Seq<LinearBVHNode>, i: int, hi: int, p: int) -> bool
    decreases hi - i,
{
    if !(0 <= i < hi <= nodes.len()) {
        false
    } else {
        let nd = nodes[i];
        if nd.nprimitives > 0 {
            nd.offset <= p < nd.offset + nd.nprimitives
        } else if i + 1 < nd.offset < hi {
            in_subtree(nodes, i + 1, nd.offset as int, p) || in_subtree(
                nodes,
                nd.offset as int,
                hi,
                p,
            )
        } else {
            false
        }
    }
}

/// Which slot `p` sits under reads only the segment's own slots.
pub proof fn lemma_in_subtree_frame(
    n1: Seq<LinearBVHNode>,
    n2: Seq<LinearBVHNode>,
    i: int,
    hi: int,
    p: int,
)
    requires
        0 <= i < hi <= n1.len(),
        hi <= n2.len(),
        forall|j: int| i <= j < hi ==> n2[j] == n1[j],
        in_subtree(n1, i, hi, p),
    ensures
        in_subtree(n2, i, hi, p),
    decreases hi - i,
{
    let nd = n1[i];
    if nd.nprimitives == 0 {
        if in_subtree(n1, i + 1, nd.offset as int, p) {
            lemma_in_subtree_frame(n1, n2, i + 1, nd.offset as int, p);
        } else {
            lemma_in_subtree_frame(n1, n2, nd.offset as int, hi, p);
        }
    }
}

/// Each primitive box of a range lies inside the range's box.
pub proof fn lemma_range_bounds_member<P: Primitive>(prims: Seq<P>, lo: int, hi: int, p: int)
    requires
        0 <= lo <= p < hi <= prims.len(),
    ensures
        box_le(prims[p].bounds_spec(), range_bounds(prims, lo, hi)),
    decreases hi - lo,
{
    lemma_union_lub(
        range_bounds(prims, lo, hi - 1),
        prims[hi - 1].bounds_spec(),
        empty_bounds(),
    );
    if p < hi - 1 {
        lemma_range_bounds_member(prims, lo, hi - 1, p);
        lemma_box_le_trans(
            prims[p].bounds_spec(),
            range_bounds(prims, lo, hi - 1),
            range_bounds(prims, lo, hi),
        );
    }
}

/// Everything under a well-formed segment's nodes is a real primitive
/// slot: together with a covering build, the leaves' ranges exactly tile
/// the primitive array as a union.
pub proof fn lemma_subtree_prim_range<P: Primitive>(
    nodes: Seq<LinearBVHNode>,
    prims: Seq<P>,
    i: int,
    hi: int,
    p: int,
)
    requires
        seg_wf(nodes, prims, 0, nodes.len() as int),
        hi <= nodes.len(),
        in_subtree(nodes, i, hi, p),
    ensures
        0 <= p < prims.len(),
    decreases hi - i,
{
    let nd = nodes[i];
    assert(node_wf(nodes, prims, i, 0, nodes.len() as int));
    if nd.nprimitives == 0 {
        if in_subtree(nodes, i + 1, nd.offset as int, p) {
            lemma_subtree_prim_range(nodes, prims, i + 1, nd.offset as int, p);
        } else {
            lemma_subtree_prim_range(nodes, prims, nd.offset as int, hi, p);
        }
    }
}

/// The box of a node holds the box of every primitive under it.
pub proof fn lemma_subtree_box<P: Primitive>(
    nodes: Seq<LinearBVHNode>,
    prims: Seq<P>,
    i: int,
    hi: int,
    p: int,
)
    requires
        seg_wf(nodes, prims, 0, nodes.len() as int),
        hi <= nodes.len(),
        in_subtree(nodes, i, hi, p),
        0 <= p < prims.len(),
    ensures
        box_le(prims[p].bounds_spec(), nodes[i].bounds),
    decreases hi - i,
{
    let nd = nodes[i];
    assert(node_wf(nodes, prims, i, 0, nodes.len() as int));
    if nd.nprimitives > 0 {
        lemma_range_bounds_member(prims, nd.offset as int, nd.offset + nd.nprimitives, p);
    } else {
        lemma_union_lub(nodes[i + 1].bounds, nodes[nd.offset as int].bounds, empty_bounds());
        if in_subtree(nodes, i + 1, nd.offset as int, p) {
            lemma_subtree_box(nodes, prims, i + 1, nd.offset as int, p);
            lemma_box_le_trans(prims[p].bounds_spec(), nodes[i + 1].bounds, nd.bounds);
        } else {
            lemma_subtree_box(nodes, prims, nd.offset as int, hi, p);
            lemma_box_le_trans(prims[p].bounds_spec(), nodes[nd.offset as int].bounds, nd.bounds);
        }
    }
}

/// A point inside a box is inside any box that holds it.
pub proof fn lemma_pt_in_box_mono(a: Bounds3, b: Bounds3, org: crate::vec3::Vec3i, dir: crate::vec3::Vec3i, t: Rat)
    requires
        box_le(a, b),
        t.wf(),
        pt_in_box(a, org, dir, t),
    ensures
        pt_in_box(b, org, dir, t),
{
    assert(b.min.x * t.den <= a.min.x * t.den && a.max.x * t.den <= b.max.x * t.den && b.min.y
        * t.den <= a.min.y * t.den && a.max.y * t.den <= b.max.y * t.den && b.min.z * t.den
        <= a.min.z * t.den && a.max.z * t.den <= b.max.z * t.den) by (nonlinear_arith)
        requires
            t.den > 0,
            b.min.x <= a.min.x,
            a.max.x <= b.max.x,
            b.min.y <= a.min.y,
            a.max.y <= b.max.y,
            b.min.z <= a.min.z,
            a.max.z <= b.max.z,
    ;
}

/// A box over a range is untouched by primitives appended past it.
proof fn lemma_range_bounds_grow<P: Primitive>(p1: Seq<P>, p2: Seq<P>, lo: int, hi: int)
    requires
        0 <= lo,
        hi <= p1.len(),
        p2.len() >= p1.len(),
        forall|q: int| 0 <= q < p1.len() ==> p2[q] == p1[q],
    ensures
        range_bounds(p2, lo, hi) == range_bounds(p1, lo, hi),
    decreases hi - lo,
{
    if lo < hi {
        lemma_range_bounds_grow(p1, p2, lo, hi - 1);
    }
}

/// Primitive `p` lies under the `k`-th pending (node, segment end) pair.
spec fn pair_covers(nodes: Seq<LinearBVHNode>, st: Seq<(usize, usize)>, k: int, p: int) -> bool {
    0 <= k < st.len() && in_subtree(nodes, st[k].0 as int, st[k].1 as int, p)
}

/// Primitive `p` still has unvisited tree above it: under the current
/// node's segment or under some stacked pair.
spec fn pending(
    nodes: Seq<LinearBVHNode>,
    st: Seq<(usize, usize)>,
    cur: int,
    cur_end: int,
    p: int,
) -> bool {
    in_subtree(nodes, cur, cur_end, p) || exists|k: int| #[trigger] pair_covers(nodes, st, k, p)
}

/// Primitive `p` cannot beat the reported hit: it misses, or its hit is
/// no nearer than the reported one, or it lies beyond the cutoff. With a
/// `None` report, `p` simply has no hit within the cutoff.
pub open spec fn beaten<P: Primitive>(
    prims: Seq<P>,
    p: int,
    org: crate::vec3::Vec3i,
    dir: crate::vec3::Vec3i,
    best: Option<(Hit, usize)>,
    tmax0: Rat,
) -> bool {
    match prims[p].hit_spec(org, dir) {
        Some(t) => match best {
            Some(pr) => pr.0.t.spec_le(t) || !t.spec_le(tmax0),
            None => !t.spec_le(tmax0),
        },
        None => true,
    }
}

/// Some log entry records primitive `p` hit at distance `t`.
pub open spec fn logged(log: Seq<(usize, Rat)>, p: int, t: Rat) -> bool {
    exists|k: int| 0 <= k < log.len() && (#[trigger] log[k]).0 == p && log[k].1 == t
}

/// Primitive `p` needs nothing more from the multi-hit walk: it misses,
/// its hit lies beyond the cutoff, or its hit has been logged.
pub open spec fn handled<P: Primitive>(
    prims: Seq<P>,
    p: int,
    org: crate::vec3::Vec3i,
    dir: crate::vec3::Vec3i,
    log: Seq<(usize, Rat)>,
    tmax0: Rat,
) -> bool {
    match prims[p].hit_spec(org, dir) {
        Some(t) => !t.spec_le(tmax0) || logged(log, p, t),
        None => true,
    }
}

/// The summed sizes of the pending pairs' segments: what shrinks as the
/// walk proceeds.
spec fn stack_weight(st: Seq<(usize, usize)>) -> int
    decreases st.len(),
{
    if st.len() == 0 {
        0
    } else {
        stack_weight(st.drop_last()) + (st.last().1 - st.last().0)
    }
}

proof fn lemma_stack_weight_nonneg(st: Seq<(usize, usize)>)
    requires
        forall|k: int| 0 <= k < st.len() ==> (#[trigger] st[k]).0 < st[k].1,
    ensures
        stack_weight(st) >= 0,
    decreases st.len(),
{
    if st.len() > 0 {
        lemma_stack_weight_nonneg(st.drop_last());
    }
}

/// A caller-supplied sink for the multi-hit walk: it sees every primitive
/// hit inside a box the ray enters, and may end the walk by returning
/// `true`.
pub trait HitVisitor {
    fn visit(&mut self, prim_index: usize, t: Rat) -> bool;
}

/// The index: a primitive array reordered for leaf locality, and the node
/// array the traversals read.
pub struct BVH<P: Primitive> {
    pub node_prims_limit: usize,
    pub primitives: Vec<P>,
    pub nodes: Vec<LinearBVHNode>,
}

impl<P: Primitive> BVH<P> {
    /// Every held primitive is valid, and the node array, when built, has
    /// the box-of-children shape throughout.
    pub open spec fn inv(self) -> bool {
        &&& forall|p: int| 0 <= p < self.primitives@.len() ==> (#[trigger] self.primitives@[p]).inv()
    &&& self.nodes@.len() > 0 ==> seg_wf(
            self.nodes@,
            self.primitives@,
            0,
            self.nodes@.len() as int,
        )
    }

    /// Every primitive sits under the root: what a finished build
    /// guarantees, and what the traversals' completeness rests on. It
    /// lapses when primitives are pushed after a build, until the next
    /// build.
    pub open spec fn covers_all(self) -> bool {
        forall|p: int|
            0 <= p < self.primitives@.len() ==> self.nodes@.len() > 0 && #[trigger] in_subtree(
                self.nodes@,
                0,
                self.nodes@.len() as int,
                p,
            )
    }

    pub fn new(capacity: usize) -> (r: BVH<P>)
        ensures
            r.inv(),
            r.primitives@.len() == 0,
            r.nodes@.len() == 0,
            r.node_prims_limit == 65,
    {
        BVH { node_prims_limit: 65, primitives: Vec::with_capacity(capacity), nodes: Vec::new() }
    }

    pub fn push(&mut self, prim: P)
        requires
            prim.inv(),
            old(self).inv(),
        ensures
            final(self).inv(),
            final(self).primitives@ == old(self).primitives@.push(prim),
            final(self).nodes@ == old(self).nodes@,
            final(self).node_prims_limit == old(self).node_prims_limit,
    {
        let ghost p0 = self.primitives@;
        self.primitives.push(prim);
        proof {
            if self.nodes@.len() > 0 {
                assert forall|i: int| 0 <= i < self.nodes@.len() implies #[trigger] node_wf(
                    self.nodes@,
                    self.primitives@,
                    i,
                    0,
                    self.nodes@.len() as int,
                ) by {
                    assert(node_wf(self.nodes@, p0, i, 0, self.nodes@.len() as int));
                    let nd = self.nodes@[i];
                    if nd.nprimitives > 0 {
                        lemma_range_bounds_grow(
                            p0,
                            self.primitives@,
                            nd.offset as int,
                            nd.offset + nd.nprimitives,
                        );
                    }
                }
            }
        }
    }

    /// The whole index's box: the root node's, or the empty box before a
    /// build or with no primitives.
    pub fn bounds(&self) -> (r: Bounds3)
        ensures
            self.nodes@.len() > 0 ==> r == self.nodes@[0].bounds,
            self.nodes@.len() == 0 ==> r == empty_bounds(),
    {
        if self.nodes.len() > 0 {
            self.nodes[0].bounds
        } else {
            Bounds3::empty()
        }
    }

    /// The nearest hit and the index of the primitive that produced it, in
    /// the reordered array: an iterative walk that keeps pending subtrees
    /// on an explicit stack, descends toward the child the ray reaches
    /// first, and shrinks the ray's cutoff to each hit it finds. Any
    /// reported hit really is some primitive's hit, no farther than the
    /// ray's cutoff; and over an index that covers its primitives, the
    /// reported hit is the nearest of all hits within the cutoff, with no
    /// hit at all only when no primitive has one.
    #[verifier::rlimit(100)]
    pub fn raycast_node(&self, ray: &Ray) -> (r: Option<(Hit, usize)>)
        requires
            self.inv(),
            ray.wf(),
        ensures
            match r {
                Some(pr) => pr.1 < self.primitives@.len()
                    && self.primitives@[pr.1 as int].hit_spec(ray.org, ray.dir) == Some(pr.0.t)
                    && pr.0.t.wf() && pr.0.t.spec_nonneg() && pr.0.t.spec_le(ray.t_max),
                None => true,
            },
            self.covers_all() ==> forall|p: int|
                0 <= p < self.primitives@.len() ==> #[trigger] beaten(
                    self.primitives@,
                    p,
                    ray.org,
                    ray.dir,
                    r,
                    ray.t_max,
                ),
    {
        if self.nodes.len() == 0 {
            proof {
                if self.covers_all() {
                    assert forall|p: int| 0 <= p < self.primitives@.len() implies #[trigger] beaten(
                        self.primitives@,
                        p,
                        ray.org,
                        ray.dir,
                        None::<(Hit, usize)>,
                        ray.t_max,
                    ) by {
                        assert(!in_subtree(self.nodes@, 0, self.nodes@.len() as int, p));
                    }
                }
            }
            return None;
        }
        let plen = self.primitives.len();
        let nlen = self.nodes.len();
        let mut best: Option<(Hit, usize)> = None;
        let mut cur: usize = 0;
        let mut cur_end: usize = nlen;
        let mut stack: Vec<(usize, usize)> = Vec::new();
        let mut t_max = ray.t_max;
        proof {
            if self.covers_all() {
                assert forall|p: int|
                    0 <= p < plen implies pending(self.nodes@, stack@, 0, nlen as int, p)
                    || #[trigger] beaten(
                    self.primitives@,
                    p,
                    ray.org,
                    ray.dir,
                    best,
                    ray.t_max,
                ) by {
                    assert(in_subtree(self.nodes@, 0, self.nodes@.len() as int, p));
                }
            }
        }
        loop
            invariant_except_break
                self.inv(),
                ray.wf(),
                plen == self.primitives@.len(),
                nlen == self.nodes@.len(),
                self.nodes@.len() > 0,
                cur < cur_end <= nlen,
                forall|k: int|
                    0 <= k < stack@.len() ==> (#[trigger] stack@[k]).0 < stack@[k].1
                        && stack@[k].1 <= nlen,
                t_max.wf(),
                t_max.spec_le(ray.t_max),
                match best {
                    Some(pr) => pr.1 < plen && self.primitives@[pr.1 as int].hit_spec(
                        ray.org,
                        ray.dir,
                    ) == Some(pr.0.t) && pr.0.t.wf() && pr.0.t.spec_nonneg() && pr.0.t.spec_le(
                        ray.t_max,
                    ) && t_max == pr.0.t,
                    None => t_max == ray.t_max,
                },
                self.covers_all() ==> forall|p: int|
                    0 <= p < plen ==> pending(
                        self.nodes@,
                        stack@,
                        cur as int,
                        cur_end as int,
                        p,
                    ) || #[trigger] beaten(
                        self.primitives@,
                        p,
                        ray.org,
                        ray.dir,
                        best,
                        ray.t_max,
                    ),
            ensures
                match best {
                    Some(pr) => pr.1 < plen && self.primitives@[pr.1 as int].hit_spec(
                        ray.org,
                        ray.dir,
                    ) == Some(pr.0.t) && pr.0.t.wf() && pr.0.t.spec_nonneg() && pr.0.t.spec_le(
                        ray.t_max,
                    ),
                    None => true,
                },
                self.covers_all() ==> forall|p: int|
                    0 <= p < plen ==> #[trigger] beaten(
                        self.primitives@,
                        p,
                        ray.org,
                        ray.dir,
                        best,
                        ray.t_max,
                    ),
            decreases cur_end - cur + stack_weight(stack@),
        {
            let node = self.nodes[cur];
            proof {
                assert(seg_wf(self.nodes@, self.primitives@, 0, self.nodes@.len() as int));
                assert(node_wf(
                    self.nodes@,
                    self.primitives@,
                    cur as int,
                    0,
                    self.nodes@.len() as int,
                ));
            }
            let probe = Ray::segment(ray.org, ray.dir, t_max);
            let ghost stpre = stack@;
            let ghost curpre = cur as int;
            let ghost cendpre = cur_end as int;
            let hit_box = node.bounds.raycast(&probe).is_some();
            let mut descend = false;
            if hit_box {
                if node.nprimitives > 0 {
                    let ghost best0 = best;
                    let mut k: usize = 0;
                    while k < node.nprimitives
                        invariant
                            self.inv(),
                            ray.wf(),
                            plen == self.primitives@.len(),
                            k <= node.nprimitives,
                            node.offset + node.nprimitives <= plen,
                            t_max.wf(),
                            t_max.spec_le(ray.t_max),
                            match best {
                                Some(pr) => pr.1 < plen && self.primitives@[pr.1 as int].hit_spec(
                                    ray.org,
                                    ray.dir,
                                ) == Some(pr.0.t) && pr.0.t.wf() && pr.0.t.spec_nonneg()
                                    && pr.0.t.spec_le(ray.t_max) && t_max == pr.0.t,
                                None => t_max == ray.t_max,
                            },
                            forall|p: int|
                                0 <= p < plen && beaten(
                                    self.primitives@,
                                    p,
                                    ray.org,
                                    ray.dir,
                                    best0,
                                    ray.t_max,
                                ) ==> #[trigger] beaten(
                                    self.primitives@,
                                    p,
                                    ray.org,
                                    ray.dir,
                                    best,
                                    ray.t_max,
                                ),
                            forall|p: int|
                                node.offset <= p < node.offset + k ==> #[trigger] beaten(
                                    self.primitives@,
                                    p,
                                    ray.org,
                                    ray.dir,
                                    best,
                                    ray.t_max,
                                ),
                        decreases node.nprimitives - k,
                    {
                        let pi = node.offset + k;
                        let prim_ray = Ray::segment(ray.org, ray.dir, t_max);
                        let ghost bmid = best;
                        if let Some(hp) = self.primitives[pi].raycast(&prim_ray) {
                            // keep the closer hit and shrink the cutoff
                            if hp.t.le(t_max) {
                                proof {
                                    if best is Some {
                                        crate::rat::lemma_rat_le_trans(hp.t, t_max, ray.t_max);
                                    }
                                }
                                t_max = hp.t;
                                best = Some((hp, pi));
                                proof {
                                    assert forall|p: int|
                                        0 <= p < plen && beaten(
                                            self.primitives@,
                                            p,
                                            ray.org,
                                            ray.dir,
                                            bmid,
                                            ray.t_max,
                                        ) implies #[trigger] beaten(
                                        self.primitives@,
                                        p,
                                        ray.org,
                                        ray.dir,
                                        best,
                                        ray.t_max,
                                    ) by {
                                        match self.primitives@[p].hit_spec(ray.org, ray.dir) {
                                            Some(t) => {
                                                let pp = self.primitives@[p];
                                                pp.hit_in_bounds(ray.org, ray.dir, t);
                                                if bmid is Some {
                                                    let b = bmid.unwrap();
                                                    if b.0.t.spec_le(t) {
                                                        crate::rat::lemma_rat_le_trans(
                                                            hp.t,
                                                            b.0.t,
                                                            t,
                                                        );
                                                    }
                                                }
                                            },
                                            None => {},
                                        }
                                    }
                                }
                            }
                        }
                        k = k + 1;
                    }
                } else {
                    descend = true;
                }
            } else {
                // the ray misses this node's box within the cutoff, so
                // nothing under it can beat the best hit
                proof {
                    if self.covers_all() {
                        assert forall|p: int|
                            0 <= p < plen && in_subtree(
                                self.nodes@,
                                curpre,
                                cendpre,
                                p,
                            ) implies #[trigger] beaten(
                            self.primitives@,
                            p,
                            ray.org,
                            ray.dir,
                            best,
                            ray.t_max,
                        ) by {
                            match self.primitives@[p].hit_spec(ray.org, ray.dir) {
                                Some(t) => {
                                    let pp = self.primitives@[p];
                                    pp.hit_in_bounds(ray.org, ray.dir, t);
                                    lemma_subtree_box(
                                        self.nodes@,
                                        self.primitives@,
                                        curpre,
                                        cendpre,
                                        p,
                                    );
                                    lemma_pt_in_box_mono(
                                        pp.bounds_spec(),
                                        node.bounds,
                                        ray.org,
                                        ray.dir,
                                        t,
                                    );
                                    if t.spec_le(t_max) {
                                        assert(t.wf());
                                        assert((Rat { num: 0, den: 1 }).spec_le(t))
                                            by (nonlinear_arith)
                                            requires
                                                t.num >= 0,
                                                t.den > 0,
                                        ;
                                        assert(t.spec_le(probe.t_max));
                                        assert(pt_in_box(node.bounds, probe.org, probe.dir, t));
                                        assert(valid_box_hit(node.bounds, probe, t));
                                        assert(false);
                                    }
                                },
                                None => {},
                            }
                        }
                    }
                }
            }
            if descend {
                // descend toward the child the ray reaches first; the far
                // child's pair keeps this segment's end
                if node.offset < cur_end {
                    let dneg: bool = if node.axis == 0 {
                        ray.dir.x < 0
                    } else if node.axis == 1 {
                        ray.dir.y < 0
                    } else {
                        ray.dir.z < 0
                    };
                    let near: usize;
                    let near_end: usize;
                    let far: usize;
                    let far_end: usize;
                    if dneg {
                        near = node.offset;
                        near_end = cur_end;
                        far = cur + 1;
                        far_end = node.offset;
                    } else {
                        near = cur + 1;
                        near_end = node.offset;
                        far = node.offset;
                        far_end = cur_end;
                    }
                    stack.push((far, far_end));
                    cur = near;
                    cur_end = near_end;
                    proof {
                        assert(stack@.drop_last() =~= stpre);
                        assert(stack@.drop_last() == stpre);
                        assert(stack@.last() == (far, far_end));
                        assert(stack_weight(stack@) == stack_weight(stpre) + (far_end as int
                            - far as int));
                        lemma_stack_weight_nonneg(stack@);
                        if self.covers_all() {
                            assert forall|p: int|
                                0 <= p < plen && pending(
                                    self.nodes@,
                                    stpre,
                                    curpre,
                                    cendpre,
                                    p,
                                ) implies pending(
                                self.nodes@,
                                stack@,
                                cur as int,
                                cur_end as int,
                                p,
                            ) by {
                                if in_subtree(self.nodes@, curpre, cendpre, p) {
                                    if in_subtree(self.nodes@, far as int, far_end as int, p) {
                                        assert(pair_covers(
                                            self.nodes@,
                                            stack@,
                                            stpre.len() as int,
                                            p,
                                        ));
                                    }
                                } else {
                                    let k2 = choose|k2: int|
                                        #[trigger] pair_covers(self.nodes@, stpre, k2, p);
                                    assert(pair_covers(self.nodes@, stack@, k2, p));
                                }
                            }
                        }
                    }
                    continue ;
                }
                // the recorded second child lies past this segment's end:
                // under a covering tree this segment then covers nothing
            }
            // this node is finished: move to the next pending pair
            let ghost stpop = stack@;
            match stack.pop() {
                Some(pr) => {
                    proof {
                        assert(stpop.drop_last() =~= stack@);
                        assert(stpop.drop_last() == stack@);
                        assert(stpop.last() == pr);
                        assert(stack_weight(stpop) == stack_weight(stack@) + (pr.1 as int
                            - pr.0 as int));
                        lemma_stack_weight_nonneg(stack@);
                        if self.covers_all() {
                            assert forall|p: int|
                                0 <= p < plen && pending(
                                    self.nodes@,
                                    stpop,
                                    curpre,
                                    cendpre,
                                    p,
                                ) implies pending(
                                self.nodes@,
                                stack@,
                                pr.0 as int,
                                pr.1 as int,
                                p,
                            ) || beaten(
                                self.primitives@,
                                p,
                                ray.org,
                                ray.dir,
                                best,
                                ray.t_max,
                            ) by {
                                if in_subtree(self.nodes@, curpre, cendpre, p) {
                                    assert(beaten(
                                        self.primitives@,
                                        p,
                                        ray.org,
                                        ray.dir,
                                        best,
                                        ray.t_max,
                                    ));
                                } else {
                                    let k2 = choose|k2: int|
                                        #[trigger] pair_covers(self.nodes@, stpop, k2, p);
                                    if k2 == stpop.len() - 1 {
                                    } else {
                                        assert(pair_covers(self.nodes@, stack@, k2, p));
                                    }
                                }
                            }
                        }
                    }
                    cur = pr.0;
                    cur_end = pr.1;
                },
                None => {
                    proof {
                        if self.covers_all() {
                            assert forall|p: int| 0 <= p < plen implies #[trigger] beaten(
                                self.primitives@,
                                p,
                                ray.org,
                                ray.dir,
                                best,
                                ray.t_max,
                            ) by {
                                if pending(self.nodes@, stpop, curpre, cendpre, p) {
                                    if !in_subtree(self.nodes@, curpre, cendpre, p) {
                                        let k2 = choose|k2: int|
                                            #[trigger] pair_covers(self.nodes@, stpop, k2, p);
                                    }
                                }
                            }
                        }
                    }
                    break ;
                },
            }
        }
        best
    }

    /// The nearest hit alone: a genuine primitive hit within the cutoff,
    /// and, over an index that covers its primitives, the nearest of all
    /// of them — with no hit reported only when no primitive has one.
    pub fn raycast(&self, ray: &Ray) -> (r: Option<Hit>)
        requires
            self.inv(),
            ray.wf(),
        ensures
            match r {
                Some(h) => exists|p: int|
                    0 <= p < self.primitives@.len() && (#[trigger] self.primitives@[p]).hit_spec(
                        ray.org,
                        ray.dir,
                    ) == Some(h.t) && h.t.wf() && h.t.spec_nonneg() && h.t.spec_le(ray.t_max),
                None => true,
            },
            self.covers_all() ==> forall|p: int|
                0 <= p < self.primitives@.len() ==> (match (
                #[trigger] self.primitives@[p]).hit_spec(ray.org, ray.dir) {
                    Some(t) => (match r {
                        Some(h) => h.t.spec_le(t) || !t.spec_le(ray.t_max),
                        None => !t.spec_le(ray.t_max),
                    }),
                    None => true,
                }),
    {
        let rn = self.raycast_node(ray);
        proof {
            if self.covers_all() {
                assert forall|p: int|
                    0 <= p < self.primitives@.len() implies (match (
                #[trigger] self.primitives@[p]).hit_spec(ray.org, ray.dir) {
                    Some(t) => (match rn {
                        Some(pr) => pr.0.t.spec_le(t) || !t.spec_le(ray.t_max),
                        None => !t.spec_le(ray.t_max),
                    }),
                    None => true,
                }) by {
                    assert(beaten(self.primitives@, p, ray.org, ray.dir, rn, ray.t_max));
                }
            }
        }
        match rn {
            Some(p) => {
                proof {
                    assert(self.primitives@[p.1 as int].hit_spec(ray.org, ray.dir) == Some(
                        p.0.t,
                    ));
                }
                Some(p.0)
            },
            None => None,
        }
    }

    /// The multi-hit walk: hands the visitor every primitive hit found in
    /// a box the ray enters, without distance ordering or pruning, until
    /// the visitor returns `true`. Returns whether the visitor ended the
    /// walk early, and a ghost log of the (primitive slot, distance)
    /// pairs handed over: every logged pair is a genuine hit, and over a
    /// covering index an uninterrupted walk logs every hit within the
    /// ray's cutoff.
    #[verifier::rlimit(100)]
    pub fn any_raycast<V: HitVisitor>(&self, ray: &Ray, visitor: &mut V) -> (r: (
        bool,
        Ghost<Seq<(usize, Rat)>>,
    ))
        requires
            self.inv(),
            ray.wf(),
        ensures
            forall|k: int|
                0 <= k < r.1@.len() ==> (#[trigger] r.1@[k]).0 < self.primitives@.len()
                    && self.primitives@[r.1@[k].0 as int].hit_spec(ray.org, ray.dir) == Some(
                    r.1@[k].1,
                ),
            self.covers_all() && !r.0 ==> forall|p: int|
                0 <= p < self.primitives@.len() ==> #[trigger] handled(
                    self.primitives@,
                    p,
                    ray.org,
                    ray.dir,
                    r.1@,
                    ray.t_max,
                ),
    {
        let ghost mut log: Seq<(usize, Rat)> = Seq::empty();
        if self.nodes.len() == 0 {
            proof {
                if self.covers_all() {
                    assert forall|p: int|
                        0 <= p < self.primitives@.len() implies #[trigger] handled(
                        self.primitives@,
                        p,
                        ray.org,
                        ray.dir,
                        log,
                        ray.t_max,
                    ) by {
                        assert(!in_subtree(self.nodes@, 0, self.nodes@.len() as int, p));
                    }
                }
            }
            return (false, Ghost(log));
        }
        let plen = self.primitives.len();
        let nlen = self.nodes.len();
        let mut cur: usize = 0;
        let mut cur_end: usize = nlen;
        let mut stack: Vec<(usize, usize)> = Vec::new();
        proof {
            if self.covers_all() {
                assert forall|p: int|
                    0 <= p < plen implies pending(self.nodes@, stack@, 0, nlen as int, p)
                    || #[trigger] handled(
                    self.primitives@,
                    p,
                    ray.org,
                    ray.dir,
                    log,
                    ray.t_max,
                ) by {
                    assert(in_subtree(self.nodes@, 0, self.nodes@.len() as int, p));
                }
            }
        }
        loop
            invariant_except_break
                self.inv(),
                ray.wf(),
                plen == self.primitives@.len(),
                nlen == self.nodes@.len(),
                self.nodes@.len() > 0,
                cur < cur_end <= nlen,
                forall|k: int|
                    0 <= k < stack@.len() ==> (#[trigger] stack@[k]).0 < stack@[k].1
                        && stack@[k].1 <= nlen,
                forall|k: int|
                    0 <= k < log.len() ==> (#[trigger] log[k]).0 < plen
                        && self.primitives@[log[k].0 as int].hit_spec(ray.org, ray.dir) == Some(
                        log[k].1,
                    ),
                self.covers_all() ==> forall|p: int|
                    0 <= p < plen ==> pending(
                        self.nodes@,
                        stack@,
                        cur as int,
                        cur_end as int,
                        p,
                    ) || #[trigger] handled(
                        self.primitives@,
                        p,
                        ray.org,
                        ray.dir,
                        log,
                        ray.t_max,
                    ),
            ensures
                forall|k: int|
                    0 <= k < log.len() ==> (#[trigger] log[k]).0 < plen
                        && self.primitives@[log[k].0 as int].hit_spec(ray.org, ray.dir) == Some(
                        log[k].1,
                    ),
                self.covers_all() ==> forall|p: int|
                    0 <= p < plen ==> #[trigger] handled(
                        self.primitives@,
                        p,
                        ray.org,
                        ray.dir,
                        log,
                        ray.t_max,
                    ),
            decreases cur_end - cur + stack_weight(stack@),
        {
            let node = self.nodes[cur];
            proof {
                assert(seg_wf(self.nodes@, self.primitives@, 0, self.nodes@.len() as int));
                assert(node_wf(
                    self.nodes@,
                    self.primitives@,
                    cur as int,
                    0,
                    self.nodes@.len() as int,
                ));
            }
            let ghost stpre = stack@;
            let ghost curpre = cur as int;
            let ghost cendpre = cur_end as int;
            let hit_box = node.bounds.raycast(ray).is_some();
            let mut descend = false;
            if hit_box {
                if node.nprimitives > 0 {
                    let mut k: usize = 0;
                    let mut stop = false;
                    while k < node.nprimitives && !stop
                        invariant
                            self.inv(),
                            ray.wf(),
                            plen == self.primitives@.len(),
                            k <= node.nprimitives,
                            node.offset + node.nprimitives <= plen,
                            forall|k2: int|
                                0 <= k2 < log.len() ==> (#[trigger] log[k2]).0 < plen
                                    && self.primitives@[log[k2].0 as int].hit_spec(
                                    ray.org,
                                    ray.dir,
                                ) == Some(log[k2].1),
                            !stop ==> forall|p: int|
                                node.offset <= p < node.offset + k ==> #[trigger] handled(
                                    self.primitives@,
                                    p,
                                    ray.org,
                                    ray.dir,
                                    log,
                                    ray.t_max,
                                ),
                            self.covers_all() ==> forall|p: int|
                                0 <= p < plen ==> pending(
                                    self.nodes@,
                                    stpre,
                                    curpre,
                                    cendpre,
                                    p,
                                ) || #[trigger] handled(
                                    self.primitives@,
                                    p,
                                    ray.org,
                                    ray.dir,
                                    log,
                                    ray.t_max,
                                ),
                        decreases node.nprimitives - k,
                    {
                        let pi = node.offset + k;
                        let ghost logpre = log;
                        if let Some(hp) = self.primitives[pi].raycast(ray) {
                            proof {
                                log = log.push((pi, hp.t));
                                assert forall|p: int, t: Rat|
                                    logged(logpre, p, t) implies logged(log, p, t) by {
                                    let k2 = choose|k2: int|
                                        0 <= k2 < logpre.len() && (#[trigger] logpre[k2]).0 == p
                                            && logpre[k2].1 == t;
                                    assert((#[trigger] log[k2]).0 == p && log[k2].1 == t);
                                }
                                assert((#[trigger] log[log.len() - 1]).0 == pi && log[log.len()
                                    - 1].1 == hp.t);
                                assert(logged(log, pi as int, hp.t));
                                assert forall|p2: int|
                                    0 <= p2 < plen && handled(
                                        self.primitives@,
                                        p2,
                                        ray.org,
                                        ray.dir,
                                        logpre,
                                        ray.t_max,
                                    ) implies #[trigger] handled(
                                    self.primitives@,
                                    p2,
                                    ray.org,
                                    ray.dir,
                                    log,
                                    ray.t_max,
                                ) by {}
                            }
                            if visitor.visit(pi, hp.t) {
                                stop = true;
                            }
                        } else {
                            proof {
                                assert forall|p: int, t: Rat|
                                    logged(logpre, p, t) implies logged(log, p, t) by {}
                            }
                        }
                        k = k + 1;
                    }
                    if stop {
                        return (true, Ghost(log));
                    }
                } else {
                    descend = true;
                }
            } else {
                // the ray misses this node's box within its own cutoff, so
                // every hit under it lies beyond the cutoff
                proof {
                    if self.covers_all() {
                        assert forall|p: int|
                            0 <= p < plen && in_subtree(
                                self.nodes@,
                                curpre,
                                cendpre,
                                p,
                            ) implies #[trigger] handled(
                            self.primitives@,
                            p,
                            ray.org,
                            ray.dir,
                            log,
                            ray.t_max,
                        ) by {
                            match self.primitives@[p].hit_spec(ray.org, ray.dir) {
                                Some(t) => {
                                    let pp = self.primitives@[p];
                                    pp.hit_in_bounds(ray.org, ray.dir, t);
                                    lemma_subtree_box(
                                        self.nodes@,
                                        self.primitives@,
                                        curpre,
                                        cendpre,
                                        p,
                                    );
                                    lemma_pt_in_box_mono(
                                        pp.bounds_spec(),
                                        node.bounds,
                                        ray.org,
                                        ray.dir,
                                        t,
                                    );
                                    if t.spec_le(ray.t_max) {
                                        assert((Rat { num: 0, den: 1 }).spec_le(t))
                                            by (nonlinear_arith)
                                            requires
                                                t.num >= 0,
                                                t.den > 0,
                                        ;
                                        assert(valid_box_hit(node.bounds, *ray, t));
                                        assert(false);
                                    }
                                },
                                None => {},
                            }
                        }
                    }
                }
            }
            if descend {
                // a second child recorded past the segment's end covers
                // nothing of this segment; it is only reachable on trees
                // no build of this index produces
                if node.offset < cur_end {
                    let dneg: bool = if node.axis == 0 {
                        ray.dir.x < 0
                    } else if node.axis == 1 {
                        ray.dir.y < 0
                    } else {
                        ray.dir.z < 0
                    };
                    let near: usize;
                    let near_end: usize;
                    let far: usize;
                    let far_end: usize;
                    if dneg {
                        near = node.offset;
                        near_end = cur_end;
                        far = cur + 1;
                        far_end = node.offset;
                    } else {
                        near = cur + 1;
                        near_end = node.offset;
                        far = node.offset;
                        far_end = cur_end;
                    }
                    stack.push((far, far_end));
                    cur = near;
                    cur_end = near_end;
                    proof {
                        assert(stack@.drop_last() =~= stpre);
                        assert(stack@.drop_last() == stpre);
                        assert(stack@.last() == (far, far_end));
                        assert(stack_weight(stack@) == stack_weight(stpre) + (far_end as int
                            - far as int));
                        lemma_stack_weight_nonneg(stack@);
                        if self.covers_all() {
                            assert forall|p: int|
                                0 <= p < plen && pending(
                                    self.nodes@,
                                    stpre,
                                    curpre,
                                    cendpre,
                                    p,
                                ) implies pending(
                                self.nodes@,
                                stack@,
                                cur as int,
                                cur_end as int,
                                p,
                            ) by {
                                if in_subtree(self.nodes@, curpre, cendpre, p) {
                                    if in_subtree(self.nodes@, far as int, far_end as int, p) {
                                        assert(pair_covers(
                                            self.nodes@,
                                            stack@,
                                            stpre.len() as int,
                                            p,
                                        ));
                                    }
                                } else {
                                    let k2 = choose|k2: int|
                                        #[trigger] pair_covers(self.nodes@, stpre, k2, p);
                                    assert(pair_covers(self.nodes@, stack@, k2, p));
                                }
                            }
                        }
                    }
                    continue ;
                }
            }
            let ghost stpop = stack@;
            match stack.pop() {
                Some(pr) => {
                    proof {
                        assert(stpop.drop_last() =~= stack@);
                        assert(stpop.drop_last() == stack@);
                        assert(stpop.last() == pr);
                        assert(stack_weight(stpop) == stack_weight(stack@) + (pr.1 as int
                            - pr.0 as int));
                        lemma_stack_weight_nonneg(stack@);
                        if self.covers_all() {
                            assert forall|p: int|
                                0 <= p < plen && pending(
                                    self.nodes@,
                                    stpop,
                                    curpre,
                                    cendpre,
                                    p,
                                ) implies pending(
                                self.nodes@,
                                stack@,
                                pr.0 as int,
                                pr.1 as int,
                                p,
                            ) || handled(
                                self.primitives@,
                                p,
                                ray.org,
                                ray.dir,
                                log,
                                ray.t_max,
                            ) by {
                                if in_subtree(self.nodes@, curpre, cendpre, p) {
                                    assert(handled(
                                        self.primitives@,
                                        p,
                                        ray.org,
                                        ray.dir,
                                        log,
                                        ray.t_max,
                                    ));
                                } else {
                                    let k2 = choose|k2: int|
                                        #[trigger] pair_covers(self.nodes@, stpop, k2, p);
                                    if k2 == stpop.len() - 1 {
                                    } else {
                                        assert(pair_covers(self.nodes@, stack@, k2, p));
                                    }
                                }
                            }
                        }
                    }
                    cur = pr.0;
                    cur_end = pr.1;
                },
                None => {
                    proof {
                        if self.covers_all() {
                            assert forall|p: int| 0 <= p < plen implies #[trigger] handled(
                                self.primitives@,
                                p,
                                ray.org,
                                ray.dir,
                                log,
                                ray.t_max,
                            ) by {
                                if pending(self.nodes@, stpop, curpre, cendpre, p) {
                                    if !in_subtree(self.nodes@, curpre, cendpre, p) {
                                        let k2 = choose|k2: int|
                                            #[trigger] pair_covers(self.nodes@, stpop, k2, p);
                                    }
                                }
                            }
                        }
                    }
                    break ;
                },
            }
        }
        (false, Ghost(log))
    }
}

} // verus!

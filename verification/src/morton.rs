//! Morton (Z-order) encoding of three 10-bit coordinates into one 30-bit key,
//! and the in-place permutation appliers that fix the primitive order after
//! the keys are sorted.

use vstd::prelude::*;
use vstd::set_lib::lemma_int_range;
use vstd::set_lib::lemma_len_subset;
use vstd::set_lib::set_int_range;

verus! {

/// Bit `j` of `x` contributes `8^j`: the value whose binary digits are the
/// low ten bits of `x`, each followed by two zero bits.
pub open spec fn spread3(x: u32) -> int {
    ((x >> 0) & 1) + 8 * ((x >> 1) & 1) + 64 * ((x >> 2) & 1) + 512 * ((x >> 3) & 1) + 4096 * ((x
        >> 4) & 1) + 32768 * ((x >> 5) & 1) + 262144 * ((x >> 6) & 1) + 2097152 * ((x >> 7) & 1)
        + 16777216 * ((x >> 8) & 1) + 134217728 * ((x >> 9) & 1)
}

/// The 30-bit interleaved key: bit `j` of `x` lands at bit `3*j`, of `y` at
/// `3*j + 1`, of `z` at `3*j + 2`.
pub open spec fn morton3(x: u32, y: u32, z: u32) -> int {
    spread3(x) + 2 * spread3(y) + 4 * spread3(z)
}

/// Spreading keeps numeric order: moving bit `j` to position `3*j` for every
/// bit preserves the order of significance.
pub proof fn lemma_spread3_le(x: u32, x2: u32)
    requires
        x <= x2 < 1024,
    ensures
        spread3(x) <= spread3(x2),
        0 <= spread3(x) <= 0x09249249,
{
    assert(x <= x2 < 1024 ==> ((x >> 0) & 1) + 8 * ((x >> 1) & 1) + 64 * ((x >> 2) & 1) + 512 * ((
        x >> 3) & 1) + 4096 * ((x >> 4) & 1) + 32768 * ((x >> 5) & 1) + 262144 * ((x >> 6) & 1)
        + 2097152 * ((x >> 7) & 1) + 16777216 * ((x >> 8) & 1) + 134217728 * ((x >> 9) & 1) <= ((x2
        >> 0) & 1) + 8 * ((x2 >> 1) & 1) + 64 * ((x2 >> 2) & 1) + 512 * ((x2 >> 3) & 1) + 4096 * ((
        x2 >> 4) & 1) + 32768 * ((x2 >> 5) & 1) + 262144 * ((x2 >> 6) & 1) + 2097152 * ((x2 >> 7)
        & 1) + 16777216 * ((x2 >> 8) & 1) + 134217728 * ((x2 >> 9) & 1)) by (bit_vector);
    assert(((x >> 0) & 1) + 8 * ((x >> 1) & 1) + 64 * ((x >> 2) & 1) + 512 * ((x >> 3) & 1) + 4096
        * ((x >> 4) & 1) + 32768 * ((x >> 5) & 1) + 262144 * ((x >> 6) & 1) + 2097152 * ((x >> 7)
        & 1) + 16777216 * ((x >> 8) & 1) + 134217728 * ((x >> 9) & 1) <= 0x09249249) by (bit_vector);
}

/// A componentwise larger coordinate triple never gets a smaller key.
pub proof fn lemma_morton3_monotonic(x: u32, y: u32, z: u32, x2: u32, y2: u32, z2: u32)
    requires
        x <= x2 < 1024,
        y <= y2 < 1024,
        z <= z2 < 1024,
    ensures
        morton3(x, y, z) <= morton3(x2, y2, z2),
{
    lemma_spread3_le(x, x2);
    lemma_spread3_le(y, y2);
    lemma_spread3_le(z, z2);
}

/// Keys fit in 30 bits.
pub proof fn lemma_morton3_bound(x: u32, y: u32, z: u32)
    requires
        x < 1024,
        y < 1024,
        z < 1024,
    ensures
        0 <= morton3(x, y, z) < 0x40000000,
{
    lemma_spread3_le(x, x);
    lemma_spread3_le(y, y);
    lemma_spread3_le(z, z);
}

/// Spreads the low 10 bits of `x` with two zero bits after each.
///
/// Keys are built per axis from these spread values.
pub fn left_shift3(x: u32) -> (r: u32)
    requires
        x < 1024,
    ensures
        r == spread3(x),
        r & 0x09249249 == r,
{
    let a = (x | (x << 16u32)) & 0x030000ffu32;
    let b = (a | (a << 8u32)) & 0x0300f00fu32;
    let c = (b | (b << 4u32)) & 0x030c30c3u32;
    let r = (c | (c << 2u32)) & 0x09249249u32;
    proof {
        assert(x < 1024 ==> ((((((x | (x << 16)) & 0x030000ff) | (((x | (x << 16)) & 0x030000ff)
            << 8)) & 0x0300f00f) | ((((x | (x << 16)) & 0x030000ff) | (((x | (x << 16))
            & 0x030000ff) << 8)) & 0x0300f00f) << 4) & 0x030c30c3 | (((((((x | (x << 16))
            & 0x030000ff) | (((x | (x << 16)) & 0x030000ff) << 8)) & 0x0300f00f) | ((((x | (x
            << 16)) & 0x030000ff) | (((x | (x << 16)) & 0x030000ff) << 8)) & 0x0300f00f) << 4)
            & 0x030c30c3) << 2)) & 0x09249249 == ((x >> 0) & 1) + 8 * ((x >> 1) & 1) + 64 * ((x
            >> 2) & 1) + 512 * ((x >> 3) & 1) + 4096 * ((x >> 4) & 1) + 32768 * ((x >> 5) & 1)
            + 262144 * ((x >> 6) & 1) + 2097152 * ((x >> 7) & 1) + 16777216 * ((x >> 8) & 1)
            + 134217728 * ((x >> 9) & 1)) by (bit_vector);
        assert(((c | (c << 2)) & 0x09249249) & 0x09249249 == ((c | (c << 2)) & 0x09249249))
            by (bit_vector);
    }
    r
}

/// Interleaves three coordinates, each below 1024, into a 30-bit key that
/// preserves spatial locality under numeric ordering.
pub fn encode_morton3(x: u32, y: u32, z: u32) -> (r: u32)
    requires
        x < 1024,
        y < 1024,
        z < 1024,
    ensures
        r == morton3(x, y, z),
        r < 0x40000000,
{
    let sx = left_shift3(x);
    let sy = left_shift3(y);
    let sz = left_shift3(z);
    let r = (sz << 2u32) | (sy << 1u32) | sx;
    proof {
        assert((sx & 0x09249249 == sx && sy & 0x09249249 == sy && sz & 0x09249249 == sz) ==> ((sz
            << 2) | (sy << 1) | sx) == sx + 2 * sy + 4 * sz) by (bit_vector);
        lemma_morton3_bound(x, y, z);
    }
    r
}

/// `m` maps `[0, m.len())` into itself with no repeats.
pub open spec fn is_perm(m: Seq<usize>) -> bool {
    &&& forall|p: int| 0 <= p < m.len() ==> (#[trigger] m[p]) < m.len()
    &&& forall|p: int, q: int|
        #![trigger m[p], m[q]]
        0 <= p < m.len() && 0 <= q < m.len() && p != q ==> m[p] != m[q]
}

/// The positions that a permutation map does not yet fix.
pub open spec fn unfixed(m: Seq<usize>) -> Set<int> {
    Set::new(|p: int| 0 <= p < m.len() && m[p] != p)
}

proof fn lemma_unfixed_finite(m: Seq<usize>)
    ensures
        unfixed(m).finite(),
        unfixed(m).len() <= m.len(),
{
    lemma_int_range(0, m.len() as int);
    assert(unfixed(m).subset_of(set_int_range(0, m.len() as int)));
    lemma_len_subset(unfixed(m), set_int_range(0, m.len() as int));
}

/// Setting one unfixed position to itself shrinks the unfixed set by one.
proof fn lemma_unfixed_shrinks(m: Seq<usize>, j: int)
    requires
        0 <= j < m.len(),
        m.len() <= usize::MAX,
        m[j] != j,
    ensures
        unfixed(m.update(j, j as usize)).len() < unfixed(m).len(),
        unfixed(m.update(j, j as usize)).finite(),
{
    lemma_unfixed_finite(m);
    lemma_unfixed_finite(m.update(j, j as usize));
    assert(unfixed(m.update(j, j as usize)) =~= unfixed(m).remove(j));
    assert(unfixed(m).contains(j));
}

/// Slot `q` is still fixed and originally named `p`.
spec fn src_at(m0: Seq<usize>, m: Seq<usize>, p: int, q: int) -> bool {
    0 <= q < m.len() && m[q] == q && m0[q] == p
}

/// Some still-fixed slot originally named `p`.
spec fn has_src(m0: Seq<usize>, m: Seq<usize>, p: int) -> bool {
    exists|q: int| #[trigger] src_at(m0, m, p, q)
}

/// Every fixed slot other than `except` has a fixed slot that originally
/// named it.
spec fn all_src(m0: Seq<usize>, m: Seq<usize>, except: int) -> bool {
    forall|p: int| 0 <= p < m.len() && #[trigger] m[p] == p && p != except ==> has_src(m0, m, p)
}

/// Fixed slots already hold their final element; pending slots still hold
/// their original map entry.
spec fn fwd_core<T>(m0: Seq<usize>, o0: Seq<T>, m: Seq<usize>, o: Seq<T>) -> bool {
    &&& m.len() == m0.len() && o.len() == o0.len() && o0.len() == m0.len()
    &&& forall|p: int| 0 <= p < m.len() && #[trigger] m[p] == p ==> o[p] == o0[m0[p] as int]
    &&& forall|p: int| 0 <= p < m.len() && #[trigger] m[p] != p ==> m[p] == m0[p]
}

proof fn lemma_fwd_init<T>(m0: Seq<usize>, o0: Seq<T>)
    requires
        m0.len() == o0.len(),
    ensures
        fwd_core(m0, o0, m0, o0),
        all_src(m0, m0, -1),
{
    assert forall|p: int| 0 <= p < m0.len() && #[trigger] m0[p] == p && p != -1 implies has_src(
        m0,
        m0,
        p,
    ) by {
        assert(src_at(m0, m0, p, p));
    }
}

/// One walk step that does not close the cycle: slot `j` is fixed, the
/// escrowed element moves to slot `k = m0[j]`, and `k` is still pending.
proof fn lemma_fwd_step<T>(
    m0: Seq<usize>,
    o0: Seq<T>,
    m: Seq<usize>,
    o: Seq<T>,
    i: int,
    j: int,
    x: T,
)
    requires
        is_perm(m0),
        fwd_core(m0, o0, m, o),
        all_src(m0, m, i),
        m.len() <= usize::MAX,
        0 <= i < m.len(),
        0 <= j < m.len(),
        m[j] != j,
        forall|p: int| 0 <= p < m.len() && #[trigger] m[p] != p && p != j ==> o[p] == o0[p],
        o[j] == x,
        x == o0[i],
        j == i || has_src(m0, m, j),
        j == i || m[i] == i,
        m0[j] != i,
    ensures
        ({
            let k = m0[j] as int;
            let m2 = m.update(j, j as usize);
            let o2 = o.update(k, x).update(j, o[k]);
            &&& 0 <= k < m.len() && k != i && k != j
            &&& m2[k] != k
            &&& o2[k] == x
            &&& fwd_core(m0, o0, m2, o2)
            &&& all_src(m0, m2, i)
            &&& forall|p: int|
                0 <= p < m.len() && #[trigger] m2[p] != p && p != k ==> o2[p] == o0[p]
            &&& has_src(m0, m2, k)
            &&& m2[i] == i
        }),
{
    let k = m0[j] as int;
    let m2 = m.update(j, j as usize);
    let o2 = o.update(k, x).update(j, o[k]);
    assert(k != j);
    // `k` cannot be fixed: its only source under `m0` is `j`, still pending.
    if m[k] == k {
        if k != i {
            let q = choose|q: int| #[trigger] src_at(m0, m, k, q);
            assert(m0[q] == m0[j]);
            assert(false);
        }
    }
    assert(m2[k] != k);
    assert forall|p: int| 0 <= p < m2.len() && #[trigger] m2[p] == p implies o2[p] == o0[m0[p] as int] by {
        if p == j {
            assert(o2[j] == o[k]);
            assert(m[k] != k && k != j);
        } else {
            assert(m[p] == p && p != k);
        }
    }
    assert forall|p: int| 0 <= p < m2.len() && #[trigger] m2[p] == p && p != i implies has_src(
        m0,
        m2,
        p,
    ) by {
        if p == j {
            let q = choose|q: int| #[trigger] src_at(m0, m, j, q);
            assert(q != j);
            assert(src_at(m0, m2, p, q));
        } else {
            assert(m[p] == p);
            let q = choose|q: int| #[trigger] src_at(m0, m, p, q);
            assert(q != j);
            assert(src_at(m0, m2, p, q));
        }
    }
    assert(m2[j] == j && m0[j] == k);
    assert(src_at(m0, m2, k, j));
    if j != i {
        assert(m2[i] == i);
    }
}

/// The closing step of a cycle: `m0[j]` names the cycle head `i`, so fixing
/// `j` re-establishes the between-cycles state.
proof fn lemma_fwd_close<T>(m0: Seq<usize>, o0: Seq<T>, m: Seq<usize>, o: Seq<T>, i: int, j: int, x: T)
    requires
        is_perm(m0),
        fwd_core(m0, o0, m, o),
        all_src(m0, m, i),
        m.len() <= usize::MAX,
        0 <= i < m.len(),
        0 <= j < m.len(),
        m[j] != j,
        forall|p: int| 0 <= p < m.len() && #[trigger] m[p] != p && p != j ==> o[p] == o0[p],
        o[j] == x,
        x == o0[i],
        j == i || has_src(m0, m, j),
        j == i || m[i] == i,
        m0[j] == i,
    ensures
        ({
            let m2 = m.update(j, j as usize);
            &&& fwd_core(m0, o0, m2, o)
            &&& all_src(m0, m2, -1)
            &&& forall|p: int| 0 <= p < m.len() && #[trigger] m2[p] != p ==> o[p] == o0[p]
            &&& m2[i] == i
            &&& m2[j] == j
        }),
{
    let m2 = m.update(j, j as usize);
    assert forall|p: int| 0 <= p < m2.len() && #[trigger] m2[p] == p implies o[p] == o0[m0[p] as int] by {
        if p == j {
            assert(o[j] == x && m0[j] == i);
        } else {
            assert(m[p] == p);
        }
    }
    assert forall|p: int| 0 <= p < m2.len() && #[trigger] m2[p] == p && p != -1 implies has_src(
        m0,
        m2,
        p,
    ) by {
        if p == i {
            assert(src_at(m0, m2, p, j));
        } else if p == j {
            let q = choose|q: int| #[trigger] src_at(m0, m, j, q);
            assert(q != j);
            assert(src_at(m0, m2, p, q));
        } else {
            assert(m[p] == p);
            let q = choose|q: int| #[trigger] src_at(m0, m, p, q);
            assert(q != j);
            assert(src_at(m0, m2, p, q));
        }
    }
    if j != i {
        assert(m2[i] == i);
    }
}

/// Reorders `org` in place so that afterwards `org[i]` holds what stood at
/// `org[map[i]]`, following each permutation cycle once with one escrowed
/// element per cycle. Leaves `map` as the identity.
pub fn inplace_map<T: Copy>(map: &mut Vec<usize>, org: &mut Vec<T>)
    requires
        old(map)@.len() == old(org)@.len(),
        is_perm(old(map)@),
    ensures
        final(org)@.len() == old(org)@.len(),
        final(map)@.len() == old(map)@.len(),
        forall|p: int|
            0 <= p < old(org)@.len() ==> final(org)@[p] == old(org)@[old(map)@[p] as int],
        forall|p: int| 0 <= p < old(map)@.len() ==> final(map)@[p] == p,
{
    let ghost m0 = old(map)@;
    let ghost o0 = old(org)@;
    let n = org.len();
    proof {
        lemma_fwd_init(m0, o0);
    }
    let mut i: usize = 0;
    while i < n
        invariant
            i <= n,
            n == map@.len() == org@.len(),
            m0 == old(map)@,
            o0 == old(org)@,
            is_perm(m0),
            fwd_core(m0, o0, map@, org@),
            all_src(m0, map@, -1),
            forall|p: int| 0 <= p < n && #[trigger] map@[p] != p ==> org@[p] == o0[p],
            forall|p: int| 0 <= p < i ==> #[trigger] map@[p] == p,
        decreases n - i,
    {
        if map[i] != i {
            let x = org[i];
            let mut j = i;
            loop
                invariant_except_break
                    n == map@.len() == org@.len(),
                    is_perm(m0),
                    m0.len() == n,
                    o0.len() == n,
                    i < n,
                    j < n,
                    map@[j as int] != j,
                    org@[j as int] == x,
                    x == o0[i as int],
                    fwd_core(m0, o0, map@, org@),
                    all_src(m0, map@, i as int),
                    forall|p: int|
                        0 <= p < n && #[trigger] map@[p] != p && p != j ==> org@[p] == o0[p],
                    j == i || has_src(m0, map@, j as int),
                    j == i || map@[i as int] == i,
                    forall|p: int| 0 <= p < i ==> #[trigger] map@[p] == p,
                ensures
                    n == map@.len() == org@.len(),
                    j < n,
                    map@[j as int] == j,
                    org@[j as int] == x,
                    map@[i as int] == i,
                    fwd_core(m0, o0, map@, org@),
                    all_src(m0, map@, -1),
                    forall|p: int| 0 <= p < n && #[trigger] map@[p] != p ==> org@[p] == o0[p],
                    forall|p: int| 0 <= p < i ==> #[trigger] map@[p] == p,
                decreases unfixed(map@).len(),
            {
                let ghost pre = map@;
                let ghost opre = org@;
                let k = map[j];
                map[j] = j;
                proof {
                    lemma_unfixed_shrinks(pre, j as int);
                }
                if i == k {
                    proof {
                        lemma_fwd_close(m0, o0, pre, opre, i as int, j as int, x);
                    }
                    break ;
                }
                proof {
                    lemma_fwd_step(m0, o0, pre, opre, i as int, j as int, x);
                }
                let t1 = org[k];
                org[k] = x;
                org[j] = t1;
                proof {
                    assert(org@ == opre.update(k as int, x).update(j as int, opre[k as int]));
                }
                j = k;
            }
            org[j] = x;
            proof {
                assert forall|p: int| 0 <= p < n && #[trigger] map@[p] == p implies org@[p]
                    == o0[m0[p] as int] by {}
            }
        }
        i += 1;
    }
    proof {
        assert forall|p: int| 0 <= p < n implies org@[p] == o0[m0[p] as int] by {
            assert(map@[p] == p);
        }
    }
}

/// Slot `p` holds the (map entry, element) pair that started in slot `q`.
spec fn trace_at<T>(m0: Seq<usize>, o0: Seq<T>, m: Seq<usize>, o: Seq<T>, p: int, q: int) -> bool {
    0 <= q < m0.len() && m[p] == m0[q] && o[p] == o0[q]
}

/// Slot `p` still holds some original (map entry, element) pair.
spec fn has_trace<T>(m0: Seq<usize>, o0: Seq<T>, m: Seq<usize>, o: Seq<T>, p: int) -> bool {
    exists|q: int| #[trigger] trace_at(m0, o0, m, o, p, q)
}

spec fn all_traced<T>(m0: Seq<usize>, o0: Seq<T>, m: Seq<usize>, o: Seq<T>) -> bool {
    &&& m.len() == m0.len() && o.len() == o0.len() && o0.len() == m0.len()
    &&& forall|p: int| 0 <= p < m.len() ==> #[trigger] has_trace(m0, o0, m, o, p)
}

proof fn lemma_rev_init<T>(m0: Seq<usize>, o0: Seq<T>)
    requires
        m0.len() == o0.len(),
    ensures
        all_traced(m0, o0, m0, o0),
{
    assert forall|p: int| 0 <= p < m0.len() implies #[trigger] has_trace(m0, o0, m0, o0, p) by {
        assert(trace_at(m0, o0, m0, o0, p, p));
    }
}

/// Swapping slots `i` and `k` in both arrays keeps every slot traceable and
/// keeps the map a permutation; slot `k` comes out fixed.
proof fn lemma_rev_step<T>(m0: Seq<usize>, o0: Seq<T>, m: Seq<usize>, o: Seq<T>, i: int)
    requires
        is_perm(m0),
        is_perm(m),
        all_traced(m0, o0, m, o),
        0 <= i < m.len(),
        m[i] != i,
    ensures
        ({
            let k = m[i] as int;
            let m2 = m.update(i, m[k]).update(k, m[i]);
            let o2 = o.update(i, o[k]).update(k, o[i]);
            &&& 0 <= k < m.len() && k != i
            &&& m[k] != k
            &&& m2[k] == k
            &&& is_perm(m2)
            &&& all_traced(m0, o0, m2, o2)
        }),
{
    let k = m[i] as int;
    if m[k] == k {
        assert(m[i] == m[k]);
        assert(false);
    }
    let m2 = m.update(i, m[k]).update(k, m[i]);
    let o2 = o.update(i, o[k]).update(k, o[i]);
    assert forall|p: int| 0 <= p < m2.len() implies #[trigger] has_trace(m0, o0, m2, o2, p) by {
        if p == i {
            assert(has_trace(m0, o0, m, o, k));
            let q = choose|q: int| #[trigger] trace_at(m0, o0, m, o, k, q);
            assert(trace_at(m0, o0, m2, o2, p, q));
        } else if p == k {
            assert(has_trace(m0, o0, m, o, i));
            let q = choose|q: int| #[trigger] trace_at(m0, o0, m, o, i, q);
            assert(trace_at(m0, o0, m2, o2, p, q));
        } else {
            assert(has_trace(m0, o0, m, o, p));
            let q = choose|q: int| #[trigger] trace_at(m0, o0, m, o, p, q);
            assert(trace_at(m0, o0, m2, o2, p, q));
        }
    }
}

/// Once the map is the identity, traceability pins every slot: the element
/// that started at `p` now sits at `m0[p]`.
proof fn lemma_rev_final<T>(m0: Seq<usize>, o0: Seq<T>, m: Seq<usize>, o: Seq<T>)
    requires
        is_perm(m0),
        all_traced(m0, o0, m, o),
        forall|p: int| 0 <= p < m.len() ==> #[trigger] m[p] == p,
    ensures
        forall|p: int| 0 <= p < m.len() ==> o[m0[p] as int] == o0[p],
{
    assert forall|p: int| 0 <= p < m.len() implies o[m0[p] as int] == o0[p] by {
        let t = m0[p] as int;
        assert(has_trace(m0, o0, m, o, t));
        let q = choose|q: int| #[trigger] trace_at(m0, o0, m, o, t, q);
        assert(m[t] == t);
        assert(m0[q] == m0[p]);
    }
}

/// Reorders `org` in place so that what stood at `org[i]` lands at
/// `org[map[i]]`, repeatedly swapping slot `i` with the slot its entry
/// names. Leaves `map` as the identity.
pub fn inplace_map_rev<T: Copy>(map: &mut Vec<usize>, org: &mut Vec<T>)
    requires
        old(map)@.len() == old(org)@.len(),
        is_perm(old(map)@),
    ensures
        final(org)@.len() == old(org)@.len(),
        final(map)@.len() == old(map)@.len(),
        forall|p: int|
            0 <= p < old(org)@.len() ==> final(org)@[old(map)@[p] as int] == old(org)@[p],
        forall|p: int| 0 <= p < old(map)@.len() ==> final(map)@[p] == p,
{
    let ghost m0 = old(map)@;
    let ghost o0 = old(org)@;
    let n = org.len();
    proof {
        lemma_rev_init(m0, o0);
    }
    let mut i: usize = 0;
    while i < n
        invariant
            i <= n,
            n == map@.len() == org@.len(),
            m0 == old(map)@,
            o0 == old(org)@,
            is_perm(m0),
            is_perm(map@),
            all_traced(m0, o0, map@, org@),
            forall|p: int| 0 <= p < i ==> #[trigger] map@[p] == p,
        decreases n - i,
    {
        while map[i] != i
            invariant
                i < n,
                n == map@.len() == org@.len(),
                is_perm(m0),
                is_perm(map@),
                all_traced(m0, o0, map@, org@),
                forall|p: int| 0 <= p < i ==> #[trigger] map@[p] == p,
            decreases unfixed(map@).len(),
        {
            let ghost pre = map@;
            let ghost opre = org@;
            let k = map[i];
            proof {
                lemma_rev_step(m0, o0, pre, opre, i as int);
            }
            let t1 = org[i];
            let t2 = org[k];
            org[i] = t2;
            org[k] = t1;
            let u1 = map[i];
            let u2 = map[k];
            map[i] = u2;
            map[k] = u1;
            proof {
                assert(map@ == pre.update(i as int, pre[k as int]).update(k as int, pre[i as int]));
                assert(org@ == opre.update(i as int, opre[k as int]).update(
                    k as int,
                    opre[i as int],
                ));
                lemma_unfixed_finite(pre);
                lemma_unfixed_finite(map@);
                assert(unfixed(map@).subset_of(unfixed(pre).remove(k as int)));
                assert(unfixed(pre).contains(k as int));
                lemma_len_subset(unfixed(map@), unfixed(pre).remove(k as int));
                // prefix slots stay fixed: a fixed slot is never the target
                assert forall|p: int| 0 <= p < i implies #[trigger] map@[p] == p by {
                    assert(p != k as int);
                }
            }
        }
        i += 1;
    }
    proof {
        lemma_rev_final(m0, o0, map@, org@);
    }
}


/// A record that carries a 30-bit Morton key, as the sorter reads it.
pub trait MortonCode: Sized {
    /// The key the record sorts by.
    spec fn code_spec(&self) -> u32;

    fn morton_code(&self) -> (r: u32)
        ensures
            r == self.code_spec(),
    ;
}

/// The low `lowbit` bits of a key.
pub open spec fn lowpart(c: u32, lowbit: u32) -> u32 {
    c % (1u32 << lowbit)
}

/// The 6-bit digit of a key starting at `lowbit`.
pub open spec fn bucket_of(c: u32, lowbit: u32) -> u32 {
    (c >> lowbit) & 63
}

/// Pair `a` comes no later than `b` when ordering by the low `lowbit` key
/// bits first and the original index second.
pub open spec fn lex_le(a: (usize, u32), b: (usize, u32), lowbit: u32) -> bool {
    ||| lowpart(a.1, lowbit) < lowpart(b.1, lowbit)
    ||| (lowpart(a.1, lowbit) == lowpart(b.1, lowbit) && a.0 <= b.0)
}

pub open spec fn sorted_lex(s: Seq<(usize, u32)>, lowbit: u32) -> bool {
    forall|p: int, q: int|
        #![trigger s[p], s[q]]
        0 <= p < q < s.len() ==> lex_le(s[p], s[q], lowbit)
}

pub open spec fn distinct_firsts(s: Seq<(usize, u32)>) -> bool {
    forall|p: int, q: int|
        #![trigger s[p], s[q]]
        0 <= p < s.len() && 0 <= q < s.len() && p != q ==> s[p].0 != s[q].0
}

/// How many of the first `i` records fall in digit `b`.
spec fn cnt_pfx(s: Seq<(usize, u32)>, i: int, b: int, lowbit: u32) -> int
    decreases i,
{
    if i <= 0 {
        0
    } else {
        cnt_pfx(s, i - 1, b, lowbit) + if bucket_of(s[i - 1].1, lowbit) == b {
            1int
        } else {
            0int
        }
    }
}

/// Where digit `b`'s run starts: how many records fall in a lower digit.
spec fn below(s: Seq<(usize, u32)>, b: int, lowbit: u32) -> int
    decreases b,
{
    if b <= 0 {
        0
    } else {
        below(s, b - 1, lowbit) + cnt_pfx(s, s.len() as int, b - 1, lowbit)
    }
}

proof fn lemma_cnt_pfx_bounds(s: Seq<(usize, u32)>, i: int, b: int, lowbit: u32)
    requires
        0 <= i <= s.len(),
    ensures
        0 <= cnt_pfx(s, i, b, lowbit) <= i,
    decreases i,
{
    if i > 0 {
        lemma_cnt_pfx_bounds(s, i - 1, b, lowbit);
    }
}

proof fn lemma_cnt_pfx_mono(s: Seq<(usize, u32)>, i: int, i2: int, b: int, lowbit: u32)
    requires
        0 <= i <= i2 <= s.len(),
    ensures
        cnt_pfx(s, i, b, lowbit) <= cnt_pfx(s, i2, b, lowbit),
    decreases i2,
{
    if i < i2 {
        lemma_cnt_pfx_mono(s, i, i2 - 1, b, lowbit);
    }
}

proof fn lemma_below_mono(s: Seq<(usize, u32)>, b1: int, b2: int, lowbit: u32)
    requires
        0 <= b1 <= b2,
    ensures
        below(s, b1, lowbit) <= below(s, b2, lowbit),
    decreases b2,
{
    if b1 < b2 {
        lemma_below_mono(s, b1, b2 - 1, lowbit);
        lemma_cnt_pfx_bounds(s, s.len() as int, b2 - 1, lowbit);
    }
}

/// Sum of the digit counts of the first `i` records over all digits below
/// `b`.
spec fn partial_sum(s: Seq<(usize, u32)>, i: int, b: int, lowbit: u32) -> int
    decreases b,
{
    if b <= 0 {
        0
    } else {
        partial_sum(s, i, b - 1, lowbit) + cnt_pfx(s, i, b - 1, lowbit)
    }
}

proof fn lemma_partial_sum_step(s: Seq<(usize, u32)>, i: int, b: int, lowbit: u32)
    requires
        0 < i <= s.len(),
        0 <= b,
    ensures
        partial_sum(s, i, b, lowbit) == partial_sum(s, i - 1, b, lowbit) + if bucket_of(
            s[i - 1].1,
            lowbit,
        ) < b {
            1int
        } else {
            0int
        },
    decreases b,
{
    if b > 0 {
        lemma_partial_sum_step(s, i, b - 1, lowbit);
    }
}

proof fn lemma_partial_sum_zero(s: Seq<(usize, u32)>, b: int, lowbit: u32)
    ensures
        partial_sum(s, 0, b, lowbit) == 0,
    decreases b,
{
    if b > 0 {
        lemma_partial_sum_zero(s, b - 1, lowbit);
    }
}

/// Each record falls in exactly one digit, so the counts over all 64 digits
/// sum to the record count.
proof fn lemma_total(s: Seq<(usize, u32)>, i: int, lowbit: u32)
    requires
        0 <= i <= s.len(),
    ensures
        partial_sum(s, i, 64, lowbit) == i,
    decreases i,
{
    if i > 0 {
        lemma_total(s, i - 1, lowbit);
        lemma_partial_sum_step(s, i, 64, lowbit);
        let c = s[i - 1].1;
        assert((c >> lowbit) & 63 < 64) by (bit_vector);
    } else {
        lemma_partial_sum_zero(s, 64, lowbit);
    }
}

proof fn lemma_below_is_partial(s: Seq<(usize, u32)>, b: int, lowbit: u32)
    requires
        0 <= b,
    ensures
        below(s, b, lowbit) == partial_sum(s, s.len() as int, b, lowbit),
    decreases b,
{
    if b > 0 {
        lemma_below_is_partial(s, b - 1, lowbit);
    }
}

proof fn lemma_below_total(s: Seq<(usize, u32)>, lowbit: u32)
    ensures
        below(s, 64, lowbit) == s.len(),
{
    lemma_below_is_partial(s, 64, lowbit);
    lemma_total(s, s.len() as int, lowbit);
}

/// Every slot lies in exactly one digit's run.
proof fn lemma_cover(s: Seq<(usize, u32)>, r: int, b: int, lowbit: u32)
    requires
        0 <= b < 64,
        below(s, b, lowbit) <= r < s.len(),
    ensures
        exists|b2: int| #[trigger] run_holds(s, r, b2, lowbit),
    decreases 64 - b,
{
    lemma_below_total(s, lowbit);
    if r < below(s, b + 1, lowbit) {
        assert(run_holds(s, r, b, lowbit));
    } else {
        assert(b + 1 < 64) by {
            if b + 1 == 64 {
                assert(below(s, 64, lowbit) == s.len());
            }
        }
        lemma_cover(s, r, b + 1, lowbit);
    }
}

/// Slot `r` lies in digit `b2`'s run.
spec fn run_holds(s: Seq<(usize, u32)>, r: int, b2: int, lowbit: u32) -> bool {
    0 <= b2 < 64 && below(s, b2, lowbit) <= r < below(s, b2 + 1, lowbit)
}

/// The digit positions the sorter visits, lowest first.
pub open spec fn pass_bit(lowbit: u32) -> bool {
    lowbit == 0 || lowbit == 6 || lowbit == 12 || lowbit == 18 || lowbit == 24
}

/// A smaller digit means a smaller widened low part.
proof fn lemma_bucket_dominates(a: u32, b: u32, lowbit: u32, wide: u32)
    requires
        pass_bit(lowbit),
        wide == lowbit + 6,
        bucket_of(a, lowbit) < bucket_of(b, lowbit),
    ensures
        lowpart(a, wide) < lowpart(b, wide),
{
    if lowbit == 0 {
        assert(((a >> 0u32) & 63 < (b >> 0u32) & 63) ==> a % (1u32 << 6u32) < b % (1u32 << 6u32))
            by (bit_vector);
    } else if lowbit == 6 {
        assert(((a >> 6u32) & 63 < (b >> 6u32) & 63) ==> a % (1u32 << 12u32) < b % (1u32
            << 12u32)) by (bit_vector);
    } else if lowbit == 12 {
        assert(((a >> 12u32) & 63 < (b >> 12u32) & 63) ==> a % (1u32 << 18u32) < b % (1u32
            << 18u32)) by (bit_vector);
    } else if lowbit == 18 {
        assert(((a >> 18u32) & 63 < (b >> 18u32) & 63) ==> a % (1u32 << 24u32) < b % (1u32
            << 24u32)) by (bit_vector);
    } else {
        assert(((a >> 24u32) & 63 < (b >> 24u32) & 63) ==> a % (1u32 << 30u32) < b % (1u32
            << 30u32)) by (bit_vector);
    }
}

/// Inside one digit, the widened low parts order exactly as the narrow ones.
proof fn lemma_same_bucket(a: u32, b: u32, lowbit: u32, wide: u32)
    requires
        pass_bit(lowbit),
        wide == lowbit + 6,
        bucket_of(a, lowbit) == bucket_of(b, lowbit),
    ensures
        (lowpart(a, wide) < lowpart(b, wide)) == (lowpart(a, lowbit) < lowpart(b, lowbit)),
        (lowpart(a, wide) == lowpart(b, wide)) == (lowpart(a, lowbit) == lowpart(b, lowbit)),
{
    if lowbit == 0 {
        assert(((a >> 0u32) & 63 == (b >> 0u32) & 63) ==> ((a % (1u32 << 6u32) < b % (1u32
            << 6u32)) == (a % (1u32 << 0u32) < b % (1u32 << 0u32))) && ((a % (1u32 << 6u32) == b
            % (1u32 << 6u32)) == (a % (1u32 << 0u32) == b % (1u32 << 0u32)))) by (bit_vector);
    } else if lowbit == 6 {
        assert(((a >> 6u32) & 63 == (b >> 6u32) & 63) ==> ((a % (1u32 << 12u32) < b % (1u32
            << 12u32)) == (a % (1u32 << 6u32) < b % (1u32 << 6u32))) && ((a % (1u32 << 12u32) == b
            % (1u32 << 12u32)) == (a % (1u32 << 6u32) == b % (1u32 << 6u32)))) by (bit_vector);
    } else if lowbit == 12 {
        assert(((a >> 12u32) & 63 == (b >> 12u32) & 63) ==> ((a % (1u32 << 18u32) < b % (1u32
            << 18u32)) == (a % (1u32 << 12u32) < b % (1u32 << 12u32))) && ((a % (1u32 << 18u32)
            == b % (1u32 << 18u32)) == (a % (1u32 << 12u32) == b % (1u32 << 12u32))))
            by (bit_vector);
    } else if lowbit == 18 {
        assert(((a >> 18u32) & 63 == (b >> 18u32) & 63) ==> ((a % (1u32 << 24u32) < b % (1u32
            << 24u32)) == (a % (1u32 << 18u32) < b % (1u32 << 18u32))) && ((a % (1u32 << 24u32)
            == b % (1u32 << 24u32)) == (a % (1u32 << 18u32) == b % (1u32 << 18u32))))
            by (bit_vector);
    } else {
        assert(((a >> 24u32) & 63 == (b >> 24u32) & 63) ==> ((a % (1u32 << 30u32) < b % (1u32
            << 30u32)) == (a % (1u32 << 24u32) < b % (1u32 << 24u32))) && ((a % (1u32 << 30u32)
            == b % (1u32 << 30u32)) == (a % (1u32 << 24u32) == b % (1u32 << 24u32))))
            by (bit_vector);
    }
}

/// Slot `r` of `out` holds input record `p`, which falls in digit `b2`.
spec fn elem_at(
    sv: Seq<(usize, u32)>,
    out: Seq<(usize, u32)>,
    i: int,
    b2: int,
    r: int,
    p: int,
    lowbit: u32,
) -> bool {
    0 <= p < i && out[r] == sv[p] && bucket_of(sv[p].1, lowbit) == b2
}

spec fn run_elem(
    sv: Seq<(usize, u32)>,
    out: Seq<(usize, u32)>,
    i: int,
    b2: int,
    r: int,
    lowbit: u32,
) -> bool {
    exists|p: int| #[trigger] elem_at(sv, out, i, b2, r, p, lowbit)
}

/// Every filled slot holds one of the first `i` records, in its own digit's
/// run.
spec fn runs_filled(
    sv: Seq<(usize, u32)>,
    out: Seq<(usize, u32)>,
    idv: Seq<usize>,
    i: int,
    lowbit: u32,
) -> bool {
    forall|b2: int, r: int|
        0 <= b2 < 64 && below(sv, b2, lowbit) <= r < idv[b2] ==> #[trigger] run_elem(
            sv,
            out,
            i,
            b2,
            r,
            lowbit,
        )
}

/// Slots `r1` and `r2` of digit `b2`'s run hold distinct records in order.
spec fn run_pair_ord(
    sv: Seq<(usize, u32)>,
    out: Seq<(usize, u32)>,
    b2: int,
    r1: int,
    r2: int,
    lowbit: u32,
) -> bool {
    lex_le(out[r1], out[r2], lowbit) && out[r1].0 != out[r2].0 && 0 <= b2
}

/// Within each digit's filled run the records keep their input order.
spec fn runs_sorted(
    sv: Seq<(usize, u32)>,
    out: Seq<(usize, u32)>,
    idv: Seq<usize>,
    lowbit: u32,
) -> bool {
    forall|b2: int, r1: int, r2: int|
        0 <= b2 < 64 && below(sv, b2, lowbit) <= r1 < r2 < idv[b2] ==> #[trigger] run_pair_ord(
            sv,
            out,
            b2,
            r1,
            r2,
            lowbit,
        )
}

/// Writing record `i` at the next free slot of its digit keeps the runs
/// filled in input order.
#[verifier::rlimit(100)]
proof fn lemma_scatter_step(
    sv: Seq<(usize, u32)>,
    o1: Seq<(usize, u32)>,
    id1: Seq<usize>,
    i: int,
    bb: int,
    r: int,
    lowbit: u32,
)
    requires
        distinct_firsts(sv),
        sorted_lex(sv, lowbit),
        sv.len() <= usize::MAX,
        0 <= i < sv.len(),
        o1.len() == sv.len(),
        id1.len() == 64,
        0 <= bb < 64,
        bucket_of(sv[i].1, lowbit) == bb,
        r == id1[bb],
        forall|b2: int|
            0 <= b2 < 64 ==> #[trigger] id1[b2] == below(sv, b2, lowbit) + cnt_pfx(
                sv,
                i,
                b2,
                lowbit,
            ),
        runs_filled(sv, o1, id1, i, lowbit),
        runs_sorted(sv, o1, id1, lowbit),
        0 <= r < o1.len(),
    ensures
        ({
            let o2 = o1.update(r, sv[i]);
            let id2 = id1.update(bb, (r + 1) as usize);
            &&& forall|b2: int|
                0 <= b2 < 64 ==> #[trigger] id2[b2] == below(sv, b2, lowbit) + cnt_pfx(
                    sv,
                    i + 1,
                    b2,
                    lowbit,
                )
            &&& runs_filled(sv, o2, id2, i + 1, lowbit)
            &&& runs_sorted(sv, o2, id2, lowbit)
        }),
{
    let o2 = o1.update(r, sv[i]);
    let id2 = id1.update(bb, (r + 1) as usize);
    lemma_below_total(sv, lowbit);
    assert forall|b2: int| 0 <= b2 < 64 implies id1[b2] <= sv.len() by {
        lemma_cnt_pfx_mono(sv, i, sv.len() as int, b2, lowbit);
        lemma_below_mono(sv, b2 + 1, 64, lowbit);
        assert(below(sv, b2 + 1, lowbit) == below(sv, b2, lowbit) + cnt_pfx(
            sv,
            sv.len() as int,
            b2,
            lowbit,
        ));
    }
    lemma_cnt_pfx_bounds(sv, i, bb, lowbit);
    lemma_cnt_pfx_mono(sv, i + 1, sv.len() as int, bb, lowbit);
    assert forall|b2: int| 0 <= b2 < 64 implies #[trigger] id2[b2] == below(sv, b2, lowbit)
        + cnt_pfx(sv, i + 1, b2, lowbit) by {
        assert(cnt_pfx(sv, i + 1, b2, lowbit) == cnt_pfx(sv, i, b2, lowbit) + if bucket_of(
            sv[i].1,
            lowbit,
        ) == b2 {
            1int
        } else {
            0int
        });
    }
    assert(below(sv, bb + 1, lowbit) == below(sv, bb, lowbit) + cnt_pfx(
        sv,
        sv.len() as int,
        bb,
        lowbit,
    ));
    assert(r + 1 <= below(sv, bb + 1, lowbit));
    assert forall|b2: int, r0: int|
        0 <= b2 < 64 && below(sv, b2, lowbit) <= r0 < id2[b2] implies #[trigger] run_elem(
        sv,
        o2,
        i + 1,
        b2,
        r0,
        lowbit,
    ) by {
        lemma_below_mono(sv, 0, b2, lowbit);
        if b2 == bb && r0 == r {
            assert(elem_at(sv, o2, i + 1, b2, r0, i, lowbit));
        } else {
            assert(r0 < id1[b2]);
            assert(run_elem(sv, o1, i, b2, r0, lowbit));
            let p = choose|p: int| #[trigger] elem_at(sv, o1, i, b2, r0, p, lowbit);
            if b2 != bb {
                // another digit's run never contains the written slot
                lemma_cnt_pfx_mono(sv, i, sv.len() as int, b2, lowbit);
                if b2 < bb {
                    lemma_below_mono(sv, b2 + 1, bb, lowbit);
                    assert(r0 < below(sv, b2 + 1, lowbit));
                } else {
                    lemma_below_mono(sv, bb + 1, b2, lowbit);
                }
                assert(r0 != r);
            }
            assert(elem_at(sv, o2, i + 1, b2, r0, p, lowbit));
        }
    }
    assert forall|b2: int, r1: int, r2: int|
        0 <= b2 < 64 && below(sv, b2, lowbit) <= r1 < r2 < id2[b2] implies #[trigger] run_pair_ord(
        sv,
        o2,
        b2,
        r1,
        r2,
        lowbit,
    ) by {
        lemma_below_mono(sv, 0, b2, lowbit);
        if b2 == bb && r2 == r {
            assert(r1 < id1[bb]);
            assert(run_elem(sv, o1, i, bb, r1, lowbit));
            let p = choose|p: int| #[trigger] elem_at(sv, o1, i, bb, r1, p, lowbit);
            assert(o2[r1] == sv[p] && o2[r2] == sv[i]);
            assert(lex_le(sv[p], sv[i], lowbit));
        } else {
            assert(r2 < id1[b2]);
            assert(run_pair_ord(sv, o1, b2, r1, r2, lowbit));
            if b2 != bb {
                lemma_cnt_pfx_mono(sv, i, sv.len() as int, b2, lowbit);
                if b2 < bb {
                    lemma_below_mono(sv, b2 + 1, bb, lowbit);
                    assert(r1 < below(sv, b2 + 1, lowbit));
                    assert(r2 < below(sv, b2 + 1, lowbit));
                } else {
                    lemma_below_mono(sv, bb + 1, b2, lowbit);
                }
                assert(r1 != r && r2 != r);
            } else {
                assert(r1 < r2 < r);
            }
        }
    }
}

/// After the last record is placed, the runs tile the output and the output
/// is sorted on six more bits.
#[verifier::rlimit(100)]
proof fn lemma_pass_post(
    sv: Seq<(usize, u32)>,
    out: Seq<(usize, u32)>,
    idv: Seq<usize>,
    lowbit: u32,
)
    requires
        pass_bit(lowbit),
        distinct_firsts(sv),
        sorted_lex(sv, lowbit),
        out.len() == sv.len(),
        idv.len() == 64,
        forall|b2: int|
            0 <= b2 < 64 ==> #[trigger] idv[b2] == below(sv, b2, lowbit) + cnt_pfx(
                sv,
                sv.len() as int,
                b2,
                lowbit,
            ),
        runs_filled(sv, out, idv, sv.len() as int, lowbit),
        runs_sorted(sv, out, idv, lowbit),
    ensures
        forall|q: int| 0 <= q < out.len() ==> sv.contains(#[trigger] out[q]),
        distinct_firsts(out),
        sorted_lex(out, ((lowbit + 6) as u32)),
{
    let n = sv.len() as int;
    lemma_below_total(sv, lowbit);
    assert forall|b2: int| 0 <= b2 < 64 implies #[trigger] idv[b2] == below(sv, b2 + 1, lowbit)
        && idv[b2] <= n by {
        assert(below(sv, b2 + 1, lowbit) == below(sv, b2, lowbit) + cnt_pfx(sv, n, b2, lowbit));
        lemma_below_mono(sv, b2 + 1, 64, lowbit);
    }
    assert forall|q: int| 0 <= q < out.len() implies sv.contains(#[trigger] out[q]) by {
        lemma_cover(sv, q, 0, lowbit);
        let b2 = choose|b2: int| #[trigger] run_holds(sv, q, b2, lowbit);
        assert(q < idv[b2]);
        assert(run_elem(sv, out, n, b2, q, lowbit));
        let p = choose|p: int| #[trigger] elem_at(sv, out, n, b2, q, p, lowbit);
        assert(sv[p] == out[q]);
    }
    assert forall|r1: int, r2: int|
        #![trigger out[r1], out[r2]]
        0 <= r1 < out.len() && 0 <= r2 < out.len() && r1 != r2 implies out[r1].0 != out[r2].0 by {
        lemma_cover(sv, r1, 0, lowbit);
        lemma_cover(sv, r2, 0, lowbit);
        let b1 = choose|b2: int| #[trigger] run_holds(sv, r1, b2, lowbit);
        let b2 = choose|b2: int| #[trigger] run_holds(sv, r2, b2, lowbit);
        assert(r1 < idv[b1] && r2 < idv[b2]);
        assert(run_elem(sv, out, n, b1, r1, lowbit));
        assert(run_elem(sv, out, n, b2, r2, lowbit));
        let p1 = choose|p: int| #[trigger] elem_at(sv, out, n, b1, r1, p, lowbit);
        let p2 = choose|p: int| #[trigger] elem_at(sv, out, n, b2, r2, p, lowbit);
        if b1 == b2 {
            if r1 < r2 {
                assert(run_pair_ord(sv, out, b1, r1, r2, lowbit));
            } else {
                assert(run_pair_ord(sv, out, b1, r2, r1, lowbit));
            }
        } else {
            assert(p1 != p2);
        }
    }
    assert forall|r1: int, r2: int|
        #![trigger out[r1], out[r2]]
        0 <= r1 < r2 < out.len() implies lex_le(out[r1], out[r2], ((lowbit + 6) as u32)) by {
        lemma_cover(sv, r1, 0, lowbit);
        lemma_cover(sv, r2, 0, lowbit);
        let b1 = choose|b2: int| #[trigger] run_holds(sv, r1, b2, lowbit);
        let b2 = choose|b2: int| #[trigger] run_holds(sv, r2, b2, lowbit);
        assert(r1 < idv[b1] && r2 < idv[b2]);
        assert(run_elem(sv, out, n, b1, r1, lowbit));
        assert(run_elem(sv, out, n, b2, r2, lowbit));
        let p1 = choose|p: int| #[trigger] elem_at(sv, out, n, b1, r1, p, lowbit);
        let p2 = choose|p: int| #[trigger] elem_at(sv, out, n, b2, r2, p, lowbit);
        if b1 == b2 {
            assert(run_pair_ord(sv, out, b1, r1, r2, lowbit));
            lemma_same_bucket(out[r1].1, out[r2].1, lowbit, (lowbit + 6) as u32);
        } else if b1 < b2 {
            lemma_bucket_dominates(out[r1].1, out[r2].1, lowbit, (lowbit + 6) as u32);
        } else {
            // runs are laid out in digit order, so this cannot happen
            lemma_below_mono(sv, b2 + 1, b1, lowbit);
            assert(false);
        }
    }
}

/// One stable counting-sort pass over the 6-bit digit at `lowbit`: a
/// histogram, a prefix sum for the run starts, then a scatter in input
/// order.
fn counting_pass(src: &Vec<(usize, u32)>, lowbit: u32) -> (out: Vec<(usize, u32)>)
    requires
        pass_bit(lowbit),
        distinct_firsts(src@),
        sorted_lex(src@, lowbit),
    ensures
        out@.len() == src@.len(),
        forall|q: int| 0 <= q < out@.len() ==> src@.contains(#[trigger] out@[q]),
        distinct_firsts(out@),
        sorted_lex(out@, ((lowbit + 6) as u32)),
{
    let n = src.len();
    let ghost sv = src@;
    proof {
        lemma_below_total(sv, lowbit);
    }
    // histogram of the 6-bit digit
    let mut cnt: Vec<usize> = vec![0; 64];
    let mut i: usize = 0;
    while i < n
        invariant
            pass_bit(lowbit),
            i <= n,
            n == sv.len(),
            sv == src@,
            cnt@.len() == 64,
            forall|b: int| 0 <= b < 64 ==> #[trigger] cnt@[b] == cnt_pfx(sv, i as int, b, lowbit),
        decreases n - i,
    {
        let c = src[i].1;
        let bb = ((c >> lowbit) & 63) as usize;
        proof {
            assert((c >> lowbit) & 63 < 64) by (bit_vector);
            lemma_cnt_pfx_bounds(sv, i as int, bb as int, lowbit);
        }
        cnt[bb] = cnt[bb] + 1;
        i += 1;
    }
    // start of each digit's run
    let mut off: Vec<usize> = vec![0; 64];
    let mut b: usize = 1;
    while b < 64
        invariant
            pass_bit(lowbit),
            1 <= b <= 64,
            n == sv.len(),
            sv == src@,
            cnt@.len() == 64,
            off@.len() == 64,
            below(sv, 64, lowbit) == n,
            forall|b2: int|
                0 <= b2 < 64 ==> #[trigger] cnt@[b2] == cnt_pfx(sv, n as int, b2, lowbit),
            forall|b2: int| 0 <= b2 < b ==> #[trigger] off@[b2] == below(sv, b2, lowbit),
        decreases 64 - b,
    {
        proof {
            lemma_below_mono(sv, b as int, 64, lowbit);
            lemma_cnt_pfx_bounds(sv, n as int, b as int - 1, lowbit);
            lemma_below_mono(sv, 0, b as int - 1, lowbit);
        }
        let v = off[b - 1] + cnt[b - 1];
        off[b] = v;
        b += 1;
    }
    // scatter, keeping each digit's run in input order
    let mut idx: Vec<usize> = off;
    let mut out: Vec<(usize, u32)> = vec![(0usize, 0u32); n];
    let mut i: usize = 0;
    proof {
        assert forall|b2: int| 0 <= b2 < 64 implies #[trigger] idx@[b2] == below(sv, b2, lowbit)
            + cnt_pfx(sv, 0, b2, lowbit) by {}
    }
    while i < n
        invariant
            pass_bit(lowbit),
            i <= n,
            n == sv.len(),
            sv == src@,
            distinct_firsts(sv),
            sorted_lex(sv, lowbit),
            idx@.len() == 64,
            out@.len() == n,
            below(sv, 64, lowbit) == n,
            forall|b2: int|
                0 <= b2 < 64 ==> #[trigger] idx@[b2] == below(sv, b2, lowbit) + cnt_pfx(
                    sv,
                    i as int,
                    b2,
                    lowbit,
                ),
            runs_filled(sv, out@, idx@, i as int, lowbit),
            runs_sorted(sv, out@, idx@, lowbit),
        decreases n - i,
    {
        let e = src[i];
        let c = e.1;
        let bb = ((c >> lowbit) & 63) as usize;
        proof {
            assert((c >> lowbit) & 63 < 64) by (bit_vector);
            lemma_cnt_pfx_bounds(sv, i as int, bb as int, lowbit);
            lemma_cnt_pfx_mono(sv, i as int + 1, n as int, bb as int, lowbit);
            lemma_below_mono(sv, bb as int + 1, 64, lowbit);
            assert(below(sv, bb as int + 1, lowbit) == below(sv, bb as int, lowbit) + cnt_pfx(
                sv,
                n as int,
                bb as int,
                lowbit,
            ));
            lemma_below_mono(sv, 0, bb as int, lowbit);
        }
        proof {
            assert(cnt_pfx(sv, i as int + 1, bb as int, lowbit) == cnt_pfx(
                sv,
                i as int,
                bb as int,
                lowbit,
            ) + 1);
        }
        let ghost o1 = out@;
        let ghost id1 = idx@;
        let r = idx[bb];
        out[r] = e;
        idx[bb] = r + 1;
        proof {
            assert(out@ == o1.update(r as int, sv[i as int]));
            assert(idx@ == id1.update(bb as int, (r + 1) as usize));
            lemma_scatter_step(sv, o1, id1, i as int, bb as int, r as int, lowbit);
        }
        i += 1;
    }
    proof {
        lemma_pass_post(sv, out@, idx@, lowbit);
    }
    out
}

/// Record `e` carries the key of the slot it originally occupied.
spec fn pair_ok(codes: Seq<u32>, e: (usize, u32)) -> bool {
    e.0 < codes.len() && e.1 == codes[e.0 as int]
}

spec fn pairs_ok(codes: Seq<u32>, s: Seq<(usize, u32)>) -> bool {
    forall|q: int| 0 <= q < s.len() ==> pair_ok(codes, #[trigger] s[q])
}

/// A pass hands back the same records, so what each one carries is kept.
proof fn lemma_pairs_ok_step(codes: Seq<u32>, a: Seq<(usize, u32)>, b: Seq<(usize, u32)>)
    requires
        pairs_ok(codes, a),
        forall|q: int| 0 <= q < b.len() ==> a.contains(#[trigger] b[q]),
    ensures
        pairs_ok(codes, b),
{
    assert forall|q: int| 0 <= q < b.len() implies pair_ok(codes, #[trigger] b[q]) by {
        assert(a.contains(b[q]));
        let p = choose|p: int| 0 <= p < a.len() && a[p] == b[q];
    }
}

/// `b` is `a` reordered by the index map `m`, ascending by key, records with
/// equal keys keeping their original order.
pub open spec fn sorts_into<T: MortonCode>(a: Seq<T>, b: Seq<T>, m: Seq<int>) -> bool {
    &&& m.len() == a.len() && b.len() == a.len()
    &&& forall|p: int| 0 <= p < m.len() ==> 0 <= #[trigger] m[p] < a.len()
    &&& forall|p: int, q: int|
        #![trigger m[p], m[q]]
        0 <= p < m.len() && 0 <= q < m.len() && p != q ==> m[p] != m[q]
    &&& forall|p: int| 0 <= p < b.len() ==> b[p] == a[#[trigger] m[p]]
    &&& forall|p: int, q: int|
        #![trigger m[p], m[q]]
        0 <= p < q < b.len() ==> a[m[p]].code_spec() < a[m[q]].code_spec() || (a[m[p]].code_spec()
            == a[m[q]].code_spec() && m[p] < m[q])
}

/// Stable least-significant-bit radix sort of 30-bit Morton keys: five
/// six-bit counting passes over proxy records, then one in-place
/// permutation of the payload.
pub fn radix_sort<T: MortonCode + Copy>(v: &mut Vec<T>)
    requires
        forall|p: int|
            0 <= p < old(v)@.len() ==> (#[trigger] old(v)@[p].code_spec()) < 0x40000000,
    ensures
        final(v)@.len() == old(v)@.len(),
        exists|m: Seq<int>| #[trigger] sorts_into(old(v)@, final(v)@, m),
{
    let ghost v0 = old(v)@;
    let ghost codes = Seq::<u32>::new(v0.len(), |p: int| v0[p].code_spec());
    let n = v.len();
    let mut pairs: Vec<(usize, u32)> = Vec::new();
    let mut i: usize = 0;
    while i < n
        invariant
            i <= n,
            v@ == v0,
            n == v0.len(),
            codes == Seq::<u32>::new(v0.len(), |p: int| v0[p].code_spec()),
            pairs@.len() == i,
            forall|p: int|
                0 <= p < i ==> (#[trigger] pairs@[p]).0 == p && pairs@[p].1 == codes[p],
        decreases n - i,
    {
        let c = v[i].morton_code();
        pairs.push((i, c));
        i += 1;
    }
    proof {
        assert forall|p: int, q: int|
            #![trigger pairs@[p], pairs@[q]]
            0 <= p < q < pairs@.len() implies lex_le(pairs@[p], pairs@[q], 0) by {
            assert(pairs@[p].1 % (1u32 << 0u32) == 0) by (bit_vector);
            assert(pairs@[q].1 % (1u32 << 0u32) == 0) by (bit_vector);
        }
        assert(pairs_ok(codes, pairs@));
    }
    let ghost p0 = pairs@;
    pairs = counting_pass(&pairs, 0);
    proof {
        lemma_pairs_ok_step(codes, p0, pairs@);
    }
    let ghost p1 = pairs@;
    pairs = counting_pass(&pairs, 6);
    proof {
        lemma_pairs_ok_step(codes, p1, pairs@);
    }
    let ghost p2 = pairs@;
    pairs = counting_pass(&pairs, 12);
    proof {
        lemma_pairs_ok_step(codes, p2, pairs@);
    }
    let ghost p3 = pairs@;
    pairs = counting_pass(&pairs, 18);
    proof {
        lemma_pairs_ok_step(codes, p3, pairs@);
    }
    let ghost p4 = pairs@;
    pairs = counting_pass(&pairs, 24);
    proof {
        lemma_pairs_ok_step(codes, p4, pairs@);
    }
    // extract the rank-to-origin map
    let mut map: Vec<usize> = Vec::new();
    let mut i: usize = 0;
    while i < n
        invariant
            i <= n,
            v@ == v0,
            n == v0.len(),
            codes == Seq::<u32>::new(v0.len(), |p: int| v0[p].code_spec()),
            pairs@.len() == n,
            pairs_ok(codes, pairs@),
            map@.len() == i,
            forall|p: int| 0 <= p < i ==> #[trigger] map@[p] == pairs@[p].0,
        decreases n - i,
    {
        let e = pairs[i];
        map.push(e.0);
        i += 1;
    }
    proof {
        assert forall|p: int, q: int|
            #![trigger map@[p], map@[q]]
            0 <= p < map@.len() && 0 <= q < map@.len() && p != q implies map@[p] != map@[q] by {
            assert(pairs@[p].0 != pairs@[q].0);
        }
        assert forall|p: int| 0 <= p < map@.len() implies (#[trigger] map@[p]) < map@.len() by {
            assert(pair_ok(codes, pairs@[p]));
        }
        assert(is_perm(map@));
    }
    let ghost msnap = map@;
    inplace_map(&mut map, v);
    proof {
        let m = Seq::<int>::new(v0.len(), |p: int| msnap[p] as int);
        assert forall|p: int, q: int|
            #![trigger m[p], m[q]]
            0 <= p < q < v@.len() implies v0[m[p]].code_spec() < v0[m[q]].code_spec() || (
        v0[m[p]].code_spec() == v0[m[q]].code_spec() && m[p] < m[q]) by {
            assert(pair_ok(codes, pairs@[p]));
            assert(pair_ok(codes, pairs@[q]));
            assert(lex_le(pairs@[p], pairs@[q], 30));
            let cp = pairs@[p].1;
            let cq = pairs@[q].1;
            assert(cp < 0x40000000 ==> cp % (1u32 << 30u32) == cp) by (bit_vector);
            assert(cq < 0x40000000 ==> cq % (1u32 << 30u32) == cq) by (bit_vector);
        }
        assert(sorts_into(v0, v@, m));
    }
}

/// Some slot of `m` names `q`.
pub open spec fn hits(m: Seq<usize>, q: int) -> bool {
    exists|p: int| 0 <= p < m.len() && #[trigger] m[p] == q
}

/// A map that is into and free of repeats on `[0, n)` hits every slot.
pub proof fn lemma_perm_surjective(m: Seq<usize>)
    requires
        is_perm(m),
    ensures
        forall|q: int| 0 <= q < m.len() ==> #[trigger] hits(m, q),
{
    let n = m.len() as int;
    let dom = set_int_range(0, n);
    let f = |p: int| m[p] as int;
    let img = dom.map(f);
    lemma_int_range(0, n);
    assert(vstd::relations::injective_on(f, dom));
    vstd::set_lib::lemma_map_size(dom, img, f);
    assert forall|q: int| 0 <= q < m.len() implies #[trigger] hits(m, q) by {
        if !img.contains(q) {
            assert(img.subset_of(dom.remove(q)));
            lemma_len_subset(img, dom.remove(q));
            assert(false);
        }
        let p = choose|p: int| dom.contains(p) && f(p) == q;
        assert(0 <= p < m.len() && m[p] == q);
    }
}

/// Round trip, inverse first: sending slot `p` to slot `m[p]` and then
/// taking slot `p` from slot `m[p]` leaves every element where it began.
pub proof fn lemma_perm_round_trip_rev_fwd<T>(m: Seq<usize>, a: Seq<T>, b: Seq<T>, c: Seq<T>)
    requires
        is_perm(m),
        a.len() == m.len(),
        b.len() == m.len(),
        c.len() == m.len(),
        forall|p: int| 0 <= p < m.len() ==> b[#[trigger] m[p] as int] == a[p],
        forall|p: int| 0 <= p < m.len() ==> #[trigger] c[p] == b[m[p] as int],
    ensures
        c == a,
{
    assert(c =~= a);
}

/// Round trip, forward first: taking slot `p` from slot `m[p]` and then
/// sending slot `p` back to slot `m[p]` leaves every element where it
/// began.
pub proof fn lemma_perm_round_trip_fwd_rev<T>(m: Seq<usize>, a: Seq<T>, b: Seq<T>, c: Seq<T>)
    requires
        is_perm(m),
        a.len() == m.len(),
        b.len() == m.len(),
        c.len() == m.len(),
        forall|p: int| 0 <= p < m.len() ==> #[trigger] b[p] == a[m[p] as int],
        forall|p: int| 0 <= p < m.len() ==> c[#[trigger] m[p] as int] == b[p],
    ensures
        c == a,
{
    lemma_perm_surjective(m);
    assert forall|q: int| 0 <= q < m.len() implies c[q] == a[q] by {
        assert(hits(m, q));
        let p = choose|p: int| 0 <= p < m.len() && #[trigger] m[p] == q;
        assert(c[m[p] as int] == b[p]);
    }
    assert(c =~= a);
}

/// With pairwise distinct keys, a sorted reordering is strictly ascending
/// by key.
pub proof fn lemma_sort_distinct_strict<T: MortonCode>(a: Seq<T>, b: Seq<T>, m: Seq<int>)
    requires
        sorts_into(a, b, m),
        forall|p: int, q: int|
            #![trigger a[p], a[q]]
            0 <= p < a.len() && 0 <= q < a.len() && p != q ==> a[p].code_spec() != a[q].code_spec(),
    ensures
        forall|p: int, q: int|
            #![trigger b[p], b[q]]
            0 <= p < q < b.len() ==> b[p].code_spec() < b[q].code_spec(),
{
    assert forall|p: int, q: int|
        #![trigger b[p], b[q]]
        0 <= p < q < b.len() implies b[p].code_spec() < b[q].code_spec() by {
        assert(b[p] == a[m[p]] && b[q] == a[m[q]]);
        assert(a[m[p]].code_spec() != a[m[q]].code_spec());
    }
}

} // verus!

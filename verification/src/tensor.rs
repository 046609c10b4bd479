//! Small stack-allocated tensors: a packed shape word and an element
//! array, generic over the scalar.

use vstd::prelude::*;

verus! {

/// At most four dimensions, one byte of the shape word each.
pub const MAX_DIM: usize = 4;

/// A scalar a tensor can hold: elementwise arithmetic with explicit
/// domains, so tensor operations are exactly specified and free of
/// overflow.
pub trait TensorNum: Sized + Copy {
    spec fn add_ok(self, o: Self) -> bool;

    spec fn sub_ok(self, o: Self) -> bool;

    spec fn mul_ok(self, o: Self) -> bool;

    spec fn div_ok(self, o: Self) -> bool;

    spec fn add_spec(self, o: Self) -> Self;

    spec fn sub_spec(self, o: Self) -> Self;

    spec fn mul_spec(self, o: Self) -> Self;

    spec fn div_spec(self, o: Self) -> Self;

    spec fn zero_spec() -> Self;

    fn zero_val() -> (r: Self)
        ensures
            r == Self::zero_spec(),
    ;

    fn add_v(self, o: Self) -> (r: Self)
        requires
            self.add_ok(o),
        ensures
            r == self.add_spec(o),
    ;

    fn sub_v(self, o: Self) -> (r: Self)
        requires
            self.sub_ok(o),
        ensures
            r == self.sub_spec(o),
    ;

    fn mul_v(self, o: Self) -> (r: Self)
        requires
            self.mul_ok(o),
        ensures
            r == self.mul_spec(o),
    ;

    fn div_v(self, o: Self) -> (r: Self)
        requires
            self.div_ok(o),
        ensures
            r == self.div_spec(o),
    ;
}

impl TensorNum for i32 {
    open spec fn add_ok(self, o: i32) -> bool {
        i32::MIN <= self + o <= i32::MAX
    }

    open spec fn sub_ok(self, o: i32) -> bool {
        i32::MIN <= self - o <= i32::MAX
    }

    open spec fn mul_ok(self, o: i32) -> bool {
        i32::MIN <= self * o <= i32::MAX
    }

    open spec fn div_ok(self, o: i32) -> bool {
        self >= 0 && o > 0
    }

    open spec fn add_spec(self, o: i32) -> i32 {
        (self + o) as i32
    }

    open spec fn sub_spec(self, o: i32) -> i32 {
        (self - o) as i32
    }

    open spec fn mul_spec(self, o: i32) -> i32 {
        (self * o) as i32
    }

    open spec fn div_spec(self, o: i32) -> i32 {
        (self / o) as i32
    }

    open spec fn zero_spec() -> i32 {
        0
    }

    fn zero_val() -> (r: i32) {
        0
    }

    fn add_v(self, o: i32) -> (r: i32) {
        self + o
    }

    fn sub_v(self, o: i32) -> (r: i32) {
        self - o
    }

    fn mul_v(self, o: i32) -> (r: i32) {
        proof {
            assert(i32::MIN <= self * o <= i32::MAX);
        }
        self * o
    }

    fn div_v(self, o: i32) -> (r: i32) {
        self / o
    }
}

impl TensorNum for usize {
    open spec fn add_ok(self, o: usize) -> bool {
        self + o <= usize::MAX
    }

    open spec fn sub_ok(self, o: usize) -> bool {
        o <= self
    }

    open spec fn mul_ok(self, o: usize) -> bool {
        self * o <= usize::MAX
    }

    open spec fn div_ok(self, o: usize) -> bool {
        o != 0
    }

    open spec fn add_spec(self, o: usize) -> usize {
        (self + o) as usize
    }

    open spec fn sub_spec(self, o: usize) -> usize {
        (self - o) as usize
    }

    open spec fn mul_spec(self, o: usize) -> usize {
        (self * o) as usize
    }

    open spec fn div_spec(self, o: usize) -> usize {
        (self / o) as usize
    }

    open spec fn zero_spec() -> usize {
        0
    }

    fn zero_val() -> (r: usize) {
        0
    }

    fn add_v(self, o: usize) -> (r: usize) {
        self + o
    }

    fn sub_v(self, o: usize) -> (r: usize) {
        self - o
    }

    fn mul_v(self, o: usize) -> (r: usize) {
        self * o
    }

    fn div_v(self, o: usize) -> (r: usize) {
        self / o
    }
}

/// One byte per dimension, highest dimension in the highest of the four
/// used bytes; a zero byte ends the list.
#[derive(Clone, Copy, Debug, PartialEq, Eq, Structural)]
pub struct TensorShape {
    pub raw_shape: usize,
}

/// The size byte of dimension `dim` of the packed word.
pub open spec fn dim_of(raw: usize, dim: int) -> usize {
    (raw >> (((3 - dim) * 8) as usize)) & 0xff
}

/// How many leading nonzero dimension bytes the word has.
pub open spec fn size_of_shape(raw: usize) -> int {
    if dim_of(raw, 0) == 0 {
        0
    } else if dim_of(raw, 1) == 0 {
        1
    } else if dim_of(raw, 2) == 0 {
        2
    } else if dim_of(raw, 3) == 0 {
        3
    } else {
        4
    }
}

/// The first `k` dimension bytes of `dims`, packed into one word.
pub open spec fn pack_dims(dims: Seq<usize>, k: int) -> usize
    decreases k,
{
    if k <= 0 {
        0
    } else {
        pack_dims(dims, k - 1) | (((dims[k - 1] & 0xff) << (((4 - k) * 8) as usize)) as usize)
    }
}

/// Where packing stops: the first zero entry, or the end of the list.
pub open spec fn stop_at(dims: Seq<usize>, k: int) -> int
    decreases dims.len() - k,
{
    if k >= dims.len() || k < 0 {
        k
    } else if dims[k] == 0 {
        k
    } else {
        stop_at(dims, k + 1)
    }
}

impl TensorShape {
    /// The size of dimension `dim`.
    pub fn get(&self, dim: usize) -> (r: usize)
        requires
            dim < 4,
        ensures
            r == dim_of(self.raw_shape, dim as int),
            r <= 0xff,
    {
        let raw = self.raw_shape;
        let shift = (4 - 1 - dim) * 8;
        let r = (raw >> shift) & 0xff;
        proof {
            assert((raw >> shift) & 0xff <= 0xff) by (bit_vector);
        }
        r
    }

    /// How many dimensions the shape has: the packed bytes before the
    /// first zero byte.
    pub fn size(&self) -> (r: usize)
        ensures
            r == size_of_shape(self.raw_shape),
            r <= 4,
    {
        let mut i: usize = 0;
        while i < 4
            invariant
                i <= 4,
                forall|d: int| 0 <= d < i ==> dim_of(self.raw_shape, d) != 0,
            decreases 4 - i,
        {
            if self.get(i) == 0 {
                return i;
            }
            i = i + 1;
        }
        4
    }

    /// The distance between neighbours along `dim` in the flat array: the
    /// product of the sizes of all later dimensions.
    pub fn stride(&self, dim: usize) -> (r: usize)
        requires
            dim < 4,
        ensures
            r == stride_of(self.raw_shape, dim as int),
    {
        let sz = self.size();
        let mut acc: usize = 1;
        let mut i = dim + 1;
        if i > sz {
            proof {
                assert(stride_of(self.raw_shape, dim as int) == prod_dims(
                    self.raw_shape,
                    dim + 1,
                    dim + 1,
                ));
            }
            return 1;
        }
        while i < sz
            invariant
                dim + 1 <= i <= sz,
                sz == size_of_shape(self.raw_shape),
                sz <= 4,
                acc == prod_dims(self.raw_shape, dim + 1, i as int),
                acc <= 0xffffffff,
            decreases sz - i,
        {
            let g = self.get(i);
            proof {
                lemma_prod_dims_bound(self.raw_shape, dim as int + 1, i as int);
                assert(pow255(0) == 1);
                assert(pow255(1) == 255);
                assert(pow255(2) == 65025);
                assert(i - dim - 1 <= 2);
                assert(acc <= 65025);
                assert(acc * g <= 16581375) by (nonlinear_arith)
                    requires
                        0 <= acc <= 65025,
                        0 <= g <= 255,
                ;
            }
            acc = acc * g;
            i = i + 1;
        }
        acc
    }

    /// The flat slot of a multi-dimensional index: the sum of each index
    /// entry times its dimension's stride.
    pub fn to_index(&self, index: &[usize]) -> (r: usize)
        requires
            index@.len() <= 4,
            idx_spec(self.raw_shape, index@, index@.len() as int) <= usize::MAX,
        ensures
            r == idx_spec(self.raw_shape, index@, index@.len() as int),
    {
        let n = index.len();
        let mut acc: usize = 0;
        let mut i: usize = 0;
        while i < n
            invariant
                i <= n,
                n == index@.len(),
                n <= 4,
                idx_spec(self.raw_shape, index@, n as int) <= usize::MAX,
                acc == idx_spec(self.raw_shape, index@, i as int),
            decreases n - i,
        {
            let s = self.stride(i);
            let v = index[i];
            proof {
                lemma_idx_partial_bound(self.raw_shape, index@, i as int, n as int);
            }
            acc = acc + v * s;
            i = i + 1;
        }
        acc
    }

    /// Packs a dimension list, one byte each, stopping at a zero entry.
    pub fn from_dims(value: &[usize]) -> (r: TensorShape)
        requires
            value@.len() <= 4,
        ensures
            r.raw_shape == pack_dims(value@, stop_at(value@, 0)),
    {
        let n = value.len();
        let mut raw: usize = 0;
        let mut i: usize = 0;
        while i < n
            invariant
                i <= n,
                n == value@.len(),
                n <= 4,
                forall|k: int| 0 <= k < i ==> value@[k] != 0,
                raw == pack_dims(value@, i as int),
            decreases n - i,
        {
            let s = value[i];
            if s == 0 {
                proof {
                    lemma_stop_from(value@, 0, i as int);
                }
                return TensorShape { raw_shape: raw };
            }
            raw = raw | ((s & 0xff) << ((4 - 1 - i) * 8));
            proof {
                assert((((4 - (i + 1)) * 8) as usize) == (4 - 1 - i) * 8);
            }
            i = i + 1;
        }
        proof {
            lemma_stop_from(value@, 0, n as int);
        }
        TensorShape { raw_shape: raw }
    }
}

/// With the entries before `i` nonzero and `i` at a zero entry or the
/// end, packing stops exactly at `i`.
proof fn lemma_stop_from(dims: Seq<usize>, k: int, i: int)
    requires
        0 <= k <= i <= dims.len(),
        forall|j: int| 0 <= j < i ==> dims[j] != 0,
        i < dims.len() ==> dims[i] == 0,
    ensures
        stop_at(dims, k) == i,
    decreases i - k,
{
    if k < i {
        lemma_stop_from(dims, k + 1, i);
    }
}

/// Product of the dimension sizes strictly between `from` and `to`.
pub open spec fn prod_dims(raw: usize, from: int, to: int) -> int
    decreases to - from,
{
    if to <= from {
        1
    } else {
        prod_dims(raw, from, to - 1) * dim_of(raw, to - 1)
    }
}

/// The stride of `dim`: the product of all later dimension sizes.
pub open spec fn stride_of(raw: usize, dim: int) -> int {
    if dim + 1 >= size_of_shape(raw) {
        1
    } else {
        prod_dims(raw, dim + 1, size_of_shape(raw))
    }
}

/// The flat slot of the first `k` index entries.
pub open spec fn idx_spec(raw: usize, index: Seq<usize>, k: int) -> int
    decreases k,
{
    if k <= 0 {
        0
    } else {
        idx_spec(raw, index, k - 1) + index[k - 1] * stride_of(raw, k - 1)
    }
}

/// 255 to the `k`.
pub open spec fn pow255(k: int) -> int
    decreases k,
{
    if k <= 0 {
        1
    } else {
        255 * pow255(k - 1)
    }
}

proof fn lemma_prod_dims_bound(raw: usize, from: int, to: int)
    ensures
        0 <= prod_dims(raw, from, to) <= pow255(to - from),
    decreases to - from,
{
    if to > from {
        lemma_prod_dims_bound(raw, from, to - 1);
        let d = dim_of(raw, to - 1);
        assert(d <= 0xff) by {
            let sh = (((3 - (to - 1)) * 8) as usize);
            assert((raw >> sh) & 0xff <= 0xff) by (bit_vector);
        }
        assert(0 <= prod_dims(raw, from, to - 1) * d <= pow255(to - 1 - from) * 255)
            by (nonlinear_arith)
            requires
                0 <= prod_dims(raw, from, to - 1) <= pow255(to - 1 - from),
                0 <= d <= 255,
                pow255(to - 1 - from) >= 0,
        {
            lemma_pow255_nonneg(to - 1 - from);
        }
    }
}

proof fn lemma_pow255_nonneg(k: int)
    ensures
        pow255(k) >= 1,
    decreases k,
{
    if k > 0 {
        lemma_pow255_nonneg(k - 1);
    }
}

/// Every partial flat index is at most the full one: the terms are never
/// negative.
proof fn lemma_idx_partial_bound(raw: usize, index: Seq<usize>, i: int, n: int)
    requires
        0 <= i < n <= index.len(),
    ensures
        idx_spec(raw, index, i) + index[i] * stride_of(raw, i) <= idx_spec(raw, index, n),
        idx_spec(raw, index, i) >= 0,
        index[i] * stride_of(raw, i) >= 0,
    decreases n - i,
{
    lemma_idx_nonneg(raw, index, i);
    lemma_stride_nonneg(raw, i);
    assert(index[i] * stride_of(raw, i) >= 0) by (nonlinear_arith)
        requires
            index[i] >= 0,
            stride_of(raw, i) >= 0,
    ;
    if i + 1 == n {
    } else {
        lemma_idx_partial_bound(raw, index, i + 1, n);
        lemma_idx_nonneg(raw, index, i + 1);
        lemma_stride_nonneg(raw, i + 1);
    }
}

proof fn lemma_idx_nonneg(raw: usize, index: Seq<usize>, k: int)
    requires
        k <= index.len(),
    ensures
        idx_spec(raw, index, k) >= 0,
    decreases k,
{
    if k > 0 {
        lemma_idx_nonneg(raw, index, k - 1);
        lemma_stride_nonneg(raw, k - 1);
        assert(index[k - 1] * stride_of(raw, k - 1) >= 0) by (nonlinear_arith)
            requires
                index[k - 1] >= 0,
                stride_of(raw, k - 1) >= 0,
        ;
    }
}

proof fn lemma_stride_nonneg(raw: usize, dim: int)
    ensures
        stride_of(raw, dim) >= 0,
{
    if dim + 1 < size_of_shape(raw) {
        lemma_prod_nonneg(raw, dim + 1, size_of_shape(raw));
    }
}

proof fn lemma_prod_nonneg(raw: usize, from: int, to: int)
    ensures
        prod_dims(raw, from, to) >= 0,
    decreases to - from,
{
    if to > from {
        lemma_prod_nonneg(raw, from, to - 1);
        assert(prod_dims(raw, from, to - 1) * dim_of(raw, to - 1) >= 0) by (nonlinear_arith)
            requires
                prod_dims(raw, from, to - 1) >= 0,
                dim_of(raw, to - 1) >= 0,
        ;
    }
}


broadcast use vstd::array::group_array_axioms;

/// A small stack-allocated tensor: `N` elements and a packed shape.
#[derive(Clone, Copy, Debug)]
pub struct Tensor<T: TensorNum, const N: usize> {
    pub raw: [T; N],
    pub shape: TensorShape,
}

impl<T: TensorNum, const N: usize> Tensor<T, N> {
    /// A tensor of the given shape over the given elements.
    pub fn new(shape: &[usize], arr: [T; N]) -> (r: Tensor<T, N>)
        requires
            shape@.len() <= 4,
        ensures
            r.raw == arr,
            r.shape.raw_shape == pack_dims(shape@, stop_at(shape@, 0)),
    {
        let sh = TensorShape::from_dims(shape);
        Tensor { raw: arr, shape: sh }
    }

    /// A one-dimensional tensor.
    pub fn vec(arr: [T; N]) -> (r: Tensor<T, N>)
        ensures
            r.raw == arr,
    {
        let shape: [usize; 1] = [N];
        Tensor::new(shape.as_slice(), arr)
    }

    /// A row-major matrix.
    pub fn mat(shape: [usize; 2], arr: [T; N]) -> (r: Tensor<T, N>)
        ensures
            r.raw == arr,
            r.shape.raw_shape == pack_dims(shape@, stop_at(shape@, 0)),
    {
        Tensor::new(shape.as_slice(), arr)
    }

    /// Gives the tensor a new shape over the same elements.
    pub fn reshape(&mut self, shape: &[usize])
        requires
            shape@.len() <= 4,
        ensures
            final(self).raw == old(self).raw,
            final(self).shape.raw_shape == pack_dims(shape@, stop_at(shape@, 0)),
    {
        self.shape = TensorShape::from_dims(shape);
    }

    /// The same elements under a new shape.
    pub fn reshaped(&self, shape: &[usize]) -> (r: Tensor<T, N>)
        requires
            shape@.len() <= 4,
        ensures
            r.raw == self.raw,
            r.shape.raw_shape == pack_dims(shape@, stop_at(shape@, 0)),
    {
        Tensor { raw: self.raw, shape: TensorShape::from_dims(shape) }
    }

    /// The element a multi-dimensional index names.
    pub fn at(&self, index: &[usize]) -> (r: T)
        requires
            index@.len() <= 4,
            idx_spec(self.shape.raw_shape, index@, index@.len() as int) < N,
        ensures
            r == self.raw@[idx_spec(self.shape.raw_shape, index@, index@.len() as int)],
    {
        let i = self.shape.to_index(index);
        self.raw[i]
    }

    /// Elementwise sum; the left operand's shape is kept.
    pub fn add(&self, rhs: Tensor<T, N>) -> (r: Tensor<T, N>)
        requires
            forall|i: int| 0 <= i < N ==> (#[trigger] self.raw@[i]).add_ok(rhs.raw@[i]),
        ensures
            r.shape == self.shape,
            forall|i: int| 0 <= i < N ==> #[trigger] r.raw@[i] == self.raw@[i].add_spec(rhs.raw@[i]),
    {
        let mut out = self.raw;
        let mut i: usize = 0;
        while i < N
            invariant
                i <= N,
                forall|j: int| 0 <= j < N ==> (#[trigger] self.raw@[j]).add_ok(rhs.raw@[j]),
                forall|j: int| 0 <= j < i ==> #[trigger] out@[j] == self.raw@[j].add_spec(rhs.raw@[j]),
                forall|j: int| i <= j < N ==> #[trigger] out@[j] == self.raw@[j],
            decreases N - i,
        {
            out[i] = self.raw[i].add_v(rhs.raw[i]);
            i = i + 1;
        }
        Tensor { raw: out, shape: self.shape }
    }

    /// Elementwise difference.
    pub fn sub(&self, rhs: Tensor<T, N>) -> (r: Tensor<T, N>)
        requires
            forall|i: int| 0 <= i < N ==> (#[trigger] self.raw@[i]).sub_ok(rhs.raw@[i]),
        ensures
            r.shape == self.shape,
            forall|i: int| 0 <= i < N ==> #[trigger] r.raw@[i] == self.raw@[i].sub_spec(rhs.raw@[i]),
    {
        let mut out = self.raw;
        let mut i: usize = 0;
        while i < N
            invariant
                i <= N,
                forall|j: int| 0 <= j < N ==> (#[trigger] self.raw@[j]).sub_ok(rhs.raw@[j]),
                forall|j: int| 0 <= j < i ==> #[trigger] out@[j] == self.raw@[j].sub_spec(rhs.raw@[j]),
                forall|j: int| i <= j < N ==> #[trigger] out@[j] == self.raw@[j],
            decreases N - i,
        {
            out[i] = self.raw[i].sub_v(rhs.raw[i]);
            i = i + 1;
        }
        Tensor { raw: out, shape: self.shape }
    }

    /// Elementwise product.
    pub fn mul(&self, rhs: Tensor<T, N>) -> (r: Tensor<T, N>)
        requires
            forall|i: int| 0 <= i < N ==> (#[trigger] self.raw@[i]).mul_ok(rhs.raw@[i]),
        ensures
            r.shape == self.shape,
            forall|i: int| 0 <= i < N ==> #[trigger] r.raw@[i] == self.raw@[i].mul_spec(rhs.raw@[i]),
    {
        let mut out = self.raw;
        let mut i: usize = 0;
        while i < N
            invariant
                i <= N,
                forall|j: int| 0 <= j < N ==> (#[trigger] self.raw@[j]).mul_ok(rhs.raw@[j]),
                forall|j: int| 0 <= j < i ==> #[trigger] out@[j] == self.raw@[j].mul_spec(rhs.raw@[j]),
                forall|j: int| i <= j < N ==> #[trigger] out@[j] == self.raw@[j],
            decreases N - i,
        {
            out[i] = self.raw[i].mul_v(rhs.raw[i]);
            i = i + 1;
        }
        Tensor { raw: out, shape: self.shape }
    }

    /// Elementwise quotient.
    pub fn div(&self, rhs: Tensor<T, N>) -> (r: Tensor<T, N>)
        requires
            forall|i: int| 0 <= i < N ==> (#[trigger] self.raw@[i]).div_ok(rhs.raw@[i]),
        ensures
            r.shape == self.shape,
            forall|i: int| 0 <= i < N ==> #[trigger] r.raw@[i] == self.raw@[i].div_spec(rhs.raw@[i]),
    {
        let mut out = self.raw;
        let mut i: usize = 0;
        while i < N
            invariant
                i <= N,
                forall|j: int| 0 <= j < N ==> (#[trigger] self.raw@[j]).div_ok(rhs.raw@[j]),
                forall|j: int| 0 <= j < i ==> #[trigger] out@[j] == self.raw@[j].div_spec(rhs.raw@[j]),
                forall|j: int| i <= j < N ==> #[trigger] out@[j] == self.raw@[j],
            decreases N - i,
        {
            out[i] = self.raw[i].div_v(rhs.raw[i]);
            i = i + 1;
        }
        Tensor { raw: out, shape: self.shape }
    }

    /// Adds one scalar to every element.
    pub fn add_scalar(&self, rhs: T) -> (r: Tensor<T, N>)
        requires
            forall|i: int| 0 <= i < N ==> (#[trigger] self.raw@[i]).add_ok(rhs),
        ensures
            r.shape == self.shape,
            forall|i: int| 0 <= i < N ==> #[trigger] r.raw@[i] == self.raw@[i].add_spec(rhs),
    {
        let mut out = self.raw;
        let mut i: usize = 0;
        while i < N
            invariant
                i <= N,
                forall|j: int| 0 <= j < N ==> (#[trigger] self.raw@[j]).add_ok(rhs),
                forall|j: int| 0 <= j < i ==> #[trigger] out@[j] == self.raw@[j].add_spec(rhs),
                forall|j: int| i <= j < N ==> #[trigger] out@[j] == self.raw@[j],
            decreases N - i,
        {
            out[i] = self.raw[i].add_v(rhs);
            i = i + 1;
        }
        Tensor { raw: out, shape: self.shape }
    }

    /// Subtracts one scalar from every element.
    pub fn sub_scalar(&self, rhs: T) -> (r: Tensor<T, N>)
        requires
            forall|i: int| 0 <= i < N ==> (#[trigger] self.raw@[i]).sub_ok(rhs),
        ensures
            r.shape == self.shape,
            forall|i: int| 0 <= i < N ==> #[trigger] r.raw@[i] == self.raw@[i].sub_spec(rhs),
    {
        let mut out = self.raw;
        let mut i: usize = 0;
        while i < N
            invariant
                i <= N,
                forall|j: int| 0 <= j < N ==> (#[trigger] self.raw@[j]).sub_ok(rhs),
                forall|j: int| 0 <= j < i ==> #[trigger] out@[j] == self.raw@[j].sub_spec(rhs),
                forall|j: int| i <= j < N ==> #[trigger] out@[j] == self.raw@[j],
            decreases N - i,
        {
            out[i] = self.raw[i].sub_v(rhs);
            i = i + 1;
        }
        Tensor { raw: out, shape: self.shape }
    }

    /// Multiplies every element by one scalar.
    pub fn mul_scalar(&self, rhs: T) -> (r: Tensor<T, N>)
        requires
            forall|i: int| 0 <= i < N ==> (#[trigger] self.raw@[i]).mul_ok(rhs),
        ensures
            r.shape == self.shape,
            forall|i: int| 0 <= i < N ==> #[trigger] r.raw@[i] == self.raw@[i].mul_spec(rhs),
    {
        let mut out = self.raw;
        let mut i: usize = 0;
        while i < N
            invariant
                i <= N,
                forall|j: int| 0 <= j < N ==> (#[trigger] self.raw@[j]).mul_ok(rhs),
                forall|j: int| 0 <= j < i ==> #[trigger] out@[j] == self.raw@[j].mul_spec(rhs),
                forall|j: int| i <= j < N ==> #[trigger] out@[j] == self.raw@[j],
            decreases N - i,
        {
            out[i] = self.raw[i].mul_v(rhs);
            i = i + 1;
        }
        Tensor { raw: out, shape: self.shape }
    }

    /// Divides every element by one scalar.
    pub fn div_scalar(&self, rhs: T) -> (r: Tensor<T, N>)
        requires
            forall|i: int| 0 <= i < N ==> (#[trigger] self.raw@[i]).div_ok(rhs),
        ensures
            r.shape == self.shape,
            forall|i: int| 0 <= i < N ==> #[trigger] r.raw@[i] == self.raw@[i].div_spec(rhs),
    {
        let mut out = self.raw;
        let mut i: usize = 0;
        while i < N
            invariant
                i <= N,
                forall|j: int| 0 <= j < N ==> (#[trigger] self.raw@[j]).div_ok(rhs),
                forall|j: int| 0 <= j < i ==> #[trigger] out@[j] == self.raw@[j].div_spec(rhs),
                forall|j: int| i <= j < N ==> #[trigger] out@[j] == self.raw@[j],
            decreases N - i,
        {
            out[i] = self.raw[i].div_v(rhs);
            i = i + 1;
        }
        Tensor { raw: out, shape: self.shape }
    }
}

} // verus!

//! A flat image buffer with a unified pixel interface.

use vstd::prelude::*;

verus! {

/// A pixel value constructible from an RGB byte triple.
pub trait PixelType: Sized + Copy {
    fn from(c: &[u8; 3]) -> Self;
}

/// A row-major image of `w * h` pixels.
pub struct Image<P: PixelType> {
    raw: Vec<P>,
    w: usize,
    h: usize,
}

impl<P: PixelType> Image<P> {
    /// A black image of the given size.
    pub fn new(w: usize, h: usize) -> (r: Image<P>)
        requires
            w * h <= usize::MAX,
        ensures
            r.size() == (w, h),
            r.view().len() == w * h,
            forall|i: int, j: int|
                0 <= i < r.view().len() && 0 <= j < r.view().len() ==> #[trigger] r.view()[i]
                    == #[trigger] r.view()[j],
    {
        proof {
            assert(w * h >= 0) by (nonlinear_arith);
        }
        let zero = P::from(&[0u8, 0u8, 0u8]);
        let n = w * h;
        let mut data: Vec<P> = Vec::new();
        let mut i: usize = 0;
        while i < n
            invariant
                i <= n,
                data@.len() == i,
                forall|j: int| 0 <= j < i ==> #[trigger] data@[j] == zero,
            decreases n - i,
        {
            data.push(zero);
            i = i + 1;
        }
        Image { raw: data, w, h }
    }

    /// The pixel buffer, row-major.
    pub closed spec fn view(&self) -> Seq<P> {
        self.raw@
    }

    pub closed spec fn size(&self) -> (usize, usize) {
        (self.w, self.h)
    }

    /// Width and height.
    pub fn shape(&self) -> (r: (usize, usize))
        ensures
            r == self.size(),
    {
        (self.w, self.h)
    }

    pub fn data(&self) -> (r: &Vec<P>)
        ensures
            r@ == self.view(),
    {
        &self.raw
    }

    pub fn data_mut(&mut self) -> (r: &mut Vec<P>)
        ensures
            r@ == old(self).view(),
            final(self).view() == final(r)@,
            final(self).size() == old(self).size(),
    {
        &mut self.raw
    }
}

} // verus!

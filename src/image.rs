use vstd::prelude::*;
use crate::grid::{wrap, wrap_index};

verus! {

/// A `w` by `h` grid of pixel values, row by row.
#[derive(Clone, Debug)]
pub struct Image<T> {
    pub w: usize,
    pub h: usize,
    pub c: Vec<T>,
}

impl<T: Copy> Image<T> {
    pub open spec fn wf(&self) -> bool {
        &&& self.c@.len() == self.w * self.h
        &&& self.w * self.h <= isize::MAX
    }

    /// Index in `c` of the pixel at `(x, y)` after wrapping both around the grid.
    pub open spec fn repeat_index(&self, x: int, y: int) -> int {
        wrap(y, self.h as int) * self.w + wrap(x, self.w as int)
    }

    /// A grid of `w` by `h` pixels, each `fill`.
    pub fn new(w: usize, h: usize, fill: T) -> (r: Self)
        requires
            w * h <= isize::MAX,
        ensures
            r.wf(),
            r.w == w,
            r.h == h,
            forall|i: int| 0 <= i < w * h ==> r.c@[i] == fill,
    {
        let n = w * h;
        let mut c: Vec<T> = Vec::with_capacity(n);
        let mut i: usize = 0;
        while i < n
            invariant
                i <= n,
                c@.len() == i,
                forall|j: int| 0 <= j < i ==> c@[j] == fill,
            decreases n - i,
        {
            c.push(fill);
            i += 1;
        }
        Image { w, h, c }
    }

    /// Stores `v` at `(x, y)`.
    pub fn set(&mut self, x: usize, y: usize, v: T)
        requires
            old(self).wf(),
            x < old(self).w,
            y < old(self).h,
        ensures
            final(self).wf(),
            final(self).w == old(self).w,
            final(self).h == old(self).h,
            final(self).c@ == old(self).c@.update(y * old(self).w + x, v),
    {
        proof {
            assert(y * self.w + x < self.w * self.h) by (nonlinear_arith)
                requires
                    x < self.w,
                    y < self.h,
            ;
            assert(y * self.w <= y * self.w + x);
        }
        let i = y * self.w + x;
        self.c.set(i, v);
    }

    /// The pixel at `(x, y)`.
    pub fn get(&self, x: usize, y: usize) -> (r: T)
        requires
            self.wf(),
            x < self.w,
            y < self.h,
        ensures
            r == self.c@[y * self.w + x],
    {
        proof {
            assert(y * self.w + x < self.w * self.h) by (nonlinear_arith)
                requires
                    x < self.w,
                    y < self.h,
            ;
            assert(y * self.w <= y * self.w + x);
        }
        self.c[y * self.w + x]
    }

    /// The pixel at `(x, y)`, both coordinates wrapped around the grid.
    pub fn get_repeat(&self, x: isize, y: isize) -> (r: T)
        requires
            self.wf(),
            self.w > 0,
            self.h > 0,
        ensures
            0 <= self.repeat_index(x as int, y as int) < self.c@.len(),
            r == self.c@[self.repeat_index(x as int, y as int)],
    {
        proof {
            assert(self.w <= self.w * self.h && self.h <= self.w * self.h) by (nonlinear_arith)
                requires
                    self.w > 0,
                    self.h > 0,
            ;
        }
        let w = self.w as isize;
        let h = self.h as isize;
        let yy = wrap_index(y, h);
        let xx = wrap_index(x, w);
        proof {
            assert(0 <= yy * w && yy * w + xx < w * h) by (nonlinear_arith)
                requires
                    0 <= xx < w,
                    0 <= yy < h,
            ;
        }
        self.c[(yy * w + xx) as usize]
    }
}

} // verus!

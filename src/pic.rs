use vstd::prelude::*;
use crate::grid::{wrap, wrap_index};

verus! {

/// An 8-bit picture, stored bottom row first.
#[derive(Clone, Debug)]
pub struct Pic {
    pub w: usize,
    pub h: usize,
    pub c: Vec<(u8, u8, u8, u8)>,
}

impl Pic {
    pub open spec fn wf(&self) -> bool {
        &&& self.c@.len() == self.w * self.h
        &&& self.w * self.h <= isize::MAX
    }

    /// Index in `c` of the pixel at wrapped coordinates `(x, y)`, `y` counted from the top.
    pub open spec fn repeat_index(&self, x: int, y: int) -> int {
        (self.h - 1 - wrap(y, self.h as int)) * self.w + wrap(x, self.w as int)
    }

    /// A black picture of `w` by `h` pixels.
    pub fn new(w: usize, h: usize) -> (r: Self)
        requires
            w * h <= isize::MAX,
        ensures
            r.wf(),
            r.w == w,
            r.h == h,
            forall|i: int| 0 <= i < w * h ==> r.c@[i] == (0u8, 0u8, 0u8, 0u8),
    {
        let n = w * h;
        let mut c: Vec<(u8, u8, u8, u8)> = Vec::with_capacity(n);
        let mut i: usize = 0;
        while i < n
            invariant
                i <= n,
                c@.len() == i,
                forall|j: int| 0 <= j < i ==> c@[j] == (0u8, 0u8, 0u8, 0u8),
            decreases n - i,
        {
            c.push((0, 0, 0, 0));
            i += 1;
        }
        Pic { w, h, c }
    }

    /// Stores a colour at `(x, y)`, `y` counted from the bottom, with alpha 0.
    pub fn set(&mut self, x: usize, y: usize, rgb: (u8, u8, u8))
        requires
            old(self).wf(),
            x < old(self).w,
            y < old(self).h,
        ensures
            final(self).wf(),
            final(self).w == old(self).w,
            final(self).h == old(self).h,
            final(self).c@ == old(self).c@.update(y * old(self).w + x, (rgb.0, rgb.1, rgb.2, 0u8)),
    {
        proof {
            assert(y * self.w + x < self.w * self.h) by (nonlinear_arith)
                requires
                    x < self.w,
                    y < self.h,
            ;
            assert(y * self.w <= y * self.w + x);
        }
        let i = y * self.w + x;
        self.c.set(i, (rgb.0, rgb.1, rgb.2, 0));
    }

    /// The pixel at `(x, y)`, `y` counted from the top, both wrapped around the picture.
    pub fn get(&self, x: isize, y: isize) -> (r: (u8, u8, u8, u8))
        requires
            self.wf(),
            self.w > 0,
            self.h > 0,
        ensures
            0 <= self.repeat_index(x as int, y as int) < self.c@.len(),
            r == self.c@[self.repeat_index(x as int, y as int)],
    {
        proof {
            assert(self.w <= self.w * self.h && self.h <= self.w * self.h) by (nonlinear_arith)
                requires
                    self.w > 0,
                    self.h > 0,
            ;
        }
        let w = self.w as isize;
        let h = self.h as isize;
        let yy = wrap_index(y, h);
        let xx = wrap_index(x, w);
        proof {
            assert(0 <= (h - yy - 1) * w && (h - yy - 1) * w + xx < w * h) by (nonlinear_arith)
                requires
                    0 <= xx < w,
                    0 <= yy < h,
            ;
        }
        self.c[((h - yy - 1) * w + xx) as usize]
    }
}

impl Default for Pic {
    fn default() -> (r: Self)
        ensures
            r.wf(),
            r.w == 0,
            r.h == 0,
    {
        Pic { w: 0, h: 0, c: Vec::new() }
    }
}

} // verus!

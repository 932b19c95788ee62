use vstd::prelude::*;

verus! {

/// One step of the xorshift32 generator.
pub open spec fn xorshift32(x: u32) -> u32 {
    let a = x ^ (x << 13u32);
    let b = a ^ (a >> 17u32);
    b ^ (b << 5u32)
}

/// The state a generator starts from: a zero seed is replaced by 233.
pub open spec fn start_state(seed: u32) -> u32 {
    if seed == 0 {
        233
    } else {
        seed
    }
}

/// A step never leads from a nonzero state to zero.
pub proof fn lemma_xorshift32_nonzero(x: u32)
    requires
        x != 0,
    ensures
        xorshift32(x) != 0,
{
    let a = x ^ (x << 13u32);
    let b = a ^ (a >> 17u32);
    let c = b ^ (b << 5u32);
    assert(x != 0 ==> a != 0) by (bit_vector)
        requires
            a == x ^ (x << 13u32),
    ;
    assert(a != 0 ==> b != 0) by (bit_vector)
        requires
            b == a ^ (a >> 17u32),
    ;
    assert(b != 0 ==> c != 0) by (bit_vector)
        requires
            c == b ^ (b << 5u32),
    ;
}

/// A per-thread xorshift32 random stream.
#[derive(Clone, Copy, Debug)]
pub struct Rng {
    pub seed: u32,
}

impl Rng {
    pub open spec fn wf(&self) -> bool {
        self.seed != 0
    }

    pub fn new(seed: u32) -> (r: Self)
        ensures
            r.seed == start_state(seed),
            r.wf(),
    {
        Rng { seed: if seed == 0 { 233 } else { seed } }
    }

    /// Advances the state and returns it; the state is the next 32 random bits.
    pub fn gen_u32(&mut self) -> (r: u32)
        requires
            old(self).wf(),
        ensures
            r == xorshift32(old(self).seed),
            final(self).seed == r,
            final(self).wf(),
    {
        let mut x = self.seed;
        x = x ^ (x << 13u32);
        x = x ^ (x >> 17u32);
        x = x ^ (x << 5u32);
        proof {
            lemma_xorshift32_nonzero(self.seed);
        }
        self.seed = x;
        x
    }
}

/// Seed of the random stream of pixel `(x, y)` in a path-tracing pass: its row-major index.
pub fn pixel_seed(x: usize, y: usize, w: usize) -> (r: u32)
    requires
        x < w,
        y * w + x <= usize::MAX,
    ensures
        r == (y * w + x) as u32,
{
    (y * w + x) as u32
}

/// Seed of the random stream of pixel `(x, y)` in the view-point pass of round `round`.
pub fn view_point_seed(x: usize, y: usize, w: usize, h: usize, round: usize) -> (r: u32)
    requires
        x < w,
        y < h,
        w * h <= usize::MAX,
        y * w + x + round * (w * h) <= usize::MAX,
    ensures
        r == (y * w + x + round * (w * h)) as u32,
{
    proof {
        assert(y * w + x < w * h) by (nonlinear_arith)
            requires
                x < w,
                y < h,
        ;
        assert(round * (w * h) <= y * w + x + round * (w * h));
    }
    (y * w + x + round * (w * h)) as u32
}

/// Seed of the random stream of photon thread `tid` in round `round`.
pub fn photon_seed(round: usize, threads: usize, tid: usize) -> (r: u32)
    requires
        tid < threads,
        round * threads + tid <= usize::MAX,
    ensures
        r == (round * threads + tid) as u32,
{
    (round * threads + tid) as u32
}

/// Distinct pixels of an image with at most 2^32 pixels get distinct seeds.
pub proof fn lemma_pixel_seeds_distinct(w: usize, h: usize, x1: usize, y1: usize, x2: usize, y2: usize)
    requires
        w * h <= 0x1_0000_0000,
        x1 < w,
        x2 < w,
        y1 < h,
        y2 < h,
        (x1, y1) != (x2, y2),
    ensures
        (y1 * w + x1) as u32 != (y2 * w + x2) as u32,
{
    assert(y1 * w + x1 < w * h && y2 * w + x2 < w * h) by (nonlinear_arith)
        requires
            x1 < w,
            x2 < w,
            y1 < h,
            y2 < h,
    ;
    if y1 == y2 {
    } else if y1 < y2 {
        assert(y1 * w + x1 < y2 * w + x2) by (nonlinear_arith)
            requires
                x1 < w,
                y1 < y2,
        ;
    } else {
        assert(y2 * w + x2 < y1 * w + x1) by (nonlinear_arith)
            requires
                x2 < w,
                y2 < y1,
        ;
    }
}

/// Over all rounds of a render with fewer than 2^32 view-point streams in total, distinct
/// (pixel, round) pairs get distinct seeds.
pub proof fn lemma_view_point_seeds_distinct(
    w: usize,
    h: usize,
    rounds: usize,
    x1: usize,
    y1: usize,
    r1: usize,
    x2: usize,
    y2: usize,
    r2: usize,
)
    requires
        rounds * (w * h) <= 0x1_0000_0000,
        x1 < w,
        x2 < w,
        y1 < h,
        y2 < h,
        r1 < rounds,
        r2 < rounds,
        (x1, y1, r1) != (x2, y2, r2),
    ensures
        (y1 * w + x1 + r1 * (w * h)) as u32 != (y2 * w + x2 + r2 * (w * h)) as u32,
{
    let n = w * h;
    let i1 = y1 * w + x1;
    let i2 = y2 * w + x2;
    assert(i1 < n && i2 < n) by (nonlinear_arith)
        requires
            x1 < w,
            x2 < w,
            y1 < h,
            y2 < h,
            i1 == y1 * w + x1,
            i2 == y2 * w + x2,
            n == w * h,
    ;
    assert(r1 * n + n <= rounds * n && r2 * n + n <= rounds * n) by (nonlinear_arith)
        requires
            n >= 0,
            r1 < rounds,
            r2 < rounds,
    ;
    if r1 == r2 {
        if y1 == y2 {
        } else if y1 < y2 {
            assert(i1 < i2) by (nonlinear_arith)
                requires
                    x1 < w,
                    y1 < y2,
                    i1 == y1 * w + x1,
                    i2 == y2 * w + x2,
            ;
        } else {
            assert(i2 < i1) by (nonlinear_arith)
                requires
                    x2 < w,
                    y2 < y1,
                    i1 == y1 * w + x1,
                    i2 == y2 * w + x2,
            ;
        }
    } else if r1 < r2 {
        assert(r1 * n + n <= r2 * n) by (nonlinear_arith)
            requires
                n >= 0,
                r1 < r2,
        ;
    } else {
        assert(r2 * n + n <= r1 * n) by (nonlinear_arith)
            requires
                n >= 0,
                r2 < r1,
        ;
    }
}

/// With fewer than 2^32 photon streams in total, distinct (round, thread) pairs get
/// distinct seeds.
pub proof fn lemma_photon_seeds_distinct(
    threads: usize,
    rounds: usize,
    r1: usize,
    t1: usize,
    r2: usize,
    t2: usize,
)
    requires
        rounds * threads <= 0x1_0000_0000,
        t1 < threads,
        t2 < threads,
        r1 < rounds,
        r2 < rounds,
        (r1, t1) != (r2, t2),
    ensures
        (r1 * threads + t1) as u32 != (r2 * threads + t2) as u32,
{
    assert(r1 * threads + t1 < rounds * threads && r2 * threads + t2 < rounds * threads)
        by (nonlinear_arith)
        requires
            t1 < threads,
            t2 < threads,
            r1 < rounds,
            r2 < rounds,
    ;
    if r1 < r2 {
        assert(r1 * threads + t1 < r2 * threads + t2) by (nonlinear_arith)
            requires
                t1 < threads,
                r1 < r2,
        ;
    } else if r2 < r1 {
        assert(r2 * threads + t2 < r1 * threads + t1) by (nonlinear_arith)
            requires
                t2 < threads,
                r2 < r1,
        ;
    }
}

} // verus!

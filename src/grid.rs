use vstd::prelude::*;
use vstd::arithmetic::div_mod::lemma_fundamental_div_mod_converse;

verus! {

/// `v` wrapped into `0..n`, for `n > 0`: the remainder that is never negative.
pub open spec fn wrap(v: int, n: int) -> int {
    v % n
}

/// `v` wrapped into `0..n` with Rust's remainder and one correction.
pub fn wrap_index(v: isize, n: isize) -> (r: isize)
    requires
        n > 0,
    ensures
        r == wrap(v as int, n as int),
        0 <= r < n,
{
    let mut r = v % n;
    proof {
        if v < 0 {
            let a = -(v as int);
            let m = a % (n as int);
            let q = a / (n as int);
            assert(a == q * n + m) by (nonlinear_arith)
                requires
                    n > 0,
                    m == a % (n as int),
                    q == a / (n as int),
            ;
            if m == 0 {
                assert(v == (-q) * n + 0) by (nonlinear_arith)
                    requires
                        a == q * n + m,
                        m == 0,
                        a == -(v as int),
                ;
                lemma_fundamental_div_mod_converse(v as int, n as int, -q, 0);
            } else {
                assert(v == (-q - 1) * n + (n - m)) by (nonlinear_arith)
                    requires
                        a == q * n + m,
                        a == -(v as int),
                ;
                lemma_fundamental_div_mod_converse(v as int, n as int, -q - 1, n - m);
            }
        }
    }
    if r < 0 {
        r += n;
    }
    r
}

} // verus!

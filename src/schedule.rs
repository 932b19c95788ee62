use vstd::prelude::*;
use vstd::arithmetic::div_mod::lemma_fundamental_div_mod_converse;
use rand::seq::SliceRandom;

verus! {

broadcast use vstd::seq_lib::group_to_multiset_ensures;

/// Pixels column by column: the `i`-th is `(i / h, i % h)`.
pub open spec fn pixel_grid(w: nat, h: nat) -> Seq<(usize, usize)> {
    Seq::new(w * h, |i: int| ((i / h as int) as usize, (i % h as int) as usize))
}

proof fn lemma_pixel_grid_index(w: nat, h: nat, x: int, y: int)
    requires
        0 <= x < w,
        0 <= y < h,
        w * h <= usize::MAX,
    ensures
        0 <= x * h + y < w * h,
        pixel_grid(w, h)[x * h + y] == (x as usize, y as usize),
{
    assert(0 <= x * h + y < w * h) by (nonlinear_arith)
        requires
            0 <= x < w,
            0 <= y < h,
    ;
    lemma_fundamental_div_mod_converse(x * h + y, h as int, x, y);
}

proof fn lemma_pixel_grid_unique(w: nat, h: nat)
    requires
        w * h <= usize::MAX,
    ensures
        pixel_grid(w, h).no_duplicates(),
{
    let g = pixel_grid(w, h);
    assert forall|i: int, j: int| 0 <= i < g.len() && 0 <= j < g.len() && i != j implies g[i]
        != g[j] by {
        if h > 0 {
            assert(i / h as int <= i && j / h as int <= j) by (nonlinear_arith)
                requires
                    h > 0,
                    i >= 0,
                    j >= 0,
            ;
            vstd::arithmetic::div_mod::lemma_fundamental_div_mod(i, h as int);
            vstd::arithmetic::div_mod::lemma_fundamental_div_mod(j, h as int);
            vstd::arithmetic::div_mod::lemma_mod_bound(i, h as int);
            vstd::arithmetic::div_mod::lemma_mod_bound(j, h as int);
        }
    }
}

/// Every pixel of a `w` by `h` image, each once, column by column.
pub fn pixel_order(w: usize, h: usize) -> (r: Vec<(usize, usize)>)
    requires
        w * h <= usize::MAX,
    ensures
        r@ == pixel_grid(w as nat, h as nat),
{
    let mut r: Vec<(usize, usize)> = Vec::new();
    let mut x: usize = 0;
    while x < w
        invariant
            x <= w,
            w * h <= usize::MAX,
            r@ =~= pixel_grid(x as nat, h as nat),
        decreases w - x,
    {
        let mut y: usize = 0;
        while y < h
            invariant
                x < w,
                y <= h,
                w * h <= usize::MAX,
                r@.len() == x * h + y,
                forall|i: int| 0 <= i < x * h + y ==> r@[i] == ((i / h as int) as usize, (i % h as int) as usize),
            decreases h - y,
        {
            proof {
                assert(x * h + y < w * h) by (nonlinear_arith)
                    requires
                        x < w,
                        y < h,
                ;
                lemma_fundamental_div_mod_converse(x * h + y, h as int, x as int, y as int);
            }
            r.push((x, y));
            y += 1;
        }
        proof {
            assert((x + 1) * h == x * h + h) by (nonlinear_arith);
        }
        x += 1;
    }
    r
}

/// Relies on rand's `SliceRandom::shuffle` with `thread_rng`: it only swaps elements, so
/// what the vector holds is kept; the order is random.
#[verifier::external_body]
fn shuffle_in_place(v: &mut Vec<(usize, usize)>)
    ensures
        final(v)@.to_multiset() == old(v)@.to_multiset(),
{
    v.shuffle(&mut rand::thread_rng());
}

/// Every pixel of a `w` by `h` image exactly once, in random order.
pub fn shuffled_pixels(w: usize, h: usize) -> (r: Vec<(usize, usize)>)
    requires
        w * h <= usize::MAX,
    ensures
        r@.len() == w * h,
        r@.to_multiset() == pixel_grid(w as nat, h as nat).to_multiset(),
        forall|x: usize, y: usize| x < w && y < h ==> r@.to_multiset().count((x, y)) == 1,
        forall|i: int| 0 <= i < r@.len() ==> r@[i].0 < w && r@[i].1 < h,
{
    let mut r = pixel_order(w, h);
    shuffle_in_place(&mut r);
    proof {
        let g = pixel_grid(w as nat, h as nat);
        lemma_pixel_grid_unique(w as nat, h as nat);
        g.lemma_multiset_has_no_duplicates();
        vstd::seq_lib::to_multiset_len(g);
        vstd::seq_lib::to_multiset_len(r@);
        assert forall|x: usize, y: usize| x < w && y < h implies r@.to_multiset().count((x, y))
            == 1 by {
            lemma_pixel_grid_index(w as nat, h as nat, x as int, y as int);
            assert(g.contains((x, y)));
        }
        assert forall|i: int| 0 <= i < r@.len() implies r@[i].0 < w && r@[i].1 < h by {
            assert(r@.contains(r@[i]));
            assert(r@.to_multiset().count(r@[i]) > 0);
            assert(g.to_multiset().count(r@[i]) > 0);
            assert(g.contains(r@[i]));
            let j = choose|j: int| 0 <= j < g.len() && g[j] == r@[i];
            assert((j / (h as int)) < w) by (nonlinear_arith)
                requires
                    0 <= j < w * h,
                    h > 0,
            ;
            vstd::arithmetic::div_mod::lemma_mod_bound(j, h as int);
        }
    }
    r
}

} // verus!

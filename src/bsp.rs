use vstd::prelude::*;

verus! {

/// The batch entries whose side is not positive (left) or not negative (right), in order:
/// a triangle that the plane cuts (side 0) goes to both.
pub open spec fn on_side(batch: Seq<usize>, sides: Seq<i8>, left: bool) -> Seq<usize>
    decreases batch.len(),
{
    if batch.len() == 0 {
        seq![]
    } else {
        let n = (batch.len() - 1) as int;
        let rest = on_side(batch.subrange(0, n), sides, left);
        if (left && sides[n] <= 0) || (!left && sides[n] >= 0) {
            rest.push(batch[n])
        } else {
            rest
        }
    }
}

/// Splits a batch of triangles by the side of a plane each lies on (-1 below, 1 above,
/// 0 cut by it).
pub fn split_by_sides(batch: &Vec<usize>, sides: &Vec<i8>) -> (r: (Vec<usize>, Vec<usize>))
    requires
        sides@.len() == batch@.len(),
    ensures
        r.0@ == on_side(batch@, sides@, true),
        r.1@ == on_side(batch@, sides@, false),
{
    let mut l: Vec<usize> = Vec::new();
    let mut r: Vec<usize> = Vec::new();
    let mut i: usize = 0;
    while i < batch.len()
        invariant
            i <= batch@.len(),
            sides@.len() == batch@.len(),
            l@ == on_side(batch@.subrange(0, i as int), sides@, true),
            r@ == on_side(batch@.subrange(0, i as int), sides@, false),
        decreases batch@.len() - i,
    {
        proof {
            let cur = batch@.subrange(0, i + 1);
            assert(cur.subrange(0, i as int) =~= batch@.subrange(0, i as int));
            assert(cur[i as int] == batch@[i as int]);
        }
        if sides[i] <= 0 {
            l.push(batch[i]);
        }
        if sides[i] >= 0 {
            r.push(batch[i]);
        }
        i += 1;
    }
    proof {
        assert(batch@.subrange(0, batch@.len() as int) =~= batch@);
    }
    (l, r)
}

/// How unevenly a split with sides of `c.0` and `c.1` triangles divides them.
pub open spec fn imbalance(c: (usize, usize)) -> int {
    if c.0 >= c.1 {
        c.0 - c.1
    } else {
        c.1 - c.0
    }
}

/// The candidate split that divides most evenly; of equally even ones, the last.
pub fn most_even(counts: &Vec<(usize, usize)>) -> (r: usize)
    requires
        counts@.len() > 0,
    ensures
        r < counts@.len(),
        forall|j: int| 0 <= j < counts@.len() ==> imbalance(counts@[r as int]) <= imbalance(#[trigger] counts@[j]),
        forall|j: int| r < j < counts@.len() ==> imbalance(counts@[r as int]) < imbalance(#[trigger] counts@[j]),
{
    let mut best: usize = 0;
    let mut i: usize = 1;
    while i < counts.len()
        invariant
            1 <= i <= counts@.len(),
            best < i,
            forall|j: int| 0 <= j < i ==> imbalance(counts@[best as int]) <= imbalance(#[trigger] counts@[j]),
            forall|j: int| best < j < i ==> imbalance(counts@[best as int]) < imbalance(#[trigger] counts@[j]),
        decreases counts@.len() - i,
    {
        let b = counts[best];
        let c = counts[i];
        let eb = if b.0 >= b.1 { b.0 - b.1 } else { b.1 - b.0 };
        let ec = if c.0 >= c.1 { c.0 - c.1 } else { c.1 - c.0 };
        if eb >= ec {
            best = i;
        }
        i += 1;
    }
    best
}

} // verus!

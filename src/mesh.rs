use vstd::prelude::*;

verus! {

/// Which acceleration tree a mesh is built with.
#[derive(Clone, Copy, Debug, PartialEq, Eq, Structural)]
pub enum TreeType {
    KDTree,
    BSPTree,
    MyTree,
}

/// A face corner as written in a mesh file: (position, texture coordinate, normal) indices.
pub type Corner = (usize, usize, usize);

/// Corner `c` (0, 1 or 2) of face `f`.
pub open spec fn corner(f: (Corner, Corner, Corner), c: int) -> Corner {
    if c == 0 {
        f.0
    } else if c == 1 {
        f.1
    } else {
        f.2
    }
}

/// Entry `c` (0, 1 or 2) of a triangle of vertex slots.
pub open spec fn slot(t: (usize, usize, usize), c: int) -> usize {
    if c == 0 {
        t.0
    } else if c == 1 {
        t.1
    } else {
        t.2
    }
}

/// Whether `q` is a corner of one of `faces`.
pub open spec fn used_corner(faces: Seq<(Corner, Corner, Corner)>, q: Corner) -> bool {
    exists|f: int, c: int| 0 <= f < faces.len() && 0 <= c < 3 && #[trigger] corner(faces[f], c) == q
}

/// Whether corner `c` of face `f` is vertex `tri[f]`'s entry `c`, and that vertex stands for it.
pub open spec fn maps_corner(
    faces: Seq<(Corner, Corner, Corner)>,
    slots: Seq<Corner>,
    tri: Seq<(usize, usize, usize)>,
    f: int,
    c: int,
) -> bool {
    slot(tri[f], c) < slots.len() && slots[slot(tri[f], c) as int] == corner(faces[f], c)
}

/// What the shared vertex table of a mesh is, given its faces: `slots[s]` is the corner
/// that vertex `s` stands for, each corner once and in order of first use, and `tri[f]`
/// gives the vertices of face `f`.
pub open spec fn is_vertex_table(
    faces: Seq<(Corner, Corner, Corner)>,
    slots: Seq<Corner>,
    tri: Seq<(usize, usize, usize)>,
) -> bool {
    &&& tri.len() == faces.len()
    &&& slots.no_duplicates()
    &&& first_use_order(faces, slots)
    &&& forall|s: int| 0 <= s < slots.len() ==> used_corner(faces, #[trigger] slots[s])
    &&& forall|f: int, c: int|
        0 <= f < faces.len() && 0 <= c < 3 ==> #[trigger] maps_corner(faces, slots, tri, f, c)
}

/// Whether corner `c1` of face `f1` comes before corner `c2` of face `f2` in the file.
pub open spec fn precedes(f1: int, c1: int, f2: int, c2: int) -> bool {
    f1 < f2 || (f1 == f2 && c1 < c2)
}

/// Whether corner `q` is used before corner `c` of face `f`.
pub open spec fn used_earlier(faces: Seq<(Corner, Corner, Corner)>, q: Corner, f: int, c: int) -> bool {
    exists|g: int, d: int|
        0 <= g < faces.len() && 0 <= d < 3 && precedes(g, d, f, c) && #[trigger] corner(faces[g], d) == q
}

/// Whether the vertices are in order of first use: every use of a later vertex's corner
/// comes after some use of each earlier vertex's corner.
pub open spec fn first_use_order(faces: Seq<(Corner, Corner, Corner)>, slots: Seq<Corner>) -> bool {
    forall|i: int, j: int, f: int, c: int|
        #![trigger corner(faces[f], c), slots[j], slots[i]]
        0 <= i < j < slots.len() && 0 <= f < faces.len() && 0 <= c < 3 && corner(faces[f], c)
            == slots[j] ==> used_earlier(faces, slots[i], f, c)
}

/// Every vertex's corner is used before corner `c` of face `i`.
spec fn used_before(faces: Seq<(Corner, Corner, Corner)>, slots: Seq<Corner>, i: int, c: int) -> bool {
    forall|s: int| 0 <= s < slots.len() ==> used_earlier(faces, #[trigger] slots[s], i, c)
}

/// Every corner used before corner `c` of face `i` has a vertex.
spec fn seen_before(faces: Seq<(Corner, Corner, Corner)>, slots: Seq<Corner>, i: int, c: int) -> bool {
    forall|g: int, d: int|
        0 <= g < faces.len() && 0 <= d < 3 && precedes(g, d, i, c) ==> slots.contains(#[trigger] corner(faces[g], d))
}

/// First-use order, for the uses before corner `c` of face `i`.
spec fn order_before(faces: Seq<(Corner, Corner, Corner)>, slots: Seq<Corner>, i: int, c: int) -> bool {
    forall|a: int, b: int, f: int, e: int|
        #![trigger corner(faces[f], e), slots[b], slots[a]]
        0 <= a < b < slots.len() && 0 <= f < faces.len() && 0 <= e < 3 && precedes(f, e, i, c)
            && corner(faces[f], e) == slots[b] ==> used_earlier(faces, slots[a], f, e)
}

proof fn lemma_use_step(
    faces: Seq<(Corner, Corner, Corner)>,
    slots: Seq<Corner>,
    next: Seq<Corner>,
    i: int,
    c: int,
)
    requires
        0 <= i < faces.len(),
        0 <= c < 3,
        used_before(faces, slots, i, c),
        seen_before(faces, slots, i, c),
        order_before(faces, slots, i, c),
        next.no_duplicates(),
        next.contains(corner(faces[i], c)),
        next == slots || next == slots.push(corner(faces[i], c)),
    ensures
        used_before(faces, next, i, c + 1),
        seen_before(faces, next, i, c + 1),
        order_before(faces, next, i, c + 1),
{
    let q = corner(faces[i], c);
    let n = slots.len() as int;
    assert(forall|x: int| 0 <= x < n ==> next[x] == slots[x]);
    if next != slots {
        assert(next[n] == q);
        assert(!slots.contains(q)) by {
            if slots.contains(q) {
                let x = choose|x: int| 0 <= x < n && slots[x] == q;
                assert(next[x] == next[n]);
            }
        }
    }
    assert forall|s: int| 0 <= s < next.len() implies used_earlier(faces, #[trigger] next[s], i, c + 1) by {
        if s < n {
            assert(next[s] == slots[s]);
            assert(used_earlier(faces, slots[s], i, c));
            let (g, d) = choose|g: int, d: int|
                0 <= g < faces.len() && 0 <= d < 3 && precedes(g, d, i, c) && #[trigger] corner(faces[g], d)
                    == slots[s];
            assert(precedes(g, d, i, c + 1));
        } else {
            assert(corner(faces[i], c) == next[s]);
            assert(precedes(i, c, i, c + 1));
        }
    }
    assert forall|g: int, d: int|
        0 <= g < faces.len() && 0 <= d < 3 && precedes(g, d, i, c + 1) implies next.contains(#[trigger] corner(faces[g], d)) by {
        if precedes(g, d, i, c) {
            let x = choose|x: int| 0 <= x < n && slots[x] == corner(faces[g], d);
            assert(next[x] == slots[x]);
        }
    }
    assert forall|a: int, b: int, f: int, e: int|
        #![trigger corner(faces[f], e), next[b], next[a]]
        0 <= a < b < next.len() && 0 <= f < faces.len() && 0 <= e < 3 && precedes(f, e, i, c + 1)
            && corner(faces[f], e) == next[b] implies used_earlier(faces, next[a], f, e) by {
        assert(next[a] == slots[a]);
        if b < n {
            assert(next[b] == slots[b]);
            if precedes(f, e, i, c) {
                assert(corner(faces[f], e) == slots[b]);
                assert(used_earlier(faces, slots[a], f, e));
            } else {
                // a later use of an older vertex: its first use came earlier
                assert(used_earlier(faces, slots[b], i, c));
                let (g0, d0) = choose|g: int, d: int|
                    0 <= g < faces.len() && 0 <= d < 3 && precedes(g, d, i, c) && #[trigger] corner(faces[g], d)
                        == slots[b];
                assert(used_earlier(faces, slots[a], g0, d0));
                let (g1, d1) = choose|g: int, d: int|
                    0 <= g < faces.len() && 0 <= d < 3 && precedes(g, d, g0, d0) && #[trigger] corner(faces[g], d)
                        == slots[a];
                assert(precedes(g1, d1, f, e));
            }
        } else {
            // the new vertex is used nowhere before this corner
            if precedes(f, e, i, c) {
                assert(slots.contains(corner(faces[f], e)));
            }
            assert(f == i && e == c);
            assert(used_earlier(faces, slots[a], i, c));
            let (g, d) = choose|g: int, d: int|
                0 <= g < faces.len() && 0 <= d < 3 && precedes(g, d, i, c) && #[trigger] corner(faces[g], d)
                    == slots[a];
            assert(corner(faces[g], d) == next[a]);
        }
    }
    assert(order_before(faces, next, i, c + 1));
}

/// Bucket invariant: `buckets[v]` lists `(uv, n, s)` for each vertex `s` whose corner has
/// position `v`, and every vertex is listed in its bucket.
spec fn buckets_match(buckets: Seq<Vec<(usize, usize, usize)>>, slots: Seq<Corner>) -> bool {
    &&& forall|v: int, k: int|
        0 <= v < buckets.len() && 0 <= k < buckets[v]@.len() ==> {
            let e = #[trigger] buckets[v]@[k];
            e.2 < slots.len() && slots[e.2 as int] == (v as usize, e.0, e.1)
        }
    &&& forall|s: int|
        0 <= s < slots.len() ==> {
            let q = #[trigger] slots[s];
            q.0 < buckets.len() && buckets[q.0 as int]@.contains((q.1, q.2, s as usize))
        }
}

/// The vertex of the bucket entry with texture index `uv` and normal index `n`, if any.
fn find_in_bucket(b: &Vec<(usize, usize, usize)>, uv: usize, n: usize) -> (r: Option<usize>)
    ensures
        r matches Some(s) ==> b@.contains((uv, n, s)),
        r is None ==> forall|k: int| 0 <= k < b@.len() ==> (b@[k].0, b@[k].1) != (uv, n),
{
    let mut i: usize = 0;
    while i < b.len()
        invariant
            i <= b@.len(),
            forall|k: int| 0 <= k < i ==> (b@[k].0, b@[k].1) != (uv, n),
        decreases b@.len() - i,
    {
        let e = b[i];
        if e.0 == uv && e.1 == n {
            assert(b@[i as int] == (uv, n, e.2));
            return Some(e.2);
        }
        i += 1;
    }
    None
}

/// The vertex standing for corner `q`, added to the table when it is new.
fn vertex_of(
    q: Corner,
    slots: &mut Vec<Corner>,
    buckets: &mut Vec<Vec<(usize, usize, usize)>>,
) -> (r: usize)
    requires
        q.0 < old(buckets)@.len(),
        buckets_match(old(buckets)@, old(slots)@),
        old(slots)@.no_duplicates(),
        old(slots)@.len() < usize::MAX,
    ensures
        buckets_match(final(buckets)@, final(slots)@),
        final(buckets)@.len() == old(buckets)@.len(),
        final(slots)@.no_duplicates(),
        r < final(slots)@.len(),
        final(slots)@[r as int] == q,
        final(slots)@ == old(slots)@ || final(slots)@ == old(slots)@.push(q),
{
    match find_in_bucket(&buckets[q.0], q.1, q.2) {
        Some(s) => {
            proof {
                let k = choose|k: int| 0 <= k < buckets@[q.0 as int]@.len() && buckets@[q.0 as int]@[k] == (q.1, q.2, s);
                assert(buckets@[q.0 as int]@[k] == (q.1, q.2, s));
            }
            s
        },
        None => {
            let s = slots.len();
            proof {
                assert forall|j: int| 0 <= j < slots@.len() implies slots@[j] != q by {
                    if slots@[j] == q {
                        let b = buckets@[q.0 as int]@;
                        assert(b.contains((q.1, q.2, j as usize)));
                        let k = choose|k: int| 0 <= k < b.len() && b[k] == (q.1, q.2, j as usize);
                        assert((b[k].0, b[k].1) == (q.1, q.2));
                    }
                }
            }
            let ghost old_buckets = buckets@;
            let ghost old_slots = slots@;
            slots.push(q);
            buckets[q.0].push((q.1, q.2, s));
            let ghost b = buckets@[q.0 as int];
            proof {
                assert(buckets@ == old_buckets.update(q.0 as int, b));
                assert forall|v: int, k: int|
                    0 <= v < buckets@.len() && 0 <= k < buckets@[v]@.len() implies {
                        let e = #[trigger] buckets@[v]@[k];
                        e.2 < slots@.len() && slots@[e.2 as int] == (v as usize, e.0, e.1)
                    } by {
                    if v != q.0 as int || k < old_buckets[v]@.len() {
                        assert(buckets@[v]@[k] == old_buckets[v]@[k]);
                    }
                }
                assert forall|j: int| 0 <= j < slots@.len() implies {
                    let x = #[trigger] slots@[j];
                    x.0 < buckets@.len() && buckets@[x.0 as int]@.contains((x.1, x.2, j as usize))
                } by {
                    let x = slots@[j];
                    if j < old_slots.len() {
                        let ob = old_buckets[x.0 as int]@;
                        assert(ob.contains((x.1, x.2, j as usize)));
                        let k = choose|k: int| 0 <= k < ob.len() && ob[k] == (x.1, x.2, j as usize);
                        assert(buckets@[x.0 as int]@[k] == (x.1, x.2, j as usize));
                    } else {
                        assert(buckets@[q.0 as int]@[b@.len() - 1] == (q.1, q.2, s));
                    }
                }
            }
            s
        },
    }
}

/// The shared vertex table of a mesh: one vertex per distinct corner, in order of first
/// use, and each face as three vertex indices.
pub fn vertex_table(faces: &Vec<(Corner, Corner, Corner)>) -> (r: (Vec<Corner>, Vec<(usize, usize, usize)>))
    requires
        faces@.len() * 3 < usize::MAX,
        forall|f: int, c: int| 0 <= f < faces@.len() && 0 <= c < 3 ==> (#[trigger] corner(faces@[f], c)).0 < usize::MAX,
    ensures
        is_vertex_table(faces@, r.0@, r.1@),
{
    let mut m: usize = 0;
    let mut i: usize = 0;
    while i < faces.len()
        invariant
            i <= faces@.len(),
            forall|f: int, c: int| 0 <= f < faces@.len() && 0 <= c < 3 ==> (#[trigger] corner(faces@[f], c)).0 < usize::MAX,
            forall|f: int, c: int| 0 <= f < i && 0 <= c < 3 ==> (#[trigger] corner(faces@[f], c)).0 <= m,
            m < usize::MAX,
        decreases faces@.len() - i,
    {
        let f = faces[i];
        proof {
            assert(corner(faces@[i as int], 0) == f.0);
            assert(corner(faces@[i as int], 1) == f.1);
            assert(corner(faces@[i as int], 2) == f.2);
        }
        if f.0.0 > m {
            m = f.0.0;
        }
        if f.1.0 > m {
            m = f.1.0;
        }
        if f.2.0 > m {
            m = f.2.0;
        }
        i += 1;
    }
    let mut buckets: Vec<Vec<(usize, usize, usize)>> = Vec::new();
    while buckets.len() <= m
        invariant
            m < usize::MAX,
            buckets@.len() <= m + 1,
            forall|v: int| 0 <= v < buckets@.len() ==> (#[trigger] buckets@[v])@.len() == 0,
        decreases m + 1 - buckets@.len(),
    {
        buckets.push(Vec::new());
    }
    let mut slots: Vec<Corner> = Vec::new();
    let mut tri: Vec<(usize, usize, usize)> = Vec::new();
    let mut i: usize = 0;
    while i < faces.len()
        invariant
            i <= faces@.len(),
            faces@.len() * 3 < usize::MAX,
            buckets@.len() == m + 1,
            forall|f: int, c: int| 0 <= f < faces@.len() && 0 <= c < 3 ==> (#[trigger] corner(faces@[f], c)).0 <= m,
            buckets_match(buckets@, slots@),
            slots@.no_duplicates(),
            slots@.len() <= 3 * i,
            tri@.len() == i,
            used_before(faces@, slots@, i as int, 0),
            seen_before(faces@, slots@, i as int, 0),
            order_before(faces@, slots@, i as int, 0),
            forall|f: int, c: int|
                0 <= f < i && 0 <= c < 3 ==> #[trigger] maps_corner(faces@, slots@, tri@, f, c),
        decreases faces@.len() - i,
    {
        let f = faces[i];
        let ghost slots_before = slots@;
        let ghost t0 = tri@;
        proof {
            assert(corner(faces@[i as int], 0) == f.0);
            assert(corner(faces@[i as int], 1) == f.1);
            assert(corner(faces@[i as int], 2) == f.2);
        }
        let a = vertex_of(f.0, &mut slots, &mut buckets);
        proof {
            assert(slots@[a as int] == f.0);
            lemma_use_step(faces@, slots_before, slots@, i as int, 0);
        }
        let ghost slots_a = slots@;
        let b = vertex_of(f.1, &mut slots, &mut buckets);
        proof {
            assert(slots@[b as int] == f.1);
            lemma_use_step(faces@, slots_a, slots@, i as int, 1);
        }
        let ghost slots_b = slots@;
        let c = vertex_of(f.2, &mut slots, &mut buckets);
        proof {
            assert(slots@[c as int] == f.2);
            lemma_use_step(faces@, slots_b, slots@, i as int, 2);
        }
        tri.push((a, b, c));
        proof {
            assert forall|x: int| 0 <= x < slots_before.len() implies slots@[x] == slots_before[x] by {
                assert(slots_a[x] == slots_before[x]);
                assert(slots_b[x] == slots_a[x]);
            }
            assert(slots@[a as int] == f.0) by {
                assert(slots_b[a as int] == slots_a[a as int]);
            }
            assert(slots@[b as int] == f.1);
            assert forall|g: int, k: int|
                0 <= g < i + 1 && 0 <= k < 3 implies #[trigger] maps_corner(faces@, slots@, tri@, g, k) by {
                if g < i {
                    assert(maps_corner(faces@, slots_before, t0, g, k));
                    assert(tri@[g] == t0[g]);
                    assert(slot(t0[g], k) < slots_before.len());
                    assert(slots@[slot(t0[g], k) as int] == slots_before[slot(t0[g], k) as int]);
                } else {
                    assert(tri@[g] == (a, b, c));
                    assert(corner(faces@[g], 0) == f.0);
                    assert(corner(faces@[g], 1) == f.1);
                    assert(corner(faces@[g], 2) == f.2);
                }
            }
            assert forall|x: int| 0 <= x < slots@.len() implies used_earlier(faces@, #[trigger] slots@[x], i + 1, 0) by {
                assert(used_earlier(faces@, slots@[x], i as int, 3));
                let (g, d) = choose|g: int, d: int|
                    0 <= g < faces@.len() && 0 <= d < 3 && precedes(g, d, i as int, 3) && #[trigger] corner(faces@[g], d)
                        == slots@[x];
                assert(precedes(g, d, i + 1, 0));
            }
            assert forall|g: int, d: int|
                0 <= g < faces@.len() && 0 <= d < 3 && precedes(g, d, i + 1, 0) implies slots@.contains(#[trigger] corner(faces@[g], d)) by {
                assert(precedes(g, d, i as int, 3));
            }
            assert forall|a: int, b: int, g: int, e: int|
                #![trigger corner(faces@[g], e), slots@[b], slots@[a]]
                0 <= a < b < slots@.len() && 0 <= g < faces@.len() && 0 <= e < 3 && precedes(g, e, i + 1, 0)
                    && corner(faces@[g], e) == slots@[b] implies used_earlier(faces@, slots@[a], g, e) by {
                assert(precedes(g, e, i as int, 3));
            }
        }
        i += 1;
    }
    proof {
        assert forall|x: int| 0 <= x < slots@.len() implies used_corner(faces@, #[trigger] slots@[x]) by {
            assert(used_earlier(faces@, slots@[x], i as int, 0));
            let (g, d) = choose|g: int, d: int|
                0 <= g < faces@.len() && 0 <= d < 3 && precedes(g, d, i as int, 0) && #[trigger] corner(faces@[g], d)
                    == slots@[x];
        }
        assert forall|a: int, b: int, f: int, c: int|
            #![trigger corner(faces@[f], c), slots@[b], slots@[a]]
            0 <= a < b < slots@.len() && 0 <= f < faces@.len() && 0 <= c < 3 && corner(faces@[f], c)
                == slots@[b] implies used_earlier(faces@, slots@[a], f, c) by {
            assert(precedes(f, c, i as int, 0));
        }
    }
    (slots, tri)
}

} // verus!

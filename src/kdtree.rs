use vstd::prelude::*;

verus! {

/// Largest number of triangles a leaf holds unless no split makes progress.
pub const K: usize = 16;

/// A node of the triangle tree: `A(l, r, dim)` splits along axis `dim` into children
/// `l` and `r`; `B(tris)` is a leaf holding triangle indices.
#[derive(Clone, Debug)]
pub enum KDNodeType {
    A(usize, usize, usize),
    B(Vec<usize>),
}

/// A node and its split key. Keys are order keys: integers that order as the
/// coordinates they stand for.
#[derive(Clone, Debug)]
pub struct KDNode {
    pub data: KDNodeType,
    pub key: u64,
}

/// A KD-tree over the triangles of a mesh; node 0 is the root.
#[derive(Clone, Debug)]
pub struct KDTree {
    pub nodes: Vec<KDNode>,
}

/// Whether triangle `t`, with per-axis order keys `lo[t]` (its least coordinate) and
/// `hi[t]` (its greatest), is found from node `x`: in a leaf it is listed; at a split along
/// `dim` with key `k` it is found in the left child if `lo[t][dim] < k` and in the right
/// child if `hi[t][dim] >= k`.
pub open spec fn finds(
    nodes: Seq<KDNode>,
    x: int,
    t: usize,
    lo: Seq<[u64; 3]>,
    hi: Seq<[u64; 3]>,
) -> bool
    decreases nodes.len() - x,
{
    if 0 <= x < nodes.len() {
        match nodes[x].data {
            KDNodeType::B(v) => v@.contains(t),
            KDNodeType::A(l, r, dim) => {
                &&& x < l < nodes.len()
                &&& x < r < nodes.len()
                &&& dim < 3
                &&& lo[t as int][dim as int] < nodes[x].key ==> finds(nodes, l as int, t, lo, hi)
                &&& hi[t as int][dim as int] >= nodes[x].key ==> finds(nodes, r as int, t, lo, hi)
            },
        }
    } else {
        false
    }
}

/// Whether `s` is in ascending order.
pub open spec fn ascending(s: Seq<u64>) -> bool {
    forall|i: int, j: int| 0 <= i < j < s.len() ==> s[i] <= s[j]
}

/// The keys `hi[t][dim]` of the triangles `tris`.
pub open spec fn axis_keys(tris: Seq<usize>, hi: Seq<[u64; 3]>, dim: int) -> Seq<u64> {
    tris.map_values(|t: usize| hi[t as int][dim])
}

/// Whether `key` is the median of `keys`: the element at `len / 2` once they are sorted.
pub open spec fn is_median(key: u64, keys: Seq<u64>) -> bool {
    exists|s: Seq<u64>|
        ascending(s) && s.to_multiset() == keys.to_multiset() && #[trigger] s[keys.len() as int / 2] == key
}

proof fn lemma_finds_extend(
    a: Seq<KDNode>,
    b: Seq<KDNode>,
    x: int,
    t: usize,
    lo: Seq<[u64; 3]>,
    hi: Seq<[u64; 3]>,
)
    requires
        a.len() <= b.len(),
        forall|i: int| 0 <= i < a.len() ==> b[i] == a[i],
        finds(a, x, t, lo, hi),
    ensures
        finds(b, x, t, lo, hi),
    decreases a.len() - x,
{
    match a[x].data {
        KDNodeType::B(v) => {},
        KDNodeType::A(l, r, dim) => {
            if lo[t as int][dim as int] < a[x].key {
                lemma_finds_extend(a, b, l as int, t, lo, hi);
            }
            if hi[t as int][dim as int] >= a[x].key {
                lemma_finds_extend(a, b, r as int, t, lo, hi);
            }
        },
    }
}

proof fn lemma_finds_update_before(
    a: Seq<KDNode>,
    j: int,
    n: KDNode,
    x: int,
    t: usize,
    lo: Seq<[u64; 3]>,
    hi: Seq<[u64; 3]>,
)
    requires
        0 <= j < x,
        finds(a, x, t, lo, hi),
    ensures
        finds(a.update(j, n), x, t, lo, hi),
    decreases a.len() - x,
{
    let b = a.update(j, n);
    assert(b[x] == a[x]);
    match a[x].data {
        KDNodeType::B(v) => {},
        KDNodeType::A(l, r, dim) => {
            if lo[t as int][dim as int] < a[x].key {
                lemma_finds_update_before(a, j, n, l as int, t, lo, hi);
            }
            if hi[t as int][dim as int] >= a[x].key {
                lemma_finds_update_before(a, j, n, r as int, t, lo, hi);
            }
        },
    }
}

/// Relies on std's `slice::sort_unstable`: the result is in ascending order and holds
/// the same keys.
#[verifier::external_body]
fn sort_keys(v: &mut Vec<u64>)
    ensures
        ascending(final(v)@),
        final(v)@.to_multiset() == old(v)@.to_multiset(),
{
    v.sort_unstable();
}

/// Whether triangle `t` goes to the left (`lo[t][dim] < key`) or the right
/// (`hi[t][dim] >= key`) child of a split.
pub open spec fn goes(t: usize, lo: Seq<[u64; 3]>, hi: Seq<[u64; 3]>, dim: int, key: u64, left: bool) -> bool {
    if left {
        lo[t as int][dim] < key
    } else {
        hi[t as int][dim] >= key
    }
}

/// The triangles of `tris` that go to one side of a split, in order.
pub open spec fn side(
    tris: Seq<usize>,
    lo: Seq<[u64; 3]>,
    hi: Seq<[u64; 3]>,
    dim: int,
    key: u64,
    left: bool,
) -> Seq<usize>
    decreases tris.len(),
{
    if tris.len() == 0 {
        seq![]
    } else {
        let rest = side(tris.drop_last(), lo, hi, dim, key, left);
        if goes(tris.last(), lo, hi, dim, key, left) {
            rest.push(tris.last())
        } else {
            rest
        }
    }
}

proof fn lemma_side(tris: Seq<usize>, lo: Seq<[u64; 3]>, hi: Seq<[u64; 3]>, dim: int, key: u64, left: bool)
    ensures
        side(tris, lo, hi, dim, key, left).len() <= tris.len(),
        forall|t: usize| #[trigger] side(tris, lo, hi, dim, key, left).contains(t) <==> (tris.contains(t) && goes(t, lo, hi, dim, key, left)),
    decreases tris.len(),
{
    if tris.len() > 0 {
        let p = tris.drop_last();
        lemma_side(p, lo, hi, dim, key, left);
        let rest = side(p, lo, hi, dim, key, left);
        let cur = side(tris, lo, hi, dim, key, left);
        assert forall|t: usize| #[trigger] cur.contains(t) <==> (tris.contains(t) && goes(t, lo, hi, dim, key, left)) by {
            assert(tris =~= p.push(tris.last()));
            if tris.contains(t) && t != tris.last() {
                let k = choose|k: int| 0 <= k < tris.len() && tris[k] == t;
                assert(p[k] == t);
            }
            if p.contains(t) {
                let k = choose|k: int| 0 <= k < p.len() && p[k] == t;
                assert(tris[k] == t);
            }
            if goes(tris.last(), lo, hi, dim, key, left) {
                assert(cur =~= rest.push(tris.last()));
                if rest.contains(t) {
                    let k = choose|k: int| 0 <= k < rest.len() && rest[k] == t;
                    assert(cur[k] == t);
                }
                if cur.contains(t) && t != tris.last() {
                    let k = choose|k: int| 0 <= k < cur.len() && cur[k] == t;
                    assert(rest[k] == t);
                }
                assert(cur[cur.len() - 1] == tris.last());
            }
        }
    }
}

/// The triangles of `tris` that go to one side of a split, in order.
fn partition_side(
    tris: &Vec<usize>,
    lo: &Vec<[u64; 3]>,
    hi: &Vec<[u64; 3]>,
    dim: usize,
    key: u64,
    left: bool,
) -> (r: Vec<usize>)
    requires
        dim < 3,
        forall|i: int| 0 <= i < tris@.len() ==> tris@[i] < lo@.len() && tris@[i] < hi@.len(),
    ensures
        r@ == side(tris@, lo@, hi@, dim as int, key, left),
{
    let mut r: Vec<usize> = Vec::new();
    let mut i: usize = 0;
    while i < tris.len()
        invariant
            i <= tris@.len(),
            dim < 3,
            forall|j: int| 0 <= j < tris@.len() ==> tris@[j] < lo@.len() && tris@[j] < hi@.len(),
            r@ == side(tris@.subrange(0, i as int), lo@, hi@, dim as int, key, left),
        decreases tris@.len() - i,
    {
        let t = tris[i];
        proof {
            let cur = tris@.subrange(0, i + 1);
            assert(cur.drop_last() =~= tris@.subrange(0, i as int));
            assert(cur.last() == t);
        }
        let keep = if left {
            lo[t][dim] < key
        } else {
            hi[t][dim] >= key
        };
        if keep {
            r.push(t);
        }
        i += 1;
    }
    proof {
        assert(tris@.subrange(0, tris@.len() as int) =~= tris@);
    }
    r
}

/// The split key of the triangles `tris` along `dim`: the median of their keys `hi[t][dim]`.
pub fn split_key(tris: &Vec<usize>, hi: &Vec<[u64; 3]>, dim: usize) -> (r: u64)
    requires
        tris@.len() > 0,
        dim < 3,
        forall|i: int| 0 <= i < tris@.len() ==> tris@[i] < hi@.len(),
    ensures
        is_median(r, axis_keys(tris@, hi@, dim as int)),
{
    let n = tris.len();
    let mut keys: Vec<u64> = Vec::with_capacity(n);
    let mut i: usize = 0;
    while i < n
        invariant
            n == tris@.len(),
            i <= n,
            dim < 3,
            forall|j: int| 0 <= j < tris@.len() ==> tris@[j] < hi@.len(),
            keys@ =~= axis_keys(tris@, hi@, dim as int).subrange(0, i as int),
        decreases n - i,
    {
        keys.push(hi[tris[i]][dim]);
        i += 1;
    }
    assert(keys@ =~= axis_keys(tris@, hi@, dim as int));
    let ghost unsorted = keys@;
    sort_keys(&mut keys);
    proof {
        vstd::seq_lib::to_multiset_len(keys@);
        vstd::seq_lib::to_multiset_len(unsorted);
    }
    let key = keys[n / 2];
    assert(ascending(keys@) && keys@.to_multiset() == unsorted.to_multiset() && keys@[unsorted.len() as int / 2] == key);
    key
}

/// Whether a split of `s` along `dim` at `key` leaves a side with all of `s`.
pub open spec fn no_progress(s: Seq<usize>, lo: Seq<[u64; 3]>, hi: Seq<[u64; 3]>, dim: int, key: u64) -> bool {
    side(s, lo, hi, dim, key, true).len() == s.len() || side(s, lo, hi, dim, key, false).len() == s.len()
}

/// Whether `choose_axis` may pick `dim` for the batch `s`.
pub open spec fn picks<F: Fn(&Vec<usize>) -> usize>(choose_axis: F, s: Seq<usize>, dim: usize) -> bool {
    exists|w: Vec<usize>| w@ == s && #[trigger] choose_axis.ensures((&w,), dim)
}

/// Whether node `x` is what the build makes of its batch `b[x]`: a batch of at most `K`
/// triangles is a leaf; otherwise the axis is the one `choose_axis` picks, the key is the
/// median of the batch's `hi` keys on it, and the node is a leaf when a side would keep the
/// whole batch, else a split whose children's batches are the two sides, in order.
pub open spec fn built<F: Fn(&Vec<usize>) -> usize>(
    nodes: Seq<KDNode>,
    b: Seq<Seq<usize>>,
    x: int,
    lo: Seq<[u64; 3]>,
    hi: Seq<[u64; 3]>,
    choose_axis: F,
) -> bool {
    let s = b[x];
    match nodes[x].data {
        KDNodeType::B(v) => v@ == s && (s.len() <= K || exists|dim: usize, key: u64|
            picks(choose_axis, s, dim) && #[trigger] is_median(key, axis_keys(s, hi, dim as int))
                && no_progress(s, lo, hi, dim as int, key)),
        KDNodeType::A(l, r, dim) => {
            let key = nodes[x].key;
            &&& s.len() > K
            &&& picks(choose_axis, s, dim)
            &&& dim < 3
            &&& is_median(key, axis_keys(s, hi, dim as int))
            &&& !no_progress(s, lo, hi, dim as int, key)
            &&& x < l < nodes.len()
            &&& x < r < nodes.len()
            &&& b[l as int] == side(s, lo, hi, dim as int, key, true)
            &&& b[r as int] == side(s, lo, hi, dim as int, key, false)
        },
    }
}

proof fn lemma_built_transfer<F: Fn(&Vec<usize>) -> usize>(
    n1: Seq<KDNode>,
    b1: Seq<Seq<usize>>,
    n2: Seq<KDNode>,
    b2: Seq<Seq<usize>>,
    y: int,
    lo: Seq<[u64; 3]>,
    hi: Seq<[u64; 3]>,
    choose_axis: F,
)
    requires
        0 <= y < n1.len() <= n2.len(),
        n2[y] == n1[y],
        forall|i: int| y <= i < n1.len() ==> b2[i] == b1[i],
        built(n1, b1, y, lo, hi, choose_axis),
    ensures
        built(n2, b2, y, lo, hi, choose_axis),
{
    match n1[y].data {
        KDNodeType::B(v) => {},
        KDNodeType::A(l, r, dim) => {
            assert(b2[l as int] == b1[l as int]);
            assert(b2[r as int] == b1[r as int]);
        },
    }
}

impl KDTree {
    /// Builds the subtree over `tris` at the end of `nodes` and returns its root.
    fn new_node<F: Fn(&Vec<usize>) -> usize>(
        &mut self,
        lo: &Vec<[u64; 3]>,
        hi: &Vec<[u64; 3]>,
        tris: Vec<usize>,
        choose_axis: &F,
    ) -> (res: (usize, Ghost<Seq<Seq<usize>>>))
        requires
            forall|i: int| 0 <= i < tris@.len() ==> tris@[i] < lo@.len() && tris@[i] < hi@.len(),
            forall|v: &Vec<usize>| choose_axis.requires((v,)),
            forall|v: &Vec<usize>, d: usize| choose_axis.ensures((v,), d) ==> d < 3,
        ensures
            res.0 == old(self).nodes@.len(),
            final(self).nodes@.len() > res.0,
            forall|i: int| 0 <= i < old(self).nodes@.len() ==> final(self).nodes@[i] == old(self).nodes@[i],
            forall|t: usize| tris@.contains(t) ==> finds(final(self).nodes@, res.0 as int, t, lo@, hi@),
            res.1@.len() == final(self).nodes@.len(),
            res.1@[res.0 as int] == tris@,
            forall|y: int| res.0 <= y < final(self).nodes@.len() ==> built(final(self).nodes@, res.1@, y, lo@, hi@, *choose_axis),
        decreases tris@.len(),
    {
        let n = tris.len();
        let x = self.nodes.len();
        let ghost s = tris@;
        if n <= K {
            self.nodes.push(KDNode { data: KDNodeType::B(tris), key: 0 });
            let ghost b = Seq::new(self.nodes@.len(), |i: int| s);
            proof {
                assert(built(self.nodes@, b, x as int, lo@, hi@, *choose_axis));
            }
            return (x, Ghost(b));
        }
        let dim = choose_axis(&tris);
        let ghost w = tris;
        let key = split_key(&tris, hi, dim);
        let l = partition_side(&tris, lo, hi, dim, key, true);
        let r = partition_side(&tris, lo, hi, dim, key, false);
        proof {
            lemma_side(tris@, lo@, hi@, dim as int, key, true);
            lemma_side(tris@, lo@, hi@, dim as int, key, false);
            assert forall|i: int| 0 <= i < l@.len() implies l@[i] < lo@.len() && l@[i] < hi@.len() by {
                assert(l@.contains(l@[i]));
            }
            assert forall|i: int| 0 <= i < r@.len() implies r@[i] < lo@.len() && r@[i] < hi@.len() by {
                assert(r@.contains(r@[i]));
            }
        }
        proof {
            assert(picks(*choose_axis, s, dim)) by {
                assert(w@ == s && choose_axis.ensures((&w,), dim));
            }
        }
        if l.len() == n || r.len() == n {
            self.nodes.push(KDNode { data: KDNodeType::B(tris), key: 0 });
            let ghost b = Seq::new(self.nodes@.len(), |i: int| s);
            proof {
                assert(no_progress(s, lo@, hi@, dim as int, key));
                assert(built(self.nodes@, b, x as int, lo@, hi@, *choose_axis));
            }
            return (x, Ghost(b));
        }
        self.nodes.push(KDNode { data: KDNodeType::A(0, 0, dim), key });
        let (lc, Ghost(bl)) = self.new_node(lo, hi, l, choose_axis);
        let ghost after_left = self.nodes@;
        let (rc, Ghost(br)) = self.new_node(lo, hi, r, choose_axis);
        let ghost after_right = self.nodes@;
        self.nodes.set(x, KDNode { data: KDNodeType::A(lc, rc, dim), key });
        let ghost b = Seq::new(self.nodes@.len(), |i: int| if i == x { s } else if i < after_left.len() { bl[i] } else { br[i] });
        proof {
            let fin = self.nodes@;
            assert(fin =~= after_right.update(x as int, fin[x as int]));
            assert forall|y: int| x <= y < fin.len() implies built(fin, b, y, lo@, hi@, *choose_axis) by {
                if y == x {
                    assert(b[lc as int] == bl[lc as int]);
                    assert(b[rc as int] == br[rc as int]);
                } else if y < after_left.len() {
                    assert(after_left[y] == after_right[y]);
                    lemma_built_transfer(after_left, bl, fin, b, y, lo@, hi@, *choose_axis);
                } else {
                    lemma_built_transfer(after_right, br, fin, b, y, lo@, hi@, *choose_axis);
                }
            }
        }
        proof {
            assert forall|t: usize| tris@.contains(t) implies finds(self.nodes@, x as int, t, lo@, hi@) by {
                if lo@[t as int][dim as int] < key {
                    assert(l@.contains(t));
                    lemma_finds_extend(after_left, after_right, lc as int, t, lo@, hi@);
                    lemma_finds_update_before(after_right, x as int, self.nodes@[x as int], lc as int, t, lo@, hi@);
                    assert(after_right.update(x as int, self.nodes@[x as int]) =~= self.nodes@);
                }
                if hi@[t as int][dim as int] >= key {
                    assert(r@.contains(t));
                    lemma_finds_update_before(after_right, x as int, self.nodes@[x as int], rc as int, t, lo@, hi@);
                    assert(after_right.update(x as int, self.nodes@[x as int]) =~= self.nodes@);
                }
            }
        }
        (x, Ghost(b))
    }

    /// Builds the tree over triangles `0..lo.len()`. `lo[t]` and `hi[t]` hold, per axis, the
    /// order keys of the least and the greatest coordinate of triangle `t`; `choose_axis`
    /// picks the split axis of a batch of triangles.
    pub fn build<F: Fn(&Vec<usize>) -> usize>(
        &mut self,
        lo: &Vec<[u64; 3]>,
        hi: &Vec<[u64; 3]>,
        choose_axis: &F,
    )
        requires
            lo@.len() == hi@.len(),
            forall|v: &Vec<usize>| choose_axis.requires((v,)),
            forall|v: &Vec<usize>, d: usize| choose_axis.ensures((v,), d) ==> d < 3,
        ensures
            final(self).nodes@.len() > 0,
            forall|t: usize| t < lo@.len() ==> finds(final(self).nodes@, 0, t, lo@, hi@),
            exists|b: Seq<Seq<usize>>|
                #![trigger b.len()]
                b.len() == final(self).nodes@.len() && b[0] == Seq::new(lo@.len(), |i: int| i as usize)
                    && forall|y: int| 0 <= y < b.len() ==> built(final(self).nodes@, b, y, lo@, hi@, *choose_axis),
    {
        let mut tris: Vec<usize> = Vec::with_capacity(lo.len());
        let mut i: usize = 0;
        while i < lo.len()
            invariant
                i <= lo@.len(),
                tris@.len() == i,
                forall|j: int| 0 <= j < i ==> tris@[j] == j,
            decreases lo@.len() - i,
        {
            tris.push(i);
            i += 1;
        }
        self.nodes = Vec::new();
        let ghost all = tris@;
        let (_, Ghost(b)) = self.new_node(lo, hi, tris, choose_axis);
        proof {
            assert forall|t: usize| t < lo@.len() implies finds(self.nodes@, 0, t, lo@, hi@) by {
                assert(tris@[t as int] == t);
                assert(tris@.contains(t));
            }
            assert(all =~= Seq::new(lo@.len(), |i: int| i as usize));
            assert(b.len() == self.nodes@.len());
        }
    }
}

} // verus!

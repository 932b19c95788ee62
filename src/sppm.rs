use vstd::prelude::*;
use crate::kdtree::picks;

verus! {

/// A node of the view-point tree: view point `point`, split axis `dim`, and children `l`
/// and `r`, where 0 stands for no child (the root is node 0 and no node's child).
#[derive(Clone, Copy, Debug)]
pub struct ViewNode {
    pub point: usize,
    pub dim: usize,
    pub l: usize,
    pub r: usize,
}

/// A KD-tree over view points: each point is one node; node 0 is the root.
#[derive(Clone, Debug)]
pub struct ViewTree {
    pub nodes: Vec<ViewNode>,
}

/// Whether view point `p` is held by the subtree of node `x`.
pub open spec fn in_subtree(nodes: Seq<ViewNode>, x: int, p: usize) -> bool
    decreases nodes.len() - x,
{
    if 0 <= x < nodes.len() {
        let n = nodes[x];
        ||| n.point == p
        ||| (x < n.l < nodes.len() && in_subtree(nodes, n.l as int, p))
        ||| (x < n.r < nodes.len() && in_subtree(nodes, n.r as int, p))
    } else {
        false
    }
}

/// Whether the subtree of node `x` is a KD-tree for the order keys `keys`: at each node,
/// no point on the left has a greater key on the node's axis than the node's own point, and
/// no point on the right a smaller one.
pub open spec fn kd_ordered(nodes: Seq<ViewNode>, x: int, keys: Seq<[u64; 3]>) -> bool
    decreases nodes.len() - x,
{
    if 0 <= x < nodes.len() {
        let n = nodes[x];
        &&& n.dim < 3
        &&& n.point < keys.len()
        &&& (n.l == 0 || x < n.l < nodes.len())
        &&& (n.r == 0 || x < n.r < nodes.len())
        &&& (n.l != 0 ==> kd_ordered(nodes, n.l as int, keys))
        &&& (n.r != 0 ==> kd_ordered(nodes, n.r as int, keys))
        &&& forall|p: usize|
            n.l != 0 && #[trigger] in_subtree(nodes, n.l as int, p) ==> p < keys.len()
                && keys[p as int][n.dim as int] <= keys[n.point as int][n.dim as int]
        &&& forall|p: usize|
            n.r != 0 && #[trigger] in_subtree(nodes, n.r as int, p) ==> p < keys.len()
                && keys[p as int][n.dim as int] >= keys[n.point as int][n.dim as int]
    } else {
        false
    }
}

proof fn lemma_extend(a: Seq<ViewNode>, b: Seq<ViewNode>, x: int, keys: Seq<[u64; 3]>)
    requires
        0 <= x < a.len() <= b.len(),
        forall|i: int| 0 <= i < a.len() ==> b[i] == a[i],
        kd_ordered(a, x, keys),
    ensures
        forall|p: usize| in_subtree(b, x, p) <==> in_subtree(a, x, p),
        kd_ordered(b, x, keys),
    decreases a.len() - x,
{
    let n = a[x];
    assert(b[x] == a[x]);
    if n.l != 0 {
        lemma_extend(a, b, n.l as int, keys);
    }
    if n.r != 0 {
        lemma_extend(a, b, n.r as int, keys);
    }
    assert forall|p: usize| in_subtree(b, x, p) <==> in_subtree(a, x, p) by {
        assert(b[x] == n);
        assert(in_subtree(b, x, p) == (n.point == p || (x < n.l < b.len() && in_subtree(b, n.l as int, p))
            || (x < n.r < b.len() && in_subtree(b, n.r as int, p))));
        assert(in_subtree(a, x, p) == (n.point == p || (x < n.l < a.len() && in_subtree(a, n.l as int, p))
            || (x < n.r < a.len() && in_subtree(a, n.r as int, p))));
        if n.l != 0 {
            assert(in_subtree(b, n.l as int, p) == in_subtree(a, n.l as int, p));
        }
        if n.r != 0 {
            assert(in_subtree(b, n.r as int, p) == in_subtree(a, n.r as int, p));
        }
    }
}

proof fn lemma_update_before(a: Seq<ViewNode>, j: int, v: ViewNode, x: int, keys: Seq<[u64; 3]>)
    requires
        0 <= j < x < a.len(),
        kd_ordered(a, x, keys),
    ensures
        forall|p: usize| in_subtree(a.update(j, v), x, p) <==> in_subtree(a, x, p),
        kd_ordered(a.update(j, v), x, keys),
    decreases a.len() - x,
{
    let b = a.update(j, v);
    let n = a[x];
    assert(b[x] == n);
    if n.l != 0 {
        lemma_update_before(a, j, v, n.l as int, keys);
    }
    if n.r != 0 {
        lemma_update_before(a, j, v, n.r as int, keys);
    }
    assert forall|p: usize| in_subtree(b, x, p) <==> in_subtree(a, x, p) by {
        assert(b[x] == n);
        assert(in_subtree(b, x, p) == (n.point == p || (x < n.l < b.len() && in_subtree(b, n.l as int, p))
            || (x < n.r < b.len() && in_subtree(b, n.r as int, p))));
        assert(in_subtree(a, x, p) == (n.point == p || (x < n.l < a.len() && in_subtree(a, n.l as int, p))
            || (x < n.r < a.len() && in_subtree(a, n.r as int, p))));
        if n.l != 0 {
            assert(in_subtree(b, n.l as int, p) == in_subtree(a, n.l as int, p));
        }
        if n.r != 0 {
            assert(in_subtree(b, n.r as int, p) == in_subtree(a, n.r as int, p));
        }
    }
    assert forall|p: usize| n.l != 0 && #[trigger] in_subtree(b, n.l as int, p) implies p < keys.len()
        && keys[p as int][n.dim as int] <= keys[n.point as int][n.dim as int] by {
        assert(in_subtree(a, n.l as int, p));
    }
    assert forall|p: usize| n.r != 0 && #[trigger] in_subtree(b, n.r as int, p) implies p < keys.len()
        && keys[p as int][n.dim as int] >= keys[n.point as int][n.dim as int] by {
        assert(in_subtree(a, n.r as int, p));
    }
}

/// Relies on pdqselect's `select_by_key`: it only reorders the items, and afterwards the item
/// at `k` has no greater key before it and no smaller key after it.
#[verifier::external_body]
fn select_by_key(v: &mut Vec<(u64, usize)>, k: usize)
    requires
        k < old(v)@.len(),
    ensures
        final(v)@.to_multiset() == old(v)@.to_multiset(),
        forall|i: int| 0 <= i < k ==> final(v)@[i].0 <= final(v)@[k as int].0,
        forall|i: int| k < i < final(v)@.len() ==> final(v)@[i].0 >= final(v)@[k as int].0,
{
    pdqselect::select_by_key(v.as_mut_slice(), k, |t| t.0);
}

/// The point indices of `items[lo..hi]`.
fn points_of(items: &Vec<(u64, usize)>, lo: usize, hi: usize) -> (r: Vec<usize>)
    requires
        lo <= hi <= items@.len(),
    ensures
        r@.len() == hi - lo,
        forall|i: int| 0 <= i < hi - lo ==> r@[i] == items@[lo + i].1,
{
    let mut r: Vec<usize> = Vec::new();
    let mut i: usize = lo;
    while i < hi
        invariant
            lo <= i <= hi <= items@.len(),
            r@.len() == i - lo,
            forall|j: int| 0 <= j < i - lo ==> r@[j] == items@[lo + j].1,
        decreases hi - i,
    {
        r.push(items[i].1);
        i += 1;
    }
    r
}

proof fn lemma_selected(
    orig: Seq<(u64, usize)>,
    items: Seq<(u64, usize)>,
    batch: Seq<usize>,
    keys: Seq<[u64; 3]>,
    dim: int,
)
    requires
        orig.len() == batch.len(),
        forall|j: int| 0 <= j < batch.len() ==> batch[j] < keys.len(),
        forall|j: int| 0 <= j < orig.len() ==> orig[j] == (keys[batch[j] as int][dim], batch[j]),
        items.to_multiset() == orig.to_multiset(),
    ensures
        items.len() == orig.len(),
        forall|j: int| #![trigger items[j]] 0 <= j < items.len() ==> items[j].1 < keys.len()
            && items[j].0 == keys[items[j].1 as int][dim] && batch.contains(items[j].1),
        forall|p: usize| batch.contains(p) ==> exists|j: int|
            0 <= j < items.len() && #[trigger] items[j].1 == p,
{
    broadcast use vstd::seq_lib::group_to_multiset_ensures;

    vstd::seq_lib::to_multiset_len(items);
    vstd::seq_lib::to_multiset_len(orig);
    assert forall|j: int| #![trigger items[j]] 0 <= j < items.len() implies items[j].1 < keys.len()
        && items[j].0 == keys[items[j].1 as int][dim] && batch.contains(items[j].1) by {
        assert(items.contains(items[j]));
        assert(items.to_multiset().count(items[j]) > 0);
        assert(orig.to_multiset().count(items[j]) > 0);
        assert(orig.contains(items[j]));
        let q = choose|q: int| 0 <= q < orig.len() && orig[q] == items[j];
        assert(batch[q] == items[j].1);
    }
    assert forall|p: usize| batch.contains(p) implies exists|j: int|
        0 <= j < items.len() && #[trigger] items[j].1 == p by {
        let q = choose|q: int| 0 <= q < batch.len() && batch[q] == p;
        assert(orig[q].1 == p);
        assert(orig.contains(orig[q]));
        assert(orig.to_multiset().count(orig[q]) > 0);
        assert(items.to_multiset().count(orig[q]) > 0);
        assert(items.contains(orig[q]));
    }
}

/// Whether node `x` is the median split of its batch `b[x]`: its axis is one that
/// `choose_axis` picks for the batch, its point is in the batch, and its children's batches
/// hold `(len - 1) / 2` and `len - 1 - (len - 1) / 2` points of it (a child is absent
/// exactly when its share is empty).
pub open spec fn view_built<F: Fn(&Vec<usize>) -> usize>(
    nodes: Seq<ViewNode>,
    b: Seq<Seq<usize>>,
    x: int,
    choose_axis: F,
) -> bool {
    let s = b[x];
    let n = nodes[x];
    let k = (s.len() - 1) / 2;
    &&& s.len() > 0
    &&& picks(choose_axis, s, n.dim)
    &&& s.contains(n.point)
    &&& (n.l == 0 <==> k == 0)
    &&& (n.r == 0 <==> k + 1 == s.len())
    &&& n.l != 0 ==> x < n.l < nodes.len() && b[n.l as int].len() == k
        && forall|p: usize| #[trigger] b[n.l as int].contains(p) ==> s.contains(p)
    &&& n.r != 0 ==> x < n.r < nodes.len() && b[n.r as int].len() == s.len() - 1 - k
        && forall|p: usize| #[trigger] b[n.r as int].contains(p) ==> s.contains(p)
}

proof fn lemma_view_built_transfer<F: Fn(&Vec<usize>) -> usize>(
    n1: Seq<ViewNode>,
    b1: Seq<Seq<usize>>,
    n2: Seq<ViewNode>,
    b2: Seq<Seq<usize>>,
    y: int,
    choose_axis: F,
)
    requires
        0 <= y < n1.len() <= n2.len(),
        n2[y] == n1[y],
        forall|i: int| y <= i < n1.len() ==> b2[i] == b1[i],
        view_built(n1, b1, y, choose_axis),
    ensures
        view_built(n2, b2, y, choose_axis),
{
    let n = n1[y];
    assert(b2[y] == b1[y]);
    if n.l != 0 {
        assert(b2[n.l as int] == b1[n.l as int]);
    }
    if n.r != 0 {
        assert(b2[n.r as int] == b1[n.r as int]);
    }
}

impl ViewTree {
    /// Builds the subtree over the view points `batch` at the end of `nodes`; returns its root.
    #[verifier::rlimit(50)]
    fn new_node<F: Fn(&Vec<usize>) -> usize>(
        &mut self,
        keys: &Vec<[u64; 3]>,
        batch: Vec<usize>,
        choose_axis: &F,
    ) -> (res: (usize, Ghost<Seq<Seq<usize>>>))
        requires
            batch@.len() > 0,
            forall|i: int| 0 <= i < batch@.len() ==> batch@[i] < keys@.len(),
            forall|v: &Vec<usize>| choose_axis.requires((v,)),
            forall|v: &Vec<usize>, d: usize| choose_axis.ensures((v,), d) ==> d < 3,
        ensures
            res.0 == old(self).nodes@.len(),
            final(self).nodes@.len() == old(self).nodes@.len() + batch@.len(),
            forall|i: int| 0 <= i < old(self).nodes@.len() ==> final(self).nodes@[i] == old(self).nodes@[i],
            kd_ordered(final(self).nodes@, res.0 as int, keys@),
            forall|p: usize| in_subtree(final(self).nodes@, res.0 as int, p) <==> batch@.contains(p),
            res.1@.len() == final(self).nodes@.len(),
            res.1@[res.0 as int] == batch@,
            forall|y: int| res.0 <= y < final(self).nodes@.len() ==> view_built(final(self).nodes@, res.1@, y, *choose_axis),
        decreases batch@.len(),
    {
        let n = batch.len();
        let dim = choose_axis(&batch);
        let ghost w = batch;
        proof {
            assert(picks(*choose_axis, batch@, dim)) by {
                assert(w@ == batch@ && choose_axis.ensures((&w,), dim));
            }
        }
        let mut items: Vec<(u64, usize)> = Vec::with_capacity(n);
        let mut i: usize = 0;
        while i < n
            invariant
                n == batch@.len(),
                i <= n,
                dim < 3,
                forall|j: int| 0 <= j < batch@.len() ==> batch@[j] < keys@.len(),
                items@.len() == i,
                forall|j: int| 0 <= j < i ==> items@[j] == (keys@[batch@[j] as int][dim as int], batch@[j]),
            decreases n - i,
        {
            let b = batch[i];
            items.push((keys[b][dim], b));
            i += 1;
        }
        let ghost orig = items@;
        let k = (n - 1) / 2;
        select_by_key(&mut items, k);
        proof {
            lemma_selected(orig, items@, batch@, keys@, dim as int);
        }
        let point = items[k].1;
        let left = points_of(&items, 0, k);
        let right = points_of(&items, k + 1, n);
        let x = self.nodes.len();
        self.nodes.push(ViewNode { point, dim, l: 0, r: 0 });
        let ghost ls = left@;
        let ghost rs = right@;
        let mut l: usize = 0;
        let ghost mut bl: Seq<Seq<usize>> = Seq::empty();
        if k > 0 {
            let (lc, Ghost(g)) = self.new_node(keys, left, choose_axis);
            l = lc;
            proof {
                bl = g;
            }
        }
        let ghost after_left = self.nodes@;
        let mut r: usize = 0;
        let ghost mut br: Seq<Seq<usize>> = Seq::empty();
        if k + 1 < n {
            let (rc, Ghost(g)) = self.new_node(keys, right, choose_axis);
            r = rc;
            proof {
                br = g;
            }
        }
        let ghost after_right = self.nodes@;
        let node = ViewNode { point, dim, l, r };
        self.nodes.set(x, node);
        let ghost b = Seq::new(self.nodes@.len(), |i: int| if i == x { batch@ } else if i < after_left.len() { bl[i] } else { br[i] });
        proof {
            let fin = self.nodes@;
            assert(fin =~= after_right.update(x as int, node));
            assert forall|y: int| x <= y < fin.len() implies view_built(fin, b, y, *choose_axis) by {
                if y == x {
                    assert(b[x as int] == batch@);
                    assert(batch@.contains(point));
                    if l != 0 {
                        assert(b[l as int] == ls);
                        assert forall|p: usize| #[trigger] b[l as int].contains(p) implies batch@.contains(p) by {
                            let j = choose|j: int| 0 <= j < ls.len() && ls[j] == p;
                            assert(items@[j].1 == p);
                        }
                    }
                    if r != 0 {
                        assert(b[r as int] == rs);
                        assert forall|p: usize| #[trigger] b[r as int].contains(p) implies batch@.contains(p) by {
                            let j = choose|j: int| 0 <= j < rs.len() && rs[j] == p;
                            assert(items@[k + 1 + j].1 == p);
                        }
                    }
                } else if y < after_left.len() {
                    assert(after_left[y] == after_right[y]);
                    lemma_view_built_transfer(after_left, bl, fin, b, y, *choose_axis);
                } else {
                    lemma_view_built_transfer(after_right, br, fin, b, y, *choose_axis);
                }
            }
        }
        proof {
            let fin = self.nodes@;
            assert(fin =~= after_right.update(x as int, node));
            if k > 0 {
                if k + 1 < n {
                    lemma_extend(after_left, after_right, l as int, keys@);
                }
                lemma_update_before(after_right, x as int, node, l as int, keys@);
            }
            if k + 1 < n {
                lemma_update_before(after_right, x as int, node, r as int, keys@);
            }
            assert(fin[x as int] == node);
            assert forall|p: usize| l != 0 && #[trigger] in_subtree(fin, l as int, p) implies p < keys@.len()
                && keys@[p as int][dim as int] <= keys@[point as int][dim as int] by {
                if k + 1 < n {
                    assert(in_subtree(after_left, l as int, p));
                } else {
                    assert(in_subtree(after_right, l as int, p));
                }
                assert(left@.contains(p));
                let j = choose|j: int| 0 <= j < left@.len() && left@[j] == p;
                assert(items@[j].0 == keys@[items@[j].1 as int][dim as int]);
                assert(items@[k as int].0 == keys@[items@[k as int].1 as int][dim as int]);
            }
            assert forall|p: usize| r != 0 && #[trigger] in_subtree(fin, r as int, p) implies p < keys@.len()
                && keys@[p as int][dim as int] >= keys@[point as int][dim as int] by {
                assert(in_subtree(after_right, r as int, p));
                assert(right@.contains(p));
                let j = choose|j: int| 0 <= j < right@.len() && right@[j] == p;
                assert(items@[k + 1 + j].0 == keys@[items@[k + 1 + j].1 as int][dim as int]);
                assert(items@[k as int].0 == keys@[items@[k as int].1 as int][dim as int]);
            }
            assert forall|p: usize| in_subtree(fin, x as int, p) <==> batch@.contains(p) by {
                assert(in_subtree(fin, x as int, p) == (point == p || (x < l < fin.len() && in_subtree(fin, l as int, p))
                    || (x < r < fin.len() && in_subtree(fin, r as int, p))));
                if batch@.contains(p) {
                    let j = choose|j: int| 0 <= j < items@.len() && #[trigger] items@[j].1 == p;
                    if j < k {
                        assert(left@[j] == p);
                        assert(left@.contains(p));
                        if k + 1 < n {
                            assert(in_subtree(after_left, l as int, p));
                        }
                    } else if j > k {
                        assert(right@[j - k - 1] == p);
                        assert(right@.contains(p));
                    }
                }
                if l != 0 && in_subtree(fin, l as int, p) {
                    if k + 1 < n {
                        assert(in_subtree(after_left, l as int, p));
                    }
                    assert(left@.contains(p));
                    let j = choose|j: int| 0 <= j < left@.len() && left@[j] == p;
                    assert(items@[j].1 == p);
                }
                if r != 0 && in_subtree(fin, r as int, p) {
                    assert(right@.contains(p));
                    let j = choose|j: int| 0 <= j < right@.len() && right@[j] == p;
                    assert(items@[k + 1 + j].1 == p);
                }
                assert(items@[k as int].1 == point);
            }
            assert(dim < 3);
            assert(point < keys@.len());
            assert(l == 0 || x < l < fin.len());
            assert(r == 0 || x < r < fin.len());
            assert(l != 0 ==> kd_ordered(fin, l as int, keys@));
            assert(r != 0 ==> kd_ordered(fin, r as int, keys@));
            assert(kd_ordered(fin, x as int, keys@));
        }
        (x, Ghost(b))
    }

    /// Builds the tree over view points `0..keys.len()`, whose positions have the per-axis
    /// order keys `keys`; `choose_axis` picks the split axis of a batch of points. Each point
    /// is held by exactly one node.
    pub fn new<F: Fn(&Vec<usize>) -> usize>(keys: &Vec<[u64; 3]>, choose_axis: &F) -> (t: ViewTree)
        requires
            forall|v: &Vec<usize>| choose_axis.requires((v,)),
            forall|v: &Vec<usize>, d: usize| choose_axis.ensures((v,), d) ==> d < 3,
        ensures
            t.nodes@.len() == keys@.len(),
            keys@.len() > 0 ==> kd_ordered(t.nodes@, 0, keys@),
            forall|p: usize| p < keys@.len() ==> in_subtree(t.nodes@, 0, p),
            keys@.len() > 0 ==> exists|b: Seq<Seq<usize>>|
                #![trigger b.len()]
                b.len() == t.nodes@.len() && b[0] == Seq::new(keys@.len(), |i: int| i as usize)
                    && forall|y: int| 0 <= y < b.len() ==> view_built(t.nodes@, b, y, *choose_axis),
    {
        let mut t = ViewTree { nodes: Vec::new() };
        if keys.len() == 0 {
            return t;
        }
        let mut batch: Vec<usize> = Vec::with_capacity(keys.len());
        let mut i: usize = 0;
        while i < keys.len()
            invariant
                i <= keys@.len(),
                batch@.len() == i,
                forall|j: int| 0 <= j < i ==> batch@[j] == j,
            decreases keys@.len() - i,
        {
            batch.push(i);
            i += 1;
        }
        let ghost all = batch@;
        let (_, Ghost(b)) = t.new_node(keys, batch, choose_axis);
        proof {
            assert forall|p: usize| p < keys@.len() implies in_subtree(t.nodes@, 0, p) by {
                assert(all[p as int] == p);
                assert(all.contains(p));
            }
            assert(all =~= Seq::new(keys@.len(), |i: int| i as usize));
        }
        t
    }
}

} // verus!

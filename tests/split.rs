use cg_tracing::bsp::{most_even, split_by_sides};
use cg_tracing::kdtree::{KDNodeType, KDTree, K};

fn next(s: &mut u32) -> u32 {
    *s ^= *s << 13;
    *s ^= *s >> 17;
    *s ^= *s << 5;
    *s
}

fn unit(s: &mut u32) -> f64 {
    next(s) as f64 / 4294967296.0
}

/// An integer that orders as the non-negative float `f` does.
fn key(f: f64) -> u64 {
    f.to_bits()
}

fn depth(t: &KDTree, x: usize) -> usize {
    match &t.nodes[x].data {
        KDNodeType::A(l, r, _) => 1 + depth(t, *l).max(depth(t, *r)),
        KDNodeType::B(_) => 0,
    }
}

#[test]
fn kdtree_over_random_triangles_is_shallow() {
    let mut s: u32 = 2024;
    let (mut lo, mut hi) = (Vec::new(), Vec::new());
    let mut his = Vec::new();
    for _ in 0..1000 {
        let c = [unit(&mut s), unit(&mut s), unit(&mut s)];
        let mut a = [0u64; 3];
        let mut b = [0u64; 3];
        let mut h = [0.0f64; 3];
        for d in 0..3 {
            let p: Vec<f64> = (0..3).map(|_| (c[d] + 0.02 * unit(&mut s)).min(1.0)).collect();
            let mn = p.iter().cloned().fold(f64::MAX, f64::min);
            let mx = p.iter().cloned().fold(f64::MIN, f64::max);
            a[d] = key(mn);
            b[d] = key(mx);
            h[d] = mx;
        }
        lo.push(a);
        hi.push(b);
        his.push(h);
    }
    let axis = |v: &Vec<usize>| -> usize {
        let mut avg = [0.0; 3];
        let mut var = [0.0; 3];
        for &i in v.iter() {
            (0..3).for_each(|d| avg[d] += his[i][d]);
        }
        (0..3).for_each(|d| avg[d] /= v.len() as f64);
        for &i in v.iter() {
            (0..3).for_each(|d| var[d] += (his[i][d] - avg[d]).powi(2));
        }
        (0..3).max_by(|&x, &y| var[x].partial_cmp(&var[y]).unwrap()).unwrap()
    };
    let mut tree = KDTree { nodes: Vec::new() };
    tree.build(&lo, &hi, &axis);
    let bound = ((1000.0f64 / K as f64).log2().ceil() as usize) + 8;
    assert!(depth(&tree, 0) <= bound, "depth {} over {}", depth(&tree, 0), bound);
    for n in &tree.nodes {
        if let KDNodeType::B(v) = &n.data {
            assert!(v.len() <= 1000);
        }
    }
}

#[test]
fn kdtree_children_are_the_two_sides() {
    let lo: Vec<[u64; 3]> = (0..40u64).map(|i| [i, 0, 0]).collect();
    let hi: Vec<[u64; 3]> = (0..40u64).map(|i| [i + 1, 0, 0]).collect();
    let mut tree = KDTree { nodes: Vec::new() };
    tree.build(&lo, &hi, &|_: &Vec<usize>| 0);
    // hi keys 1..=40: the median (index 20) is 21
    assert_eq!(tree.nodes[0].key, 21);
    let (l, r) = match tree.nodes[0].data {
        KDNodeType::A(l, r, 0) => (l, r),
        _ => panic!("expected a split on axis 0"),
    };
    let leaves = |x: usize| -> Vec<usize> {
        let mut out = Vec::new();
        let mut st = vec![x];
        while let Some(y) = st.pop() {
            match &tree.nodes[y].data {
                KDNodeType::A(a, b, _) => {
                    st.push(*b);
                    st.push(*a);
                }
                KDNodeType::B(v) => out.extend(v.iter().cloned()),
            }
        }
        out
    };
    let mut left = leaves(l);
    left.sort();
    left.dedup();
    assert_eq!(left, (0..21).collect::<Vec<usize>>());
    let mut right = leaves(r);
    right.sort();
    right.dedup();
    assert_eq!(right, (20..40).collect::<Vec<usize>>());
}

#[test]
fn split_by_sides_duplicates_cut_triangles() {
    let (l, r) = split_by_sides(&vec![7, 8, 9, 10], &vec![-1, 0, 1, -1]);
    assert_eq!(l, vec![7, 8, 10]);
    assert_eq!(r, vec![8, 9]);
}

#[test]
fn most_even_prefers_the_last_of_equals() {
    assert_eq!(most_even(&vec![(5, 1), (2, 4), (4, 2), (9, 9), (1, 1), (7, 0)]), 4);
    assert_eq!(most_even(&vec![(3, 1)]), 0);
    assert_eq!(most_even(&vec![(1, 3), (3, 1)]), 1);
}

#[test]
fn kdtree_median_of_unsorted_keys() {
    // hi keys in scrambled order: 37 * i mod 41 for i in 0..40 is a permutation of 1..=40
    let hi: Vec<[u64; 3]> = (0..40u64).map(|i| [(37 * (i + 1)) % 41, 0, 0]).collect();
    let lo = hi.clone();
    let mut tree = KDTree { nodes: Vec::new() };
    tree.build(&lo, &hi, &|_: &Vec<usize>| 0);
    assert_eq!(tree.nodes[0].key, 21);
}

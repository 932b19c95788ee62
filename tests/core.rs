use cg_tracing::image::Image;
use cg_tracing::kdtree::{KDNodeType, KDTree};
use cg_tracing::mesh::vertex_table;
use cg_tracing::path::{refraction_splits, roulette_applies, step, Material, PathState};
use cg_tracing::pic::Pic;
use cg_tracing::rng::{photon_seed, pixel_seed, view_point_seed, Rng};
use cg_tracing::schedule::{pixel_order, shuffled_pixels};
use std::collections::HashSet;

fn xorshift(mut x: u32) -> u32 {
    x ^= x << 13;
    x ^= x >> 17;
    x ^= x << 5;
    x
}

#[test]
fn rng_zero_seed_is_replaced() {
    assert_eq!(Rng::new(0).seed, 233);
    assert_eq!(Rng::new(7).seed, 7);
}

#[test]
fn rng_steps_xorshift32() {
    let mut r = Rng::new(1);
    assert_eq!(r.gen_u32(), 270369);
    assert_eq!(r.seed, 270369);
    let mut s = Rng::new(0xdead_beef);
    let mut x: u32 = 0xdead_beef;
    for _ in 0..1000 {
        x = xorshift(x);
        let v = s.gen_u32();
        assert_eq!(v, x);
        assert_ne!(v, 0);
    }
}

#[test]
fn rng_same_seed_same_stream() {
    let mut a = Rng::new(12345);
    let mut b = Rng::new(12345);
    for _ in 0..100 {
        assert_eq!(a.gen_u32(), b.gen_u32());
    }
}

#[test]
fn seeds_of_pixels_and_photons() {
    assert_eq!(pixel_seed(3, 2, 10), 23);
    assert_eq!(view_point_seed(3, 2, 10, 5, 2), 123);
    assert_eq!(photon_seed(3, 8, 5), 29);
    assert_eq!(pixel_seed(0, 1, 1usize << 32), 0);
    let mut seen = HashSet::new();
    for y in 0..6 {
        for x in 0..7 {
            assert!(seen.insert(pixel_seed(x, y, 7)));
        }
    }
}

#[test]
fn pic_new_set_get_wraps() {
    let mut p = Pic::new(3, 2);
    assert_eq!(p.c.len(), 6);
    assert_eq!(p.get(1, 1), (0, 0, 0, 0));
    p.set(2, 1, (10, 20, 30));
    assert_eq!(p.c[5], (10, 20, 30, 0));
    // y counts from the top in `get`, from the bottom in `set`
    assert_eq!(p.get(2, 0), (10, 20, 30, 0));
    assert_eq!(p.get(-1, 0), (10, 20, 30, 0));
    assert_eq!(p.get(5, -2), (10, 20, 30, 0));
    assert_eq!(p.get(2, 1), (0, 0, 0, 0));
    let d = Pic::default();
    assert_eq!((d.w, d.h, d.c.len()), (0, 0, 0));
}

#[test]
fn image_get_repeat_wraps() {
    let mut im = Image::new(4, 3, (0.0f64, 0.0, 0.0, 0.0));
    im.set(1, 2, (0.5, 0.25, 1.0, 0.0));
    assert_eq!(im.get(1, 2), (0.5, 0.25, 1.0, 0.0));
    assert_eq!(im.get_repeat(1, 2), (0.5, 0.25, 1.0, 0.0));
    assert_eq!(im.get_repeat(5, -1), (0.5, 0.25, 1.0, 0.0));
    assert_eq!(im.get_repeat(-3, 5), (0.5, 0.25, 1.0, 0.0));
    assert_eq!(im.get_repeat(-4, -1), (0.0, 0.0, 0.0, 0.0));
    assert_eq!(im.c[2 * 4 + 1], (0.5, 0.25, 1.0, 0.0));
}

#[test]
fn pixel_order_is_column_major() {
    let v = pixel_order(2, 3);
    assert_eq!(v, vec![(0, 0), (0, 1), (0, 2), (1, 0), (1, 1), (1, 2)]);
    assert!(pixel_order(0, 5).is_empty());
}

#[test]
fn shuffled_pixels_hold_each_pixel_once() {
    let v = shuffled_pixels(17, 9);
    assert_eq!(v.len(), 17 * 9);
    let s: HashSet<(usize, usize)> = v.iter().cloned().collect();
    assert_eq!(s.len(), 17 * 9);
    for x in 0..17 {
        for y in 0..9 {
            assert!(s.contains(&(x, y)));
        }
    }
}

#[test]
fn path_steps() {
    assert_eq!(step(false, 3, 10, true), (PathState::Escaped, 3));
    assert_eq!(step(true, 10, 10, true), (PathState::TerminatedByDepth, 11));
    assert_eq!(step(true, 5, 10, false), (PathState::TerminatedByRR, 6));
    assert_eq!(step(true, 5, 10, true), (PathState::Sampling, 6));
    assert_eq!(step(true, 4, 10, false), (PathState::Sampling, 5));
    assert!(!roulette_applies(5));
    assert!(roulette_applies(6));
    assert!(refraction_splits(2));
    assert!(!refraction_splits(3));
    assert_ne!(Material::Diffuse, Material::Specular);
}

fn leaf_of(tree: &KDTree, t: usize, lo: &[[u64; 3]], hi: &[[u64; 3]]) -> bool {
    let mut stack = vec![0usize];
    while let Some(x) = stack.pop() {
        match &tree.nodes[x].data {
            KDNodeType::B(v) => {
                if v.contains(&t) {
                    return true;
                }
            }
            KDNodeType::A(l, r, d) => {
                let k = tree.nodes[x].key;
                if lo[t][*d] < k {
                    stack.push(*l);
                }
                if hi[t][*d] >= k {
                    stack.push(*r);
                }
            }
        }
    }
    false
}

#[test]
fn kdtree_finds_every_triangle() {
    let mut lo = Vec::new();
    let mut hi = Vec::new();
    let mut s: u32 = 99;
    for _ in 0..1000 {
        let mut a = [0u64; 3];
        let mut b = [0u64; 3];
        for d in 0..3 {
            s = xorshift(s);
            let p = (s % 1000) as u64;
            s = xorshift(s);
            let q = p + (s % 20) as u64;
            a[d] = p;
            b[d] = q;
        }
        lo.push(a);
        hi.push(b);
    }
    let mut tree = KDTree { nodes: Vec::new() };
    tree.build(&lo, &hi, &|v: &Vec<usize>| v.len() % 3);
    assert!(tree.nodes.len() > 1);
    for t in 0..1000 {
        assert!(leaf_of(&tree, t, &lo, &hi));
    }
    for n in &tree.nodes {
        if let KDNodeType::B(v) = &n.data {
            assert!(!v.is_empty() || tree.nodes.len() == 1);
        }
    }
}

#[test]
fn kdtree_small_batch_is_one_leaf() {
    let lo = vec![[0u64, 0, 0]; 16];
    let hi = vec![[1u64, 1, 1]; 16];
    let mut tree = KDTree { nodes: Vec::new() };
    tree.build(&lo, &hi, &|_: &Vec<usize>| 0);
    assert_eq!(tree.nodes.len(), 1);
    match &tree.nodes[0].data {
        KDNodeType::B(v) => assert_eq!(v, &(0..16).collect::<Vec<usize>>()),
        _ => panic!("expected a leaf"),
    }
}

#[test]
fn kdtree_no_progress_makes_a_leaf() {
    // every triangle spans the split key, so both sides would hold all of them
    let lo = vec![[0u64, 0, 0]; 40];
    let hi = vec![[10u64, 10, 10]; 40];
    let mut tree = KDTree { nodes: Vec::new() };
    tree.build(&lo, &hi, &|_: &Vec<usize>| 1);
    assert_eq!(tree.nodes.len(), 1);
}

#[test]
fn kdtree_splits_on_median() {
    let lo: Vec<[u64; 3]> = (0..40u64).map(|i| [i, 0, 0]).collect();
    let hi: Vec<[u64; 3]> = (0..40u64).map(|i| [i, 0, 0]).collect();
    let mut tree = KDTree { nodes: Vec::new() };
    tree.build(&lo, &hi, &|_: &Vec<usize>| 0);
    assert_eq!(tree.nodes[0].key, 20);
    match tree.nodes[0].data {
        KDNodeType::A(l, r, d) => {
            assert_eq!(d, 0);
            assert!(l > 0 && r > l);
        }
        _ => panic!("expected a split"),
    }
}

#[test]
fn vertex_table_shares_corners() {
    let faces = vec![
        ((1, 0, 1), (2, 0, 2), (3, 0, 3)),
        ((3, 0, 3), (2, 0, 2), (4, 0, 4)),
        ((1, 5, 1), (2, 0, 2), (4, 0, 4)),
    ];
    let (slots, tri) = vertex_table(&faces);
    assert_eq!(slots, vec![(1, 0, 1), (2, 0, 2), (3, 0, 3), (4, 0, 4), (1, 5, 1)]);
    assert_eq!(tri, vec![(0, 1, 2), (2, 1, 3), (4, 1, 3)]);
}

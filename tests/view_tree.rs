use cg_tracing::sppm::ViewTree;

fn next(s: &mut u32) -> u32 {
    *s ^= *s << 13;
    *s ^= *s >> 17;
    *s ^= *s << 5;
    *s
}

fn subtree(t: &ViewTree, x: usize, out: &mut Vec<usize>) {
    out.push(t.nodes[x].point);
    if t.nodes[x].l != 0 {
        subtree(t, t.nodes[x].l, out);
    }
    if t.nodes[x].r != 0 {
        subtree(t, t.nodes[x].r, out);
    }
}

#[test]
fn view_tree_holds_each_point_once_in_kd_order() {
    let mut s: u32 = 7;
    let keys: Vec<[u64; 3]> =
        (0..500).map(|_| [next(&mut s) as u64 % 100, next(&mut s) as u64 % 100, next(&mut s) as u64]).collect();
    let t = ViewTree::new(&keys, &|v: &Vec<usize>| v.len() % 3);
    assert_eq!(t.nodes.len(), 500);
    let mut all = Vec::new();
    subtree(&t, 0, &mut all);
    all.sort();
    assert_eq!(all, (0..500).collect::<Vec<usize>>());
    for n in &t.nodes {
        let k = keys[n.point][n.dim];
        if n.l != 0 {
            let mut v = Vec::new();
            subtree(&t, n.l, &mut v);
            assert!(v.iter().all(|&p| keys[p][n.dim] <= k));
        }
        if n.r != 0 {
            let mut v = Vec::new();
            subtree(&t, n.r, &mut v);
            assert!(v.iter().all(|&p| keys[p][n.dim] >= k));
        }
    }
}

#[test]
fn view_tree_of_nothing_is_empty() {
    let t = ViewTree::new(&Vec::new(), &|_: &Vec<usize>| 0);
    assert!(t.nodes.is_empty());
}

#[test]
fn view_tree_root_is_median() {
    let keys: Vec<[u64; 3]> = (0..7u64).rev().map(|i| [i, 0, 0]).collect();
    let t = ViewTree::new(&keys, &|_: &Vec<usize>| 0);
    assert_eq!(keys[t.nodes[0].point][0], 3);
    assert_eq!(t.nodes[0].dim, 0);
}

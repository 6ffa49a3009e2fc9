use phylo_tree::child_swap::swap_children;
use phylo_tree::phylo2vec::phylo2vec;
use phylo_tree::tree::Tree;

fn weighted(a: &u64, b: &u64, l: usize, r: usize) -> u64 {
    a * (l as u64 + 2) + b * (r as u64 + 3)
}

#[test]
fn full_pass_works_up_from_the_tips() {
    let tree = phylo2vec(vec![0, 0, 0]);
    // 4 = (0, 3), 5 = (4, 2), 6 = (5, 1)
    let mut data: Vec<u64> = vec![1, 1, 1, 1, 0, 0, 0];
    tree.update_likelihood_postorder(tree.get_root(), &mut data, |a: &u64, b: &u64, _l, _r| a + b + 1);
    assert_eq!(data, vec![1, 1, 1, 1, 3, 5, 7]);
}

#[test]
fn full_pass_below_an_inner_node() {
    let tree = phylo2vec(vec![0, 0, 0]);
    let mut data: Vec<u64> = vec![1, 1, 1, 1, 0, 0, 0];
    tree.update_likelihood_postorder(tree.get_node(5), &mut data, |a: &u64, b: &u64, _l, _r| a + b + 1);
    assert_eq!(data, vec![1, 1, 1, 1, 3, 5, 0]);
    let mut at_tip: Vec<u64> = vec![1, 1, 1, 1, 0, 0, 0];
    tree.update_likelihood_postorder(tree.get_node(2), &mut at_tip, |a: &u64, b: &u64, _l, _r| a + b + 1);
    assert_eq!(at_tip, vec![1, 1, 1, 1, 0, 0, 0]);
}

#[test]
fn combine_is_told_the_children() {
    let tree = phylo2vec(vec![0, 0, 0]);
    let mut data: Vec<u64> = vec![1, 2, 3, 4, 0, 0, 0];
    tree.update_likelihood_postorder(tree.get_root(), &mut data, weighted);
    // 4 = 1 * 2 + 4 * 6, 5 = 26 * 6 + 3 * 5, 6 = 171 * 7 + 2 * 4
    assert_eq!(data, vec![1, 2, 3, 4, 26, 171, 1205]);
}

#[test]
fn rootward_pass_takes_the_children_as_they_stand() {
    let tree = phylo2vec(vec![0, 0, 0]);
    let mut data: Vec<u64> = vec![1, 1, 1, 1, 100, 100, 100];
    tree.update_likelihood_rootward(tree.get_node(5), &mut data, |a: &u64, b: &u64, _l, _r| a + b + 1);
    assert_eq!(data, vec![1, 1, 1, 1, 100, 102, 104]);
    let mut from_tip: Vec<u64> = vec![1, 1, 1, 1, 100, 100, 100];
    tree.update_likelihood_rootward(tree.get_node(3), &mut from_tip, |a: &u64, b: &u64, _l, _r| a + b + 1);
    assert_eq!(from_tip, vec![1, 1, 1, 1, 3, 5, 7]);
}

#[test]
fn rootward_pass_agrees_with_full_pass() {
    let tree = phylo2vec(vec![0, 2, 4, 1, 3, 6]);
    let n = tree.nodes.len();
    let mut settled: Vec<u64> = (0..n as u64).map(|i| i + 1).collect();
    tree.update_likelihood_postorder(tree.get_root(), &mut settled, weighted);
    for c in 0..n {
        let mut start = settled.clone();
        for a in tree_path(&tree, c) {
            start[a] = 999;
        }
        if tree.nodes[c].tip {
            start[c] = 5;
        }
        let mut full = start.clone();
        tree.update_likelihood_postorder(tree.get_root(), &mut full, weighted);
        let mut local = start.clone();
        tree.update_likelihood_rootward(tree.get_node(c), &mut local, weighted);
        assert_eq!(local, full);
    }
}

fn tree_path(tree: &Tree, c: usize) -> Vec<usize> {
    let mut out = Vec::new();
    let mut it = tree.iter(tree.get_node(c));
    while let Some(node) = it.next() {
        out.push(node.index);
    }
    out
}

#[test]
fn structure_checks() {
    let tree = phylo2vec(vec![0, 1, 3]);
    assert!(tree.is_well_formed());
    assert!(tree.is_strictly_binary());
    let mut stale = phylo2vec(vec![0, 1, 3]);
    stale.nodes[0].depth = 5;
    assert!(!stale.is_well_formed());
    let mut forest = phylo2vec(vec![0]);
    forest.nodes[0].parent = None;
    assert!(!forest.is_well_formed());
    let mut lopsided = Tree::new(vec![0]);
    lopsided.add(2, None);
    lopsided.add(0, Some(2));
    assert!(!lopsided.is_strictly_binary());
    lopsided.nodes[1] = lopsided.nodes[0];
    lopsided.nodes[1].index = 1;
    assert!(!lopsided.is_well_formed());
    let mut chain = Tree::new(vec![]);
    chain.add(0, None);
    assert!(chain.is_well_formed());
    assert!(chain.is_strictly_binary());
    assert!(Tree::new(vec![0]).is_strictly_binary());
    assert!(!Tree::new(vec![0]).is_well_formed());
}

#[test]
fn rootward_pass_after_a_swap_agrees_with_full_pass() {
    let tree = phylo2vec(vec![0, 2, 4, 1, 3, 6]);
    let n = tree.nodes.len();
    let mut settled: Vec<u64> = (0..n as u64).map(|i| i + 1).collect();
    tree.update_likelihood_postorder(tree.get_root(), &mut settled, weighted);
    for node in 0..n {
        if tree.nodes[node].tip || tree.nodes[node].parent.is_none() {
            continue;
        }
        let swapped = swap_children(&tree, node);
        let mut full = settled.clone();
        swapped.update_likelihood_postorder(swapped.get_root(), &mut full, weighted);
        let mut local = settled.clone();
        swapped.update_likelihood_rootward(swapped.get_node(node), &mut local, weighted);
        assert_eq!(local, full);
        assert_ne!(local, settled);
    }
}

use phylo_tree::child_swap::{swap_children, ChildSwap};
use phylo_tree::moves::{perturb_vector, ExactMove, PeturbVec, TreeMove, TreeState};
use phylo_tree::phylo2vec::{is_valid_vector, phylo2vec};

fn state(v: Vec<usize>) -> TreeState<u8, i32> {
    TreeState { top: phylo2vec(v), mat: 7, ll: -3, changed_nodes: None }
}

#[test]
fn no_changes_against_itself() {
    let a = phylo2vec(vec![0, 1, 3]);
    let b = phylo2vec(vec![0, 1, 3]);
    assert_eq!(a.find_changes(&a), Some(vec![]));
    assert_eq!(a.find_changes(&b), Some(vec![]));
}

#[test]
fn changes_name_the_nodes_with_another_ancestry() {
    let a = phylo2vec(vec![0, 0, 0]);
    let b = phylo2vec(vec![0, 0, 1]);
    // parents in a: 0:4, 1:6, 2:5, 3:4, 4:5, 5:6; in b: 0:5, 1:4, 2:5, 3:4, 4:6, 5:6
    assert_eq!(a.find_changes(&b), Some(vec![0, 1, 3, 4]));
    assert_eq!(b.find_changes(&a), Some(vec![0, 1, 3, 4]));
    let c = phylo2vec(vec![0, 0, 3]);
    // parents in c: 0:4, 1:6, 2:4, 3:5, 4:5, 5:6
    assert_eq!(a.find_changes(&c), Some(vec![2, 3]));
}

#[test]
fn changes_ignore_links_that_lead_nowhere() {
    let a = phylo2vec(vec![0]);
    let mut b = phylo2vec(vec![0]);
    b.nodes[2].parent = Some(9);
    assert_eq!(a.find_changes(&b), Some(vec![]));
    b.nodes[0].depth = 0;
    assert_eq!(a.find_changes(&b), Some(vec![0]));
}

#[test]
fn changes_between_trees_of_different_size() {
    let a = phylo2vec(vec![0, 0]);
    let b = phylo2vec(vec![0, 0, 0]);
    // parents in a: 0:3, 1:4, 2:3, 3:4; in b: 0:4, 1:6, 2:5, 3:4, 4:5
    assert_eq!(a.find_changes(&b), Some(vec![0, 1, 2, 3, 4]));
}

#[test]
fn exact_move_decodes_its_target() {
    let ts = state(vec![0, 0, 0]);
    let mv = ExactMove { target_vector: vec![0, 0, 3] };
    let out = mv.generate(&ts);
    assert_eq!(out.top.tree_vec, vec![0, 0, 3]);
    assert_eq!(out.top.nodes, phylo2vec(vec![0, 0, 3]).nodes);
    assert_eq!(out.changed_nodes, Some(vec![2, 3]));
    assert_eq!(out.mat, 7);
    assert_eq!(out.ll, -3);
    assert_eq!(ts.top.tree_vec, vec![0, 0, 0]);
    assert_eq!(ts.changed_nodes, None);
}

#[test]
fn perturb_vector_follows_positions_and_coins() {
    let v = vec![0, 0, 1, 4, 0];
    assert_eq!(perturb_vector(&v, &vec![], &vec![]), v);
    assert_eq!(perturb_vector(&v, &vec![2], &vec![true]), vec![0, 0, 2, 4, 0]);
    assert_eq!(perturb_vector(&v, &vec![2], &vec![false]), vec![0, 0, 0, 4, 0]);
    assert_eq!(perturb_vector(&v, &vec![3], &vec![true]), v);
    assert_eq!(perturb_vector(&v, &vec![3], &vec![false]), vec![0, 0, 1, 3, 0]);
    assert_eq!(perturb_vector(&v, &vec![4], &vec![false]), v);
    assert_eq!(perturb_vector(&v, &vec![4], &vec![true]), vec![0, 0, 1, 4, 1]);
    assert_eq!(perturb_vector(&v, &vec![0], &vec![true]), v);
    assert_eq!(perturb_vector(&v, &vec![0], &vec![false]), v);
    assert_eq!(perturb_vector(&v, &vec![1], &vec![true]), v);
    assert_eq!(perturb_vector(&v, &vec![1], &vec![false]), v);
    assert_eq!(perturb_vector(&v, &vec![9], &vec![true]), v);
    assert_eq!(
        perturb_vector(&v, &vec![4, 2, 3, 0], &vec![true, true, false, true]),
        vec![0, 0, 2, 3, 1]
    );
    assert_eq!(perturb_vector(&v, &vec![2, 2], &vec![true, true]), vec![0, 0, 2, 4, 0]);
    assert_eq!(perturb_vector(&vec![0, 1], &vec![1], &vec![true]), vec![0, 1]);
    assert_eq!(perturb_vector(&vec![0, 1], &vec![1], &vec![false]), vec![0, 0]);
}

#[test]
fn perturbation_keeps_the_vector_legal() {
    let start = vec![0, 0, 1, 2, 3, 4, 5, 6];
    for n in [0usize, 1, 3, 8, 20] {
        let mut ts = state(start.clone());
        for _ in 0..50 {
            let before = ts.top.tree_vec.clone();
            let out = PeturbVec { n }.generate(&ts);
            let after = out.top.tree_vec.clone();
            assert_eq!(after.len(), before.len());
            assert_eq!(after[0], before[0]);
            assert!(is_valid_vector(&after));
            let mut moved = 0;
            for i in 1..after.len() {
                assert!(after[i] <= 2 * (i - 1));
                assert!(after[i] + 1 >= before[i] && after[i] <= before[i] + 1);
                if after[i] != before[i] {
                    moved += 1;
                }
            }
            assert!(moved <= n);
            assert_eq!(out.top.nodes, phylo2vec(after.clone()).nodes);
            assert_eq!(out.changed_nodes, ts.top.find_changes(&out.top));
            assert_eq!(out.mat, 7);
            assert_eq!(out.ll, -3);
            assert_eq!(ts.top.tree_vec, before);
            ts = out;
        }
    }
}

#[test]
fn perturbation_of_nothing_changes_nothing() {
    let ts = state(vec![0, 0, 1]);
    let out = PeturbVec { n: 0 }.generate(&ts);
    assert_eq!(out.top.tree_vec, vec![0, 0, 1]);
    assert_eq!(out.changed_nodes, Some(vec![]));
}

#[test]
fn swap_of_a_left_child() {
    let top = phylo2vec(vec![0, 0, 0]);
    let out = swap_children(&top, 5);
    let parents: Vec<Option<usize>> = out.nodes.iter().map(|n| n.parent).collect();
    assert_eq!(parents, vec![Some(4), Some(5), Some(6), Some(4), Some(5), Some(6), None]);
    assert_eq!(out.nodes[4].children, (Some(0), Some(3)));
    assert_eq!(out.nodes[5].children, (Some(4), Some(1)));
    assert_eq!(out.nodes[6].children, (Some(5), Some(2)));
    let depths: Vec<usize> = out.nodes.iter().map(|n| n.depth).collect();
    assert_eq!(depths, vec![3, 2, 1, 3, 2, 1, 0]);
    assert_eq!(out.tree_vec, vec![0, 2, 0]);
    assert_eq!(out.max_depth, 3);

    let low = swap_children(&top, 4);
    let parents: Vec<Option<usize>> = low.nodes.iter().map(|n| n.parent).collect();
    assert_eq!(parents, vec![Some(4), Some(6), Some(4), Some(5), Some(5), Some(6), None]);
    assert_eq!(low.nodes[4].children, (Some(0), Some(2)));
    assert_eq!(low.nodes[5].children, (Some(4), Some(3)));
    let depths: Vec<usize> = low.nodes.iter().map(|n| n.depth).collect();
    assert_eq!(depths, vec![3, 1, 3, 2, 2, 1, 0]);
    assert_eq!(low.tree_vec, vec![0, 0, 3]);
    assert_eq!(top.tree_vec, vec![0, 0, 0]);
}

#[test]
fn swap_of_a_right_child() {
    let top = phylo2vec(vec![0, 1, 3]);
    // 4 = (1, 2), 5 = (4, 3), 6 = (0, 5)
    let out = swap_children(&top, 5);
    let parents: Vec<Option<usize>> = out.nodes.iter().map(|n| n.parent).collect();
    assert_eq!(parents, vec![Some(5), Some(4), Some(4), Some(5), Some(6), Some(6), None]);
    assert_eq!(out.nodes[5].children, (Some(0), Some(3)));
    assert_eq!(out.nodes[6].children, (Some(4), Some(5)));
    let depths: Vec<usize> = out.nodes.iter().map(|n| n.depth).collect();
    assert_eq!(depths, vec![2, 2, 2, 2, 1, 1, 0]);
    assert_eq!(out.tree_vec, vec![0, 1, 0]);
    assert_eq!(out.max_depth, 2);
}

#[test]
fn child_swap_reports_node_and_parent() {
    let mut ts = state(vec![0, 2, 4, 1, 3]);
    for _ in 0..60 {
        let out = ChildSwap {}.generate(&ts);
        let changed = out.changed_nodes.clone().unwrap();
        assert_eq!(changed.len(), 2);
        let (node, parent) = (changed[0], changed[1]);
        assert!(!ts.top.nodes[node].tip);
        assert_eq!(ts.top.nodes[node].parent, Some(parent));
        assert_eq!(out.top.nodes, swap_children(&ts.top, node).nodes);
        for x in 0..ts.top.nodes.len() {
            let relinked = ts.top.nodes[x].children != out.top.nodes[x].children;
            assert_eq!(relinked, x == node || x == parent);
        }
        assert_eq!(out.top.tree_vec, out.top.encode());
        assert!(is_valid_vector(&out.top.tree_vec));
        for n in &out.top.nodes {
            match n.parent {
                Some(p) => assert_eq!(n.depth, out.top.nodes[p].depth + 1),
                None => assert_eq!(n.depth, 0),
            }
        }
        assert_eq!(out.mat, 7);
        assert_eq!(out.ll, -3);
        ts = out;
    }
}

#[test]
fn child_swap_on_the_smallest_tree_that_allows_it() {
    let ts = state(vec![0, 0]);
    // 3 = (0, 2), 4 = (3, 1): only node 3 can be picked
    let out = ChildSwap {}.generate(&ts);
    assert_eq!(out.changed_nodes, Some(vec![3, 4]));
    assert_eq!(out.top.nodes[3].children, (Some(0), Some(1)));
    assert_eq!(out.top.nodes[4].children, (Some(3), Some(2)));
    assert_eq!(out.top.tree_vec, vec![0, 2]);
}

use phylo_tree::node::{Handedness, Node};
use phylo_tree::phylo2vec::phylo2vec;
use phylo_tree::tree::Tree;

fn indices(nodes: &Vec<&Node>) -> Vec<usize> {
    nodes.iter().map(|n| n.index).collect()
}

#[test]
fn new_tree_has_unregistered_slots() {
    let tree = Tree::new(vec![0, 0]);
    assert_eq!(tree.nodes.len(), 5);
    assert_eq!(tree.tree_vec, vec![0, 0]);
    assert_eq!(tree.max_depth, 0);
    assert_eq!(tree.leaf_permutations, vec![0, 1, 2]);
    for n in &tree.nodes {
        assert_eq!(*n, Node::default());
    }
}

#[test]
fn node_default_and_new() {
    let d = Node::default();
    assert_eq!(d.parent, None);
    assert_eq!(d.children, (None, None));
    assert_eq!(d.index, 0);
    assert_eq!(d.depth, 0);
    assert!(!d.tip);
    let n = Node::new(Some(2), (Some(0), None), 1, 4);
    assert_eq!(n.parent, Some(2));
    assert_eq!(n.children, (Some(0), None));
    assert_eq!(n.index, 1);
    assert_eq!(n.depth, 4);
    assert!(!n.tip);
    assert!(Node::new(None, (None, None), 0, 0).tip);
}

#[test]
fn new_child_fills_left_then_right() {
    let mut n = Node::new(None, (None, None), 7, 0);
    n.new_child(3);
    assert_eq!(n.children, (Some(3), None));
    assert!(!n.tip);
    n.new_child(5);
    assert_eq!(n.children, (Some(3), Some(5)));
}

#[test]
fn remove_child_keeps_the_left_slot_filled() {
    let mut n = Node::new(None, (Some(3), Some(5)), 7, 0);
    n.remove_child(3);
    assert_eq!(n.children, (Some(5), None));
    assert!(!n.tip);
    n.remove_child(5);
    assert_eq!(n.children, (None, None));
    assert!(n.tip);
    let mut m = Node::new(None, (Some(3), Some(5)), 7, 0);
    m.remove_child(5);
    assert_eq!(m.children, (Some(3), None));
}

#[test]
fn add_registers_nodes() {
    let mut tree = Tree::new(vec![0]);
    tree.add(2, None);
    assert_eq!(tree.get_node(2).unwrap().depth, 0);
    assert_eq!(tree.get_node(2).unwrap().parent, None);
    assert!(tree.get_node(2).unwrap().tip);
    tree.add(0, Some(2));
    assert_eq!(tree.get_node(2).unwrap().children, (Some(0), None));
    assert!(!tree.get_node(2).unwrap().tip);
    tree.add(1, Some(2));
    assert_eq!(tree.get_node(2).unwrap().children, (Some(0), Some(1)));
    assert_eq!(tree.get_node(0).unwrap().parent, Some(2));
    assert_eq!(tree.get_node(1).unwrap().parent, Some(2));
    assert_eq!(tree.get_node(1).unwrap().depth, 1);
    assert_eq!(tree.get_node(1).unwrap().index, 1);
    assert!(tree.get_node(1).unwrap().tip);
    assert_eq!(tree.nodes, phylo2vec(vec![0]).nodes);
}

#[test]
fn relocate_moves_a_leaf() {
    let mut tree = phylo2vec(vec![0, 0]);
    // 3 = (0, 2), 4 = (3, 1)
    assert_eq!(tree.get_node(3).unwrap().children, (Some(0), Some(2)));
    assert_eq!(tree.get_node(4).unwrap().children, (Some(3), Some(1)));
    tree.relocate(0, 1);
    assert_eq!(tree.get_node(3).unwrap().children, (Some(2), None));
    assert_eq!(tree.get_node(0).unwrap().parent, Some(1));
    assert_eq!(tree.get_node(1).unwrap().children, (Some(0), None));
    assert!(!tree.get_node(1).unwrap().tip);
    assert_eq!(tree.get_node(0).unwrap().depth, 2);
    assert_eq!(tree.get_node(2).unwrap().depth, 2);
    assert!(tree.is_well_formed());
}

#[test]
fn relocate_leaves_depths_below_stale() {
    let mut tree = phylo2vec(vec![0, 0, 0]);
    // 4 = (0, 3), 5 = (4, 2), 6 = (5, 1)
    tree.relocate(2, 1);
    assert!(tree.is_well_formed());
    tree.relocate(4, 2);
    assert_eq!(tree.get_node(4).unwrap().parent, Some(2));
    assert_eq!(tree.get_node(4).unwrap().depth, 3);
    assert_eq!(tree.get_node(0).unwrap().depth, 3);
    assert_eq!(tree.get_node(5).unwrap().children, (None, None));
    assert!(tree.get_node(5).unwrap().tip);
    assert!(!tree.is_well_formed());
    tree.refresh_depths();
    assert!(tree.is_well_formed());
    let depths: Vec<usize> = tree.nodes.iter().map(|n| n.depth).collect();
    assert_eq!(depths, vec![4, 1, 2, 4, 3, 1, 0]);
}

#[test]
fn relocating_a_subtree_and_refreshing() {
    let mut tree = phylo2vec(vec![0, 2, 4, 1]);
    // 5 = (1, 4), 6 = (0, 5), 7 = (6, 2), 8 = (7, 3)
    tree.relocate(2, 3);
    tree.relocate(5, 7);
    assert!(!tree.is_well_formed());
    tree.refresh_depths();
    assert!(tree.is_well_formed());
    let parents: Vec<Option<usize>> = tree.nodes.iter().map(|n| n.parent).collect();
    assert_eq!(
        parents,
        vec![Some(6), Some(5), Some(3), Some(8), Some(5), Some(7), Some(7), Some(8), None]
    );
    let depths: Vec<usize> = tree.nodes.iter().map(|n| n.depth).collect();
    assert_eq!(depths, vec![3, 3, 2, 1, 3, 2, 2, 1, 0]);
}

#[test]
fn refreshing_counts_links_and_stops() {
    let mut tree = phylo2vec(vec![0]);
    tree.nodes[2].parent = Some(0);
    tree.nodes[1].parent = Some(7);
    tree.refresh_depths();
    let depths: Vec<usize> = tree.nodes.iter().map(|n| n.depth).collect();
    assert_eq!(depths, vec![3, 0, 3]);
    let mut good = phylo2vec(vec![0, 2, 4, 1]);
    let before = good.nodes.clone();
    good.refresh_depths();
    assert_eq!(good.nodes, before);
}

#[test]
fn adding_node_by_node_gives_a_well_formed_tree() {
    let mut tree = Tree::new(vec![0, 0]);
    assert!(!tree.is_well_formed());
    tree.add(4, None);
    tree.add(3, Some(4));
    tree.add(1, Some(4));
    tree.add(0, Some(3));
    tree.add(2, Some(3));
    assert!(tree.is_well_formed());
    assert!(tree.is_strictly_binary());
    assert_eq!(tree.nodes, phylo2vec(vec![0, 0]).nodes);
}

#[test]
fn relocate_under_the_same_parent() {
    let mut tree = phylo2vec(vec![0]);
    tree.relocate(0, 2);
    assert_eq!(tree.get_node(2).unwrap().children, (Some(1), Some(0)));
    assert_eq!(tree.get_node(0).unwrap().parent, Some(2));
    assert_eq!(tree.get_node(0).unwrap().depth, 1);
}

#[test]
fn root_tips_and_depth() {
    let tree = phylo2vec(vec![0, 0, 0]);
    assert_eq!(tree.get_root().unwrap().index, 6);
    assert_eq!(indices(&tree.get_tips()), vec![0, 1, 2, 3]);
    assert_eq!(tree.max_treedepth(), 3);
    let empty = Tree::new(vec![]);
    assert_eq!(empty.get_root().unwrap().index, 0);
    assert_eq!(empty.max_treedepth(), 0);
    assert!(empty.get_tips().is_empty());
}

#[test]
fn root_of_an_array_without_one() {
    let mut tree = phylo2vec(vec![0]);
    tree.nodes[2].parent = Some(0);
    assert!(tree.get_root().is_none());
}

#[test]
fn node_and_parent_lookup() {
    let mut tree = phylo2vec(vec![0, 0, 0]);
    assert!(tree.get_node(7).is_none());
    assert_eq!(tree.get_parent(0).unwrap().index, 4);
    assert!(tree.get_parent(6).is_none());
    assert!(tree.mut_node(7).is_none());
    assert!(tree.mut_parent(6).is_none());
    tree.mut_node(2).unwrap().depth = 9;
    assert_eq!(tree.get_node(2).unwrap().depth, 9);
    tree.mut_parent(2).unwrap().depth = 8;
    assert_eq!(tree.get_node(5).unwrap().depth, 8);
}

#[test]
fn handedness_and_siblings() {
    let tree = phylo2vec(vec![0, 0, 0]);
    assert_eq!(tree.get_handedness(0), Handedness::Left);
    assert_eq!(tree.get_handedness(3), Handedness::Right);
    assert_eq!(tree.get_handedness(5), Handedness::Left);
    assert_eq!(tree.get_handedness(1), Handedness::Right);
    assert_eq!(tree.swap_to_right_child(0).unwrap().index, 3);
    assert_eq!(tree.swap_to_right_child(4).unwrap().index, 2);
    assert_eq!(tree.most_left_child(tree.get_root()).unwrap().index, 0);
    assert_eq!(tree.most_left_child(tree.get_node(2)).unwrap().index, 2);
    assert_eq!(tree.most_left_child(tree.get_node(5)).unwrap().index, 0);
}

#[test]
fn rootward_walk() {
    let tree = phylo2vec(vec![0, 0, 0]);
    let mut it = tree.iter(tree.get_node(0));
    let mut seen = Vec::new();
    while let Some(n) = it.next() {
        seen.push(n.index);
    }
    assert_eq!(seen, vec![0, 4, 5, 6]);
    assert!(it.next().is_none());
    let mut at_root = tree.iter(tree.get_root());
    assert_eq!(at_root.next().unwrap().index, 6);
    assert!(at_root.next().is_none());
    assert_eq!(indices(&tree.iter_notips(tree.get_node(0))), vec![4, 5, 6]);
    assert_eq!(indices(&tree.iter_notips(tree.get_node(5))), vec![5, 6]);
}

#[test]
fn preorder_walk() {
    let tree = phylo2vec(vec![0, 0, 0]);
    let mut it = tree.preorder(tree.get_root());
    let mut seen = Vec::new();
    while let Some(n) = it.next() {
        seen.push(n.index);
    }
    assert_eq!(seen, vec![6, 5, 4, 0, 3, 2, 1]);
    assert!(it.next().is_none());
    let mut sub = tree.preorder(tree.get_node(4));
    let mut below = Vec::new();
    while let Some(n) = sub.next() {
        below.push(n.index);
    }
    assert_eq!(below, vec![4, 0, 3]);
}

#[test]
fn preorder_walk_without_a_start() {
    let tree = phylo2vec(vec![0, 0, 0]);
    let mut it = tree.preorder(None);
    assert!(it.next().is_none());
    assert!(it.next().is_none());
}

#[test]
fn preorder_walk_with_a_single_child() {
    let mut tree = Tree::new(vec![0]);
    tree.add(2, None);
    tree.add(0, Some(2));
    let mut it = tree.preorder(tree.get_node(2));
    assert_eq!(it.next().unwrap().index, 2);
    assert_eq!(it.next().unwrap().index, 0);
    assert!(it.next().is_none());
}

#[test]
fn postorder_walk() {
    let tree = phylo2vec(vec![0, 0, 0]);
    let mut it = tree.postorder(tree.get_root());
    let mut seen = Vec::new();
    while let Some(n) = it.next() {
        seen.push(n.index);
    }
    assert_eq!(seen, vec![0, 3, 4, 2, 5, 1, 6]);
    assert!(it.next().is_none());
    let mut sub = tree.postorder(tree.get_node(5));
    let mut below = Vec::new();
    while let Some(n) = sub.next() {
        below.push(n.index);
    }
    assert_eq!(below, vec![0, 3, 4, 2, 5]);
    let mut leaf = tree.postorder(tree.get_node(1));
    assert_eq!(leaf.next().unwrap().index, 1);
    assert!(leaf.next().is_none());
    assert_eq!(indices(&tree.postorder_notips(tree.get_root())), vec![4, 5, 6]);
    assert!(tree.postorder_notips(tree.get_node(1)).is_empty());
}

#[test]
fn walks_visit_every_node_once() {
    let tree = phylo2vec(vec![0, 2, 4, 1]);
    let mut post = Vec::new();
    let mut it = tree.postorder(tree.get_root());
    while let Some(n) = it.next() {
        post.push(n.index);
    }
    assert_eq!(post, vec![0, 1, 4, 5, 6, 2, 7, 3, 8]);
    let mut pre = Vec::new();
    let mut it = tree.preorder(tree.get_root());
    while let Some(n) = it.next() {
        pre.push(n.index);
    }
    assert_eq!(pre, vec![8, 7, 6, 0, 5, 1, 4, 2, 3]);
    for x in 0..9 {
        let at_post = post.iter().position(|y| *y == x).unwrap();
        let at_pre = pre.iter().position(|y| *y == x).unwrap();
        if let Some(p) = tree.nodes[x].parent {
            assert!(at_post < post.iter().position(|y| *y == p).unwrap());
            assert!(pre.iter().position(|y| *y == p).unwrap() < at_pre);
        }
    }
}

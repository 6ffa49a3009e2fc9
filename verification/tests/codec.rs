use phylo_tree::child_swap::swap_children;
use phylo_tree::node::Node;
use phylo_tree::phylo2vec::{is_valid_vector, phylo2vec};

#[test]
fn treemake() {
    let mut tree = phylo2vec(vec![0, 0, 0]);

    assert_eq!(tree.get_node(0).unwrap().parent, Some(4));
    assert_eq!(tree.get_node(1).unwrap().parent, Some(6));
    assert_eq!(tree.get_node(2).unwrap().parent, Some(5));
    assert_eq!(tree.get_node(3).unwrap().parent, Some(4));
    assert_eq!(tree.get_node(4).unwrap().parent, Some(5));
    assert_eq!(tree.get_node(5).unwrap().parent, Some(6));
    assert_eq!(tree.get_node(6).unwrap().parent, None);

    tree = phylo2vec(vec![0, 0, 1]);

    assert_eq!(tree.get_node(0).unwrap().parent, Some(5));
    assert_eq!(tree.get_node(1).unwrap().parent, Some(4));
    assert_eq!(tree.get_node(2).unwrap().parent, Some(5));
    assert_eq!(tree.get_node(3).unwrap().parent, Some(4));
    assert_eq!(tree.get_node(4).unwrap().parent, Some(6));
    assert_eq!(tree.get_node(5).unwrap().parent, Some(6));
    assert_eq!(tree.get_node(6).unwrap().parent, None);

    tree = phylo2vec(vec![0, 1, 0]);

    assert_eq!(tree.get_node(0).unwrap().parent, Some(4));
    assert_eq!(tree.get_node(1).unwrap().parent, Some(5));
    assert_eq!(tree.get_node(2).unwrap().parent, Some(5));
    assert_eq!(tree.get_node(3).unwrap().parent, Some(4));
    assert_eq!(tree.get_node(4).unwrap().parent, Some(6));
    assert_eq!(tree.get_node(5).unwrap().parent, Some(6));
    assert_eq!(tree.get_node(6).unwrap().parent, None);

    tree = phylo2vec(vec![0, 1, 1]);

    assert_eq!(tree.get_node(0).unwrap().parent, Some(6));
    assert_eq!(tree.get_node(1).unwrap().parent, Some(4));
    assert_eq!(tree.get_node(2).unwrap().parent, Some(5));
    assert_eq!(tree.get_node(3).unwrap().parent, Some(4));
    assert_eq!(tree.get_node(4).unwrap().parent, Some(5));
    assert_eq!(tree.get_node(5).unwrap().parent, Some(6));
    assert_eq!(tree.get_node(6).unwrap().parent, None);

    tree = phylo2vec(vec![0, 1, 2]);

    assert_eq!(tree.get_node(0).unwrap().parent, Some(6));
    assert_eq!(tree.get_node(1).unwrap().parent, Some(5));
    assert_eq!(tree.get_node(2).unwrap().parent, Some(4));
    assert_eq!(tree.get_node(3).unwrap().parent, Some(4));
    assert_eq!(tree.get_node(4).unwrap().parent, Some(5));
    assert_eq!(tree.get_node(5).unwrap().parent, Some(6));
    assert_eq!(tree.get_node(6).unwrap().parent, None);

    tree = phylo2vec(vec![0, 1, 3]);

    assert_eq!(tree.get_node(0).unwrap().parent, Some(6));
    assert_eq!(tree.get_node(1).unwrap().parent, Some(4));
    assert_eq!(tree.get_node(2).unwrap().parent, Some(4));
    assert_eq!(tree.get_node(3).unwrap().parent, Some(5));
    assert_eq!(tree.get_node(4).unwrap().parent, Some(5));
    assert_eq!(tree.get_node(5).unwrap().parent, Some(6));
    assert_eq!(tree.get_node(6).unwrap().parent, None);

    tree = phylo2vec(vec![0, 0, 3]);

    assert_eq!(tree.get_node(0).unwrap().parent, Some(4));
    assert_eq!(tree.get_node(1).unwrap().parent, Some(6));
    assert_eq!(tree.get_node(2).unwrap().parent, Some(4));
    assert_eq!(tree.get_node(3).unwrap().parent, Some(5));
    assert_eq!(tree.get_node(4).unwrap().parent, Some(5));
    assert_eq!(tree.get_node(5).unwrap().parent, Some(6));
    assert_eq!(tree.get_node(6).unwrap().parent, None);
}

#[test]
fn legal_vectors_are_recognised() {
    assert!(is_valid_vector(&vec![]));
    assert!(is_valid_vector(&vec![0, 2, 4]));
    assert!(!is_valid_vector(&vec![1]));
    assert!(!is_valid_vector(&vec![0, 3]));
}

fn all_vectors(k: usize) -> Vec<Vec<usize>> {
    let mut out: Vec<Vec<usize>> = vec![vec![]];
    for i in 0..k {
        let mut next: Vec<Vec<usize>> = Vec::new();
        for v in &out {
            for e in 0..=(2 * i) {
                let mut w = v.clone();
                w.push(e);
                next.push(w);
            }
        }
        out = next;
    }
    out
}

#[test]
fn decoded_children_and_depths() {
    let tree = phylo2vec(vec![0, 0, 0]);
    assert_eq!(tree.get_node(4).unwrap().children, (Some(0), Some(3)));
    assert_eq!(tree.get_node(5).unwrap().children, (Some(4), Some(2)));
    assert_eq!(tree.get_node(6).unwrap().children, (Some(5), Some(1)));
    let depths: Vec<usize> = tree.nodes.iter().map(|n| n.depth).collect();
    assert_eq!(depths, vec![3, 1, 2, 3, 2, 1, 0]);
    let tips: Vec<bool> = tree.nodes.iter().map(|n| n.tip).collect();
    assert_eq!(tips, vec![true, true, true, true, false, false, false]);
    assert_eq!(tree.max_depth, 3);
    assert_eq!(tree.tree_vec, vec![0, 0, 0]);
    assert_eq!(tree.leaf_permutations, vec![0, 1, 2, 3]);
}

#[test]
fn decoded_five_leaves() {
    let tree = phylo2vec(vec![0, 2, 4, 1]);
    let parents: Vec<Option<usize>> = tree.nodes.iter().map(|n| n.parent).collect();
    assert_eq!(
        parents,
        vec![Some(6), Some(5), Some(7), Some(8), Some(5), Some(6), Some(7), Some(8), None]
    );
    assert_eq!(tree.get_node(5).unwrap().children, (Some(1), Some(4)));
    assert_eq!(tree.get_node(6).unwrap().children, (Some(0), Some(5)));
    assert_eq!(tree.get_node(7).unwrap().children, (Some(6), Some(2)));
    assert_eq!(tree.get_node(8).unwrap().children, (Some(7), Some(3)));
}

#[test]
fn decoded_single_leaf() {
    let tree = phylo2vec(vec![]);
    assert_eq!(tree.nodes.len(), 1);
    assert_eq!(tree.get_node(0).unwrap().parent, None);
    assert!(tree.get_node(0).unwrap().tip);
    assert_eq!(tree.encode(), Vec::<usize>::new());
}

#[test]
fn decoded_two_leaves() {
    let tree = phylo2vec(vec![0]);
    assert_eq!(tree.get_node(0).unwrap().parent, Some(2));
    assert_eq!(tree.get_node(1).unwrap().parent, Some(2));
    assert_eq!(tree.get_node(2).unwrap().children, (Some(0), Some(1)));
}

#[test]
fn encode_inverts_decode() {
    for k in 0..6 {
        for v in all_vectors(k) {
            assert!(is_valid_vector(&v));
            let tree = phylo2vec(v.clone());
            assert_eq!(tree.encode(), v);
            let again = phylo2vec(tree.encode());
            assert_eq!(again.nodes, tree.nodes);
        }
    }
}

#[test]
fn encode_ignores_the_stored_vector() {
    let mut tree = phylo2vec(vec![0, 1, 3]);
    tree.tree_vec = vec![0, 0, 0];
    assert_eq!(tree.encode(), vec![0, 1, 3]);
}

#[test]
fn encode_of_an_empty_array() {
    let mut tree = phylo2vec(vec![]);
    tree.nodes.clear();
    assert_eq!(tree.encode(), Vec::<usize>::new());
}

#[test]
fn encode_is_legal_on_broken_links() {
    let mut tree = phylo2vec(vec![0, 1, 3]);
    tree.nodes[3].parent = None;
    tree.nodes[5].children = (Some(5), Some(5));
    assert!(is_valid_vector(&tree.encode()));
}

fn leaves_below(nodes: &Vec<Node>, x: usize) -> Vec<usize> {
    match nodes[x].children {
        (Some(l), Some(r)) => {
            let mut out = leaves_below(nodes, l);
            out.extend(leaves_below(nodes, r));
            out.sort();
            out
        }
        _ => vec![x],
    }
}

fn leaf_sets(nodes: &Vec<Node>) -> Vec<Vec<usize>> {
    let mut out: Vec<Vec<usize>> = (0..nodes.len())
        .filter(|x| !nodes[*x].tip)
        .map(|x| leaves_below(nodes, x))
        .collect();
    out.sort();
    out
}

#[test]
fn encoding_a_relinked_tree_keeps_its_leaf_sets() {
    for v in all_vectors(5) {
        let mut tree = phylo2vec(v);
        for round in 0..4 {
            let picks: Vec<usize> = (0..tree.nodes.len())
                .filter(|x| !tree.nodes[*x].tip && tree.nodes[*x].parent.is_some())
                .collect();
            let node = picks[(round * 3 + 1) % picks.len()];
            tree = swap_children(&tree, node);
            assert!(tree.is_well_formed());
            assert!(tree.is_strictly_binary());
            assert!(is_valid_vector(&tree.tree_vec));
            assert_eq!(tree.tree_vec.len(), 5);
            let again = phylo2vec(tree.tree_vec.clone());
            assert_eq!(leaf_sets(&again.nodes), leaf_sets(&tree.nodes));
        }
    }
}

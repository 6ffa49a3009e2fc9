use crate::node::Node;
use crate::paths::{
    lemma_distinct_bounded, lemma_links, lemma_reaches_child, lemma_reaches_depth,
    lemma_reaches_down, lemma_reaches_unique, lemma_root_reaches, reaches,
};
use crate::traverse::{lemma_walk_in_range, postorder_of, preorder_of};
use crate::tree::well_formed;
use vstd::prelude::*;
use vstd::seq_lib::{lemma_no_dup_in_concat, lemma_seq_concat_contains_all_elements};
use vstd::set_lib::lemma_len_subset;

verus! {

/// Entry `j` of the walk `q` is the parent of entry `i`.
pub open spec fn parent_at(s: Seq<Node>, q: Seq<usize>, i: int, j: int) -> bool {
    0 <= j < q.len() && s[q[i] as int].parent == Some(q[j])
}

/// The parent of entry `i` of the walk `q` stands before it.
pub open spec fn parent_earlier(s: Seq<Node>, q: Seq<usize>, i: int) -> bool {
    exists|j: int| j < i && #[trigger] parent_at(s, q, i, j)
}

/// The parent of entry `i` of the walk `q` stands after it.
pub open spec fn parent_later(s: Seq<Node>, q: Seq<usize>, i: int) -> bool {
    exists|j: int| i < j && #[trigger] parent_at(s, q, i, j)
}

/// A preorder walk visits exactly the nodes that its start node reaches,
/// each of them once, the start node first and every other node after its
/// parent.
pub proof fn lemma_preorder_walk(s: Seq<Node>, a: usize)
    requires
        well_formed(s),
        a < s.len(),
    ensures
        preorder_of(s, a)[0] == a,
        preorder_of(s, a).no_duplicates(),
        forall|x: usize| preorder_of(s, a).contains(x) <==> reaches(s, a, x),
        forall|i: int|
            0 < i < preorder_of(s, a).len() ==> #[trigger] parent_earlier(s, preorder_of(s, a), i),
    decreases s.len() - s[a as int].depth,
{
    lemma_links(s, a);
    let q = preorder_of(s, a);
    let lo = s[a as int].children.0;
    let ro = s[a as int].children.1;
    let left = if lo is Some {
        preorder_of(s, lo->0)
    } else {
        Seq::empty()
    };
    let right = if ro is Some {
        preorder_of(s, ro->0)
    } else {
        Seq::empty()
    };
    assert(q =~= seq![a] + left + right);
    assert(q =~= seq![a] + (left + right));
    if lo is Some {
        lemma_preorder_walk(s, lo->0);
    }
    if ro is Some {
        lemma_preorder_walk(s, ro->0);
    }
    assert forall|x: usize| q.contains(x) <==> reaches(s, a, x) by {
        lemma_seq_concat_contains_all_elements(seq![a] + left, right, x);
        lemma_seq_concat_contains_all_elements(seq![a], left, x);
        assert(seq![a][0] == a);
        if q.contains(x) {
            if x == a {
                assert(reaches(s, a, a));
            } else if left.contains(x) {
                lemma_reaches_down(s, a, lo->0, x);
            } else {
                lemma_reaches_down(s, a, ro->0, x);
            }
        }
        if reaches(s, a, x) && x != a {
            lemma_reaches_child(s, a, x);
        }
    }
    assert forall|i: int, j: int| 0 <= i < left.len() && 0 <= j < right.len() implies left[i]
        != right[j] by {
        if left[i] == right[j] {
            assert(left.contains(left[i]));
            assert(right.contains(right[j]));
            lemma_reaches_unique(s, lo->0, ro->0, left[i]);
        }
    }
    lemma_no_dup_in_concat(left, right);
    assert forall|i: int, j: int| 0 <= i < 1 && 0 <= j < (left + right).len() implies seq![a][i] != (
    left + right)[j] by {
        if j < left.len() {
            assert(left.contains(left[j]));
            lemma_reaches_depth(s, lo->0, left[j]);
        } else {
            assert(right.contains(right[j - left.len()]));
            lemma_reaches_depth(s, ro->0, right[j - left.len()]);
        }
    }
    lemma_no_dup_in_concat(seq![a], left + right);
    assert forall|i: int| 0 < i < q.len() implies #[trigger] parent_earlier(s, q, i) by {
        if i - 1 < left.len() {
            let k = i - 1;
            assert(q[i] == left[k]);
            if k == 0 {
                assert(parent_at(s, q, i, 0));
            } else {
                assert(parent_earlier(s, left, k));
                let j = choose|j: int| j < k && parent_at(s, left, k, j);
                assert(q[j + 1] == left[j]);
                assert(parent_at(s, q, i, j + 1));
            }
        } else {
            let k = i - 1 - left.len();
            assert(q[i] == right[k]);
            if k == 0 {
                assert(parent_at(s, q, i, 0));
            } else {
                assert(parent_earlier(s, right, k));
                let j = choose|j: int| j < k && parent_at(s, right, k, j);
                assert(q[j + 1 + left.len()] == right[j]);
                assert(parent_at(s, q, i, j + 1 + left.len()));
            }
        }
    }
}

/// A postorder walk visits exactly the nodes that its start node reaches,
/// each of them once, every node but the start node before its parent, and
/// the start node last.
pub proof fn lemma_postorder_walk(s: Seq<Node>, a: usize)
    requires
        well_formed(s),
        a < s.len(),
    ensures
        postorder_of(s, a).last() == a,
        postorder_of(s, a).no_duplicates(),
        forall|x: usize| postorder_of(s, a).contains(x) <==> reaches(s, a, x),
        forall|i: int|
            0 <= i < postorder_of(s, a).len() - 1 ==> #[trigger] parent_later(
                s,
                postorder_of(s, a),
                i,
            ),
    decreases s.len() - s[a as int].depth,
{
    lemma_links(s, a);
    let q = postorder_of(s, a);
    let lo = s[a as int].children.0;
    let ro = s[a as int].children.1;
    let left = if lo is Some {
        postorder_of(s, lo->0)
    } else {
        Seq::empty()
    };
    let right = if ro is Some {
        postorder_of(s, ro->0)
    } else {
        Seq::empty()
    };
    assert(q =~= left + right + seq![a]);
    if lo is Some {
        lemma_postorder_walk(s, lo->0);
        lemma_walk_in_range(s, lo->0);
    }
    if ro is Some {
        lemma_postorder_walk(s, ro->0);
        lemma_walk_in_range(s, ro->0);
    }
    assert forall|x: usize| q.contains(x) <==> reaches(s, a, x) by {
        lemma_seq_concat_contains_all_elements(left + right, seq![a], x);
        lemma_seq_concat_contains_all_elements(left, right, x);
        assert(seq![a][0] == a);
        if q.contains(x) {
            if x == a {
                assert(reaches(s, a, a));
            } else if left.contains(x) {
                lemma_reaches_down(s, a, lo->0, x);
            } else {
                lemma_reaches_down(s, a, ro->0, x);
            }
        }
        if reaches(s, a, x) && x != a {
            lemma_reaches_child(s, a, x);
        }
    }
    assert forall|i: int, j: int| 0 <= i < left.len() && 0 <= j < right.len() implies left[i]
        != right[j] by {
        if left[i] == right[j] {
            assert(left.contains(left[i]));
            assert(right.contains(right[j]));
            lemma_reaches_unique(s, lo->0, ro->0, left[i]);
        }
    }
    lemma_no_dup_in_concat(left, right);
    assert forall|i: int, j: int| 0 <= i < (left + right).len() && 0 <= j < 1 implies (left
        + right)[i] != seq![a][j] by {
        if i < left.len() {
            assert(left.contains(left[i]));
            lemma_reaches_depth(s, lo->0, left[i]);
        } else {
            assert(right.contains(right[i - left.len()]));
            lemma_reaches_depth(s, ro->0, right[i - left.len()]);
        }
    }
    lemma_no_dup_in_concat(left + right, seq![a]);
    assert forall|i: int| 0 <= i < q.len() - 1 implies #[trigger] parent_later(s, q, i) by {
        let top = q.len() - 1;
        assert(q[top] == a);
        if i < left.len() {
            assert(q[i] == left[i]);
            if i == left.len() - 1 {
                assert(parent_at(s, q, i, top));
            } else {
                assert(parent_later(s, left, i));
                let j = choose|j: int| i < j && parent_at(s, left, i, j);
                assert(q[j] == left[j]);
                assert(parent_at(s, q, i, j));
            }
        } else {
            let k = i - left.len();
            assert(q[i] == right[k]);
            if k == right.len() - 1 {
                assert(parent_at(s, q, i, top));
            } else {
                assert(parent_later(s, right, k));
                let j = choose|j: int| k < j && parent_at(s, right, k, j);
                assert(q[j + left.len()] == right[j]);
                assert(parent_at(s, q, i, j + left.len()));
            }
        }
    }
}

/// A list without repetition that names nodes only and names every node
/// has one entry per node.
pub proof fn lemma_full_walk(n: nat, q: Seq<usize>)
    requires
        n <= usize::MAX,
        q.no_duplicates(),
        forall|i: int| 0 <= i < q.len() ==> q[i] < n,
        forall|x: usize| x < n ==> q.contains(x),
    ensures
        q.len() == n,
{
    broadcast use vstd::seq_lib::seq_to_set_is_finite;

    lemma_distinct_bounded(q, n);
    let all = Seq::new(n, |i: int| i as usize);
    assert(all.no_duplicates());
    all.unique_seq_to_set();
    q.lemma_cardinality_of_set();
    assert forall|x: usize| all.to_set().contains(x) implies q.to_set().contains(x) by {
        assert(all.contains(x));
        let i = choose|i: int| 0 <= i < all.len() && all[i] == x;
        assert(x < n);
        assert(q.contains(x));
    }
    assert(all.to_set().subset_of(q.to_set()));
    lemma_len_subset(all.to_set(), q.to_set());
}

/// From the root, a preorder walk and a postorder walk each visit every
/// node of the tree, so each has as many entries as the tree has nodes.
pub proof fn lemma_walks_cover(s: Seq<Node>, root: usize)
    requires
        well_formed(s),
        s.len() <= usize::MAX,
        root < s.len(),
        s[root as int].parent is None,
    ensures
        preorder_of(s, root).len() == s.len(),
        postorder_of(s, root).len() == s.len(),
        forall|x: usize| x < s.len() ==> preorder_of(s, root).contains(x),
        forall|x: usize| x < s.len() ==> postorder_of(s, root).contains(x),
{
    lemma_preorder_walk(s, root);
    lemma_postorder_walk(s, root);
    lemma_walk_in_range(s, root);
    assert forall|x: usize| x < s.len() implies preorder_of(s, root).contains(x) && postorder_of(
        s,
        root,
    ).contains(x) by {
        lemma_root_reaches(s, root, x);
    }
    lemma_full_walk(s.len(), preorder_of(s, root));
    lemma_full_walk(s.len(), postorder_of(s, root));
}

} // verus!

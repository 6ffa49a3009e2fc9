use crate::codec::{decoded, valid_vector};
use crate::encode::encoded;
use crate::encode_laws::{leafy, same_tree};
use crate::moves::{TreeMove, TreeState};
use crate::node::Node;
use crate::paths::{
    lemma_depth_bound, lemma_links, lemma_reaches_depth, lemma_reaches_down, lemma_reaches_unique,
    reaches,
};
use crate::sampler::pick_below;
use crate::seqs::copy_of;
use crate::traverse::{lemma_walk_in_range, preorder_of};
use crate::tree::{is_root, links_ok, strictly_binary, well_formed, Tree};
use crate::walk_laws::{lemma_preorder_walk, parent_at, parent_earlier};
use vstd::prelude::*;

verus! {

/// Whether `x` can be picked for a swap: an inner node with a parent.
pub open spec fn swappable(s: Seq<Node>, x: int) -> bool {
    0 <= x < s.len() && !s[x].tip && s[x].parent is Some
}

/// Whether `node` is the left child of its parent.
pub open spec fn on_left(s: Seq<Node>, node: usize) -> bool {
    s[s[node as int].parent->0 as int].children.0 == Some(node)
}

/// The child of `node` that the swap hands to the parent of `node`: the
/// right child of a left child, the left child of a right child.
pub open spec fn moved_up(s: Seq<Node>, node: usize) -> usize {
    if on_left(s, node) {
        s[node as int].children.1->0
    } else {
        s[node as int].children.0->0
    }
}

/// The child of the parent of `node` that the swap hands to `node`: the
/// parent's child on the side on which `moved_up` stood under `node`.
pub open spec fn moved_down(s: Seq<Node>, node: usize) -> usize {
    let p = s[node as int].parent->0;
    if on_left(s, node) {
        s[p as int].children.1->0
    } else {
        s[p as int].children.0->0
    }
}

/// The links after the swap, depths as before.
pub open spec fn relinked(s: Seq<Node>, node: usize) -> Seq<Node> {
    let p = s[node as int].parent->0;
    let a = moved_up(s, node);
    let c = moved_down(s, node);
    Seq::new(
        s.len(),
        |x: int|
            Node {
                parent: if x == a {
                    Some(p)
                } else if x == c {
                    Some(node)
                } else {
                    s[x].parent
                },
                children: if x == node {
                    if on_left(s, node) {
                        (s[x].children.0, Some(c))
                    } else {
                        (Some(c), s[x].children.1)
                    }
                } else if x == p {
                    if on_left(s, node) {
                        (s[x].children.0, Some(a))
                    } else {
                        (Some(a), s[x].children.1)
                    }
                } else {
                    s[x].children
                },
                ..s[x]
            },
    )
}

/// The node array after `node` and its parent exchanged a child each: the
/// links as `relinked` gives them, the subtree handed down one level deeper
/// and the subtree handed up one level higher than before.
pub open spec fn swapped(s: Seq<Node>, node: usize) -> Seq<Node> {
    let a = moved_up(s, node);
    let c = moved_down(s, node);
    let r = relinked(s, node);
    Seq::new(
        s.len(),
        |x: int|
            Node {
                depth: if reaches(s, c, x as usize) {
                    (s[x].depth + 1) as usize
                } else if reaches(s, a, x as usize) {
                    (s[x].depth - 1) as usize
                } else {
                    s[x].depth
                },
                ..r[x]
            },
    )
}

/// Where the four nodes of a swap stand: the parent one level above `node`
/// and the child handed down, and two levels above the child handed up;
/// all four are different nodes.
pub proof fn lemma_swap_facts(s: Seq<Node>, node: usize)
    requires
        well_formed(s),
        strictly_binary(s),
        swappable(s, node as int),
    ensures
        ({
            let p = s[node as int].parent->0;
            let a = moved_up(s, node);
            let c = moved_down(s, node);
            &&& p < s.len() && a < s.len() && c < s.len()
            &&& s[p as int].children.0 is Some && s[p as int].children.1 is Some
            &&& s[node as int].children.0 is Some && s[node as int].children.1 is Some
            &&& s[p as int].has_child(node) && s[p as int].has_child(c) && c != node
            &&& s[node as int].has_child(a)
            &&& s[a as int].parent == Some(node) && s[c as int].parent == Some(p)
            &&& s[node as int].depth == s[p as int].depth + 1
            &&& s[c as int].depth == s[p as int].depth + 1
            &&& s[a as int].depth == s[p as int].depth + 2
            &&& s[a as int].depth < s.len()
        }),
{
    let p = s[node as int].parent->0;
    lemma_links(s, node);
    lemma_links(s, p);
    let a = moved_up(s, node);
    let c = moved_down(s, node);
    lemma_links(s, a);
    lemma_links(s, c);
}

/// No node lies below both children that a swap moves, and neither `node`
/// nor its parent lies below one of them.
pub proof fn lemma_swap_apart(s: Seq<Node>, node: usize, x: usize)
    requires
        well_formed(s),
        strictly_binary(s),
        swappable(s, node as int),
    ensures
        !(reaches(s, moved_down(s, node), x) && reaches(s, moved_up(s, node), x)),
        (x == node || x == s[node as int].parent->0) ==> !reaches(s, moved_down(s, node), x)
            && !reaches(s, moved_up(s, node), x),
        reaches(s, moved_down(s, node), x) ==> s[x as int].depth >= s[node as int].depth,
        reaches(s, moved_up(s, node), x) ==> s[x as int].depth > s[node as int].depth,
{
    lemma_swap_facts(s, node);
    let a = moved_up(s, node);
    let c = moved_down(s, node);
    if reaches(s, c, x) {
        lemma_reaches_depth(s, c, x);
    }
    if reaches(s, a, x) {
        lemma_reaches_depth(s, a, x);
        lemma_reaches_down(s, node, a, x);
        if reaches(s, c, x) {
            lemma_reaches_unique(s, c, node, x);
        }
    }
}

/// The swap keeps a leafy tree leafy.
pub proof fn lemma_swapped_leafy(s: Seq<Node>, node: usize, k: nat)
    requires
        leafy(s, k),
        swappable(s, node as int),
    ensures
        leafy(swapped(s, node), k),
{
    lemma_swapped(s, node);
}

/// A node's links are in order after the swap.
pub proof fn lemma_swap_node(s: Seq<Node>, node: usize, x: usize)
    requires
        s.len() <= usize::MAX,
        well_formed(s),
        strictly_binary(s),
        swappable(s, node as int),
        x < s.len(),
    ensures
        links_ok(swapped(s, node), x as int),
{
    let p = s[node as int].parent->0;
    let a = moved_up(s, node);
    let c = moved_down(s, node);
    let r = swapped(s, node);
    lemma_swap_facts(s, node);
    lemma_links(s, x);
    lemma_links(s, node);
    lemma_links(s, p);
    lemma_swap_apart(s, node, x);
    lemma_swap_apart(s, node, node);
    lemma_swap_apart(s, node, p);
    lemma_swap_apart(s, node, a);
    lemma_swap_apart(s, node, c);
    assert(reaches(s, a, a));
    assert(reaches(s, c, c));
    if r[x as int].parent is Some {
        let q = r[x as int].parent->0;
        lemma_swap_apart(s, node, q);
        lemma_links(s, q);
        if x != a && x != c {
            assert(s[x as int].parent == Some(q));
            assert(reaches(s, c, x) <==> reaches(s, c, q));
            assert(reaches(s, a, x) <==> reaches(s, a, q));
        }
        assert(r[q as int].has_child(x));
        assert(r[x as int].depth == r[q as int].depth + 1);
    }
    if r[x as int].children.0 is Some {
        let ch = r[x as int].children.0->0;
        assert(r[ch as int].parent == Some(x));
    }
    if r[x as int].children.1 is Some {
        let ch = r[x as int].children.1->0;
        assert(r[ch as int].parent == Some(x));
    }
}

/// The swap leaves a well-formed tree in which every inner node has two
/// children, with the tips it had.
pub proof fn lemma_swapped(s: Seq<Node>, node: usize)
    requires
        s.len() <= usize::MAX,
        well_formed(s),
        strictly_binary(s),
        swappable(s, node as int),
    ensures
        swapped(s, node).len() == s.len(),
        well_formed(swapped(s, node)),
        strictly_binary(swapped(s, node)),
        forall|x: int| 0 <= x < s.len() ==> (#[trigger] swapped(s, node)[x]).tip == s[x].tip,
{
    let r = swapped(s, node);
    lemma_swap_facts(s, node);
    assert forall|x: int| 0 <= x < r.len() implies #[trigger] links_ok(r, x) by {
        assert(links_ok(s, x));
        lemma_swap_node(s, node, x as usize);
    }
    assert forall|x: int, y: int|
        0 <= x < r.len() && 0 <= y < r.len() && #[trigger] is_root(r, x) && #[trigger] is_root(
            r,
            y,
        ) implies x == y by {
        assert(is_root(s, x));
        assert(is_root(s, y));
    }
    assert forall|x: int| 0 <= x < r.len() && (#[trigger] r[x]).children.0 is Some implies r[x].children.1 is Some by {
        assert(s[x].children.0 is Some ==> s[x].children.1 is Some);
    }
}

/// The swap changes the children of `node` and of its parent, and of no
/// other node.
pub proof fn lemma_swap_changes(s: Seq<Node>, node: usize, x: usize)
    requires
        well_formed(s),
        strictly_binary(s),
        swappable(s, node as int),
        x < s.len(),
    ensures
        swapped(s, node)[x as int].children != s[x as int].children <==> (x == node || x
            == s[node as int].parent->0),
{
    lemma_swap_facts(s, node);
    lemma_links(s, node);
    lemma_links(s, s[node as int].parent->0);
}

/// Sets the depth of every node below and at `start` to one more than that
/// of its parent in `nodes`, parents first. `top` is the tree that the links
/// below `start` are taken from.
fn refresh_depths(nodes: &mut Vec<Node>, top: &Tree, start: usize)
    requires
        top.wf(),
        start < top.nodes@.len(),
        old(nodes)@.len() == top.nodes@.len(),
        forall|x: usize|
            x < top.nodes@.len() && reaches(top.nodes@, start, x) && x != start ==> (#[trigger] old(
                nodes,
            )@[x as int]).parent == top.nodes@[x as int].parent,
        old(nodes)@[start as int].parent matches Some(q) && q < top.nodes@.len() && !reaches(
            top.nodes@,
            start,
            q,
        ) && old(nodes)@[q as int].depth <= top.nodes@[start as int].depth,
    ensures
        final(nodes)@.len() == old(nodes)@.len(),
        forall|x: usize|
            x < old(nodes)@.len() ==> #[trigger] final(nodes)@[x as int] == (Node {
                depth: if reaches(top.nodes@, start, x) {
                    (old(nodes)@[old(nodes)@[start as int].parent->0 as int].depth + 1
                        + top.nodes@[x as int].depth - top.nodes@[start as int].depth) as usize
                } else {
                    old(nodes)@[x as int].depth
                },
                ..old(nodes)@[x as int]
            }),
{
    let ghost s = top.nodes@;
    let ghost before = nodes@;
    let ghost full = preorder_of(s, start);
    let ghost q0 = before[start as int].parent->0;
    let ghost base = before[q0 as int].depth + 1;
    proof {
        lemma_links(s, start);
        lemma_preorder_walk(s, start);
        lemma_walk_in_range(s, start);
        lemma_depth_bound(s, start);
    }
    let big = top.nodes.len();
    let mut it = top.preorder(top.get_node(start));
    assert(top.holds(top.spec_node(start)));
    let ghost mut j: int = 0;
    let mut cur = it.next();
    assert(full.skip(0) =~= full);
    while cur.is_some()
        invariant
            top.wf(),
            s == top.nodes@,
            start < s.len(),
            it.wf(),
            it.tree() == top,
            full == preorder_of(s, start),
            full.no_duplicates(),
            full.len() > 0,
            full[0] == start,
            forall|x: usize| full.contains(x) <==> reaches(s, start, x),
            forall|i: int| 0 < i < full.len() ==> #[trigger] parent_earlier(s, full, i),
            forall|i: int| 0 <= i < full.len() ==> (#[trigger] full[i]) < s.len(),
            before.len() == s.len(),
            nodes@.len() == s.len(),
            big == s.len(),
            forall|x: usize|
                x < s.len() && reaches(s, start, x) && x != start ==> (#[trigger] before[x as int]).parent
                    == s[x as int].parent,
            before[start as int].parent == Some(q0),
            q0 < s.len(),
            !reaches(s, start, q0),
            base == before[q0 as int].depth + 1,
            base <= s[start as int].depth + 1,
            s[start as int].depth < s.len(),
            0 <= j <= full.len(),
            cur is None ==> j == full.len(),
            cur matches Some(n) ==> j < full.len() && *n == s[full[j] as int] && it.remaining()
                == full.skip(j + 1),
            forall|x: usize|
                x < s.len() ==> #[trigger] nodes@[x as int] == (Node {
                    depth: if full.take(j).contains(x) {
                        (base + s[x as int].depth - s[start as int].depth) as usize
                    } else {
                        before[x as int].depth
                    },
                    ..before[x as int]
                }),
        decreases full.len() - j,
    {
        let n = cur.unwrap();
        let x = n.index;
        let ghost earlier = nodes@;
        let ghost shorter = full.take(j);
        let ghost longer = full.take(j + 1);
        proof {
            lemma_links(s, full[j]);
            assert(x == full[j]);
            assert(full.contains(x));
            lemma_reaches_depth(s, start, x);
            lemma_depth_bound(s, x);
            assert(earlier[x as int].parent == before[x as int].parent);
            if j > 0 {
                assert(x != start);
                assert(before[x as int].parent == s[x as int].parent);
                assert(parent_earlier(s, full, j));
                let jp = choose|jp: int| jp < j && parent_at(s, full, j, jp);
                let par = full[jp];
                assert(shorter[jp] == par);
                assert(shorter.contains(par));
                assert(full.contains(par));
                lemma_links(s, par);
                lemma_reaches_depth(s, start, par);
                assert(earlier[par as int].depth == (base + s[par as int].depth - s[start as int].depth) as usize);
            } else {
                assert(!full.contains(q0));
                assert(!shorter.contains(q0));
                assert(earlier[q0 as int].depth == before[q0 as int].depth);
            }
        }
        let mut me = nodes[x];
        let q = me.parent.unwrap();
        me.depth = nodes[q].depth + 1;
        nodes[x] = me;
        proof {
            assert(longer =~= shorter.push(x));
            assert forall|y: usize| y < s.len() implies #[trigger] nodes@[y as int] == (Node {
                depth: if longer.contains(y) {
                    (base + s[y as int].depth - s[start as int].depth) as usize
                } else {
                    before[y as int].depth
                },
                ..before[y as int]
            }) by {
                assert(earlier[y as int] == (Node {
                    depth: if shorter.contains(y) {
                        (base + s[y as int].depth - s[start as int].depth) as usize
                    } else {
                        before[y as int].depth
                    },
                    ..before[y as int]
                }));
                if y != x {
                    if longer.contains(y) {
                        let z = choose|z: int| 0 <= z < longer.len() && longer[z] == y;
                        assert(shorter[z] == y);
                    }
                    if shorter.contains(y) {
                        let z = choose|z: int| 0 <= z < shorter.len() && shorter[z] == y;
                        assert(longer[z] == y);
                    }
                } else {
                    assert(longer[j] == x);
                }
            }
            j = j + 1;
        }
        cur = it.next();
        proof {
            if j < full.len() {
                assert(full.skip(j)[0] == full[j]);
                assert(full.skip(j).skip(1) =~= full.skip(j + 1));
            }
        }
    }
    assert(full.take(j) =~= full);
}

/// The tree after `node` and its parent exchanged a child each. A left
/// child hands its right child up and takes the parent's right child; a
/// right child hands its left child up and takes the parent's left child.
/// The depths below both are set anew and the vector is encoded from the
/// new links.
pub fn swap_children(top: &Tree, node: usize) -> (r: Tree)
    requires
        top.wf(),
        top.is_binary(),
        swappable(top.nodes@, node as int),
    ensures
        r.nodes@ == swapped(top.nodes@, node),
        r.wf(),
        r.is_binary(),
        r.tree_vec@ == encoded(r.nodes@),
        valid_vector(r.tree_vec@),
        r.leaf_permutations@ == top.leaf_permutations@,
        r.records_max_depth(),
        leafy(top.nodes@, r.tree_vec@.len()) ==> leafy(r.nodes@, r.tree_vec@.len()) && same_tree(
            r.nodes@,
            decoded(r.tree_vec@),
            r.tree_vec@.len(),
        ),
{
    let ghost s = top.nodes@;
    let big = top.nodes.len();
    proof {
        lemma_swap_facts(s, node);
        lemma_swapped(s, node);
        if leafy(s, crate::encode::entries_for(s.len())) {
            lemma_swapped_leafy(s, node, crate::encode::entries_for(s.len()));
        }
    }
    let mut nodes = copy_of(&top.nodes);
    let parent = top.nodes[node].parent.unwrap();
    let (par_lc, par_rc) = top.nodes[parent].children;
    let (node_lc, node_rc) = top.nodes[node].children;
    let a: usize;
    let c: usize;
    let mut nd = nodes[node];
    let mut pa = nodes[parent];
    if par_lc == Some(node) {
        c = par_rc.unwrap();
        a = node_rc.unwrap();
        nd.children = (node_lc, Some(c));
        pa.children = (par_lc, Some(a));
    } else {
        c = par_lc.unwrap();
        a = node_lc.unwrap();
        nd.children = (Some(c), node_rc);
        pa.children = (Some(a), par_rc);
    }
    nodes[node] = nd;
    nodes[parent] = pa;
    let mut down = nodes[c];
    down.parent = Some(node);
    nodes[c] = down;
    let mut up = nodes[a];
    up.parent = Some(parent);
    nodes[a] = up;
    assert(nodes@ =~= relinked(s, node));
    proof {
        lemma_swap_apart(s, node, node);
        lemma_swap_apart(s, node, parent);
        assert forall|x: usize| x < s.len() && reaches(s, c, x) && x != c implies (
        #[trigger] nodes@[x as int]).parent == s[x as int].parent by {
            lemma_swap_apart(s, node, x);
        }
    }
    refresh_depths(&mut nodes, top, c);
    let ghost mid = nodes@;
    proof {
        assert forall|x: usize| x < s.len() && reaches(s, a, x) && x != a implies (
        #[trigger] nodes@[x as int]).parent == s[x as int].parent by {
            lemma_swap_apart(s, node, x);
            assert(reaches(s, c, c));
        }
    }
    refresh_depths(&mut nodes, top, a);
    proof {
        assert forall|x: int| 0 <= x < s.len() implies nodes@[x] == swapped(s, node)[x] by {
            assert(links_ok(s, x));
            let y = x as usize;
            lemma_swap_apart(s, node, y);
            lemma_depth_bound(s, y);
            assert(mid[y as int].parent == relinked(s, node)[x].parent);
            assert(nodes@[y as int].parent == mid[y as int].parent);
        }
        assert(nodes@ =~= swapped(s, node));
    }
    let mut t = Tree {
        tree_vec: Vec::new(),
        nodes,
        max_depth: 0,
        leaf_permutations: copy_of(&top.leaf_permutations),
    };
    let code = t.encode();
    t.tree_vec = code;
    let d = t.max_treedepth();
    t.max_depth = d;
    t
}

/// The inner nodes that have a parent, by rising id.
fn swappable_nodes(top: &Tree) -> (r: Vec<usize>)
    ensures
        forall|j: int| 0 <= j < r@.len() ==> swappable(top.nodes@, (#[trigger] r@[j]) as int),
        forall|x: int| swappable(top.nodes@, x) ==> r@.contains(x as usize),
{
    let mut out: Vec<usize> = Vec::new();
    let mut i: usize = 0;
    while i < top.nodes.len()
        invariant
            i <= top.nodes@.len(),
            forall|j: int| 0 <= j < out@.len() ==> swappable(top.nodes@, (#[trigger] out@[j]) as int),
            forall|x: int| 0 <= x < i && swappable(top.nodes@, x) ==> out@.contains(x as usize),
        decreases top.nodes@.len() - i,
    {
        let ghost before = out@;
        if !top.nodes[i].tip && top.nodes[i].parent.is_some() {
            out.push(i);
            assert(out@[before.len() as int] == i);
        }
        proof {
            assert forall|x: int| 0 <= x < i + 1 && swappable(top.nodes@, x) implies out@.contains(
                x as usize,
            ) by {
                if x < i {
                    assert(before.contains(x as usize));
                    let z = choose|z: int| 0 <= z < before.len() && before[z] == x as usize;
                    assert(out@[z] == x as usize);
                }
            }
        }
        i += 1;
    }
    out
}

/// The move that lets a random inner node and its parent exchange a child
/// each.
pub struct ChildSwap {}

impl<R: Copy, L: Copy> TreeMove<R, L> for ChildSwap {
    open spec fn applies(&self, ts: &TreeState<R, L>) -> bool {
        ts.top.wf() && ts.top.is_binary() && exists|x: int| swappable(ts.top.nodes@, x)
    }

    fn generate(&self, ts: &TreeState<R, L>) -> (r: TreeState<R, L>)
        ensures
            r.changed_nodes->0@.len() == 2,
            swappable(ts.top.nodes@, r.changed_nodes->0@[0] as int),
            r.changed_nodes->0@[1] == ts.top.nodes@[r.changed_nodes->0@[0] as int].parent->0,
            r.top.nodes@ == swapped(ts.top.nodes@, r.changed_nodes->0@[0]),
            r.top.tree_vec@ == encoded(r.top.nodes@),
            r.top.leaf_permutations@ == ts.top.leaf_permutations@,
            r.top.records_max_depth(),
            leafy(ts.top.nodes@, r.top.tree_vec@.len()) ==> leafy(
                r.top.nodes@,
                r.top.tree_vec@.len(),
            ) && same_tree(r.top.nodes@, decoded(r.top.tree_vec@), r.top.tree_vec@.len()),
    {
        let int_nodes = swappable_nodes(&ts.top);
        proof {
            let x = choose|x: int| swappable(ts.top.nodes@, x);
            assert(int_nodes@.contains(x as usize));
        }
        let node = int_nodes[pick_below(int_nodes.len())];
        proof {
            lemma_swap_facts(ts.top.nodes@, node);
        }
        let parent = ts.top.nodes[node].parent.unwrap();
        let new_topology = swap_children(&ts.top, node);
        let mut changed: Vec<usize> = Vec::new();
        changed.push(node);
        changed.push(parent);
        TreeState { top: new_topology, mat: ts.mat, ll: ts.ll, changed_nodes: Some(changed) }
    }
}

} // verus!

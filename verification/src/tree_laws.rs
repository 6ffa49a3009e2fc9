use crate::node::{with_child, Node};
use crate::paths::{lemma_depth_bound, lemma_links, lemma_reaches_depth, reaches};
use crate::tree::{
    after_add, after_attach, after_detach, after_relocate, climb, is_root, links_ok, refreshed,
    well_formed,
};
use vstd::prelude::*;

verus! {

/// The nodes of `reg` form a well-formed tree among themselves: each is a
/// node of the array with its links in order, its parent and children are in
/// `reg` too, and at most one of them has no parent.
pub open spec fn well_formed_on(s: Seq<Node>, reg: Set<int>) -> bool {
    &&& forall|i: int| #[trigger]
        reg.contains(i) ==> 0 <= i < s.len() && links_ok(s, i) && within(s, reg, i)
    &&& forall|i: int, j: int|
        reg.contains(i) && reg.contains(j) && #[trigger] is_root(s, i) && #[trigger] is_root(s, j)
            ==> i == j
}

/// The parent and the children of node `i` are in `reg`.
pub open spec fn within(s: Seq<Node>, reg: Set<int>, i: int) -> bool {
    &&& (s[i].parent matches Some(p) ==> reg.contains(p as int))
    &&& (s[i].children.0 matches Some(c) ==> reg.contains(c as int))
    &&& (s[i].children.1 matches Some(c) ==> reg.contains(c as int))
}

/// Registering a node under a registered parent with a free slot, or as
/// the first root, keeps the registered nodes a well-formed tree.
pub proof fn lemma_add_registers(s: Seq<Node>, reg: Set<int>, index: usize, parent: Option<usize>)
    requires
        well_formed_on(s, reg),
        index < s.len(),
        !reg.contains(index as int),
        parent matches Some(p) ==> reg.contains(p as int) && s[p as int].children.1 is None && s[p as int].depth
            < usize::MAX,
        parent is None ==> forall|i: int| reg.contains(i) ==> !#[trigger] is_root(s, i),
    ensures
        well_formed_on(after_add(s, index, parent), reg.insert(index as int)),
{
    let r = after_add(s, index, parent);
    let reg2 = reg.insert(index as int);
    if parent is Some {
        assert(reg.contains(parent->0 as int));
    }
    assert forall|i: int| #[trigger] reg2.contains(i) implies 0 <= i < r.len() && links_ok(r, i)
        && within(r, reg2, i) by {
        if i != index {
            assert(reg.contains(i));
            assert(links_ok(s, i));
            assert(within(s, reg, i));
            if s[i].parent is Some {
                assert(reg.contains(s[i].parent->0 as int));
            }
            if s[i].children.0 is Some {
                let c = s[i].children.0->0;
                assert(reg.contains(c as int));
                assert(links_ok(s, c as int));
            }
            if s[i].children.1 is Some {
                let c = s[i].children.1->0;
                assert(reg.contains(c as int));
            }
        }
    }
    assert forall|i: int, j: int|
        reg2.contains(i) && reg2.contains(j) && #[trigger] is_root(r, i) && #[trigger] is_root(
            r,
            j,
        ) implies i == j by {
        if i != index {
            assert(is_root(s, i));
        }
        if j != index {
            assert(is_root(s, j));
        }
    }
}

/// An array whose every node is registered in a well-formed tree is
/// well-formed; before any node is registered there is nothing to ask.
pub proof fn lemma_all_registered(s: Seq<Node>)
    ensures
        well_formed_on(s, Set::empty()),
        well_formed_on(s, Set::new(|i: int| 0 <= i < s.len())) ==> well_formed(s),
{
    let all = Set::new(|i: int| 0 <= i < s.len());
    if well_formed_on(s, all) {
        assert forall|i: int| 0 <= i < s.len() implies #[trigger] links_ok(s, i) by {
            assert(all.contains(i));
        }
        assert forall|i: int, j: int|
            0 <= i < s.len() && 0 <= j < s.len() && #[trigger] is_root(s, i) && #[trigger] is_root(
                s,
                j,
            ) implies i == j by {
            assert(all.contains(i));
            assert(all.contains(j));
        }
    }
}

/// The links of node `i` are in order after a tip moved to a free slot of
/// another node.
#[verifier::rlimit(60)]
#[verifier::spinoff_prover]
pub proof fn lemma_relocate_tip_node(s: Seq<Node>, node: usize, np: usize, i: int)
    requires
        well_formed(s),
        node < s.len(),
        np < s.len(),
        np != node,
        s[node as int].tip,
        s[node as int].parent is Some,
        after_detach(s, node)[np as int].children.1 is None,
        s[np as int].depth < usize::MAX,
        0 <= i < s.len(),
    ensures
        links_ok(after_relocate(s, node, np), i),
{
    let r = after_relocate(s, node, np);
    let op = s[node as int].parent->0;
    let s1 = after_detach(s, node);
    let s2 = after_attach(s1, node, np);
    assert(links_ok(s, node as int));
    assert(links_ok(s, op as int));
    assert(links_ok(s, np as int));
    assert(links_ok(s, i));
    assert(op != node);
    assert(s1[node as int] == s[node as int]);
    assert(s2[np as int].depth == s[np as int].depth);
    assert(r[node as int] == (Node {
        parent: Some(np),
        depth: (s[np as int].depth + 1) as usize,
        ..s[node as int]
    }));
    assert(!s1[np as int].has_child(node)) by {
        if np != op && s[np as int].has_child(node) {
            if s[np as int].children.0 == Some(node) {
                assert(s[node as int].parent == Some(np));
            } else {
                assert(s[node as int].parent == Some(np));
            }
        }
    }
    assert(r[np as int].children == with_child(s1[np as int].children, node));
    assert(r[np as int].has_child(node));
    if i != node {
        assert(r[i].parent == s[i].parent);
        assert(r[i].depth == s[i].depth);
        assert(r[i].index == s[i].index);
        if i != op && i != np {
            assert(r[i] == s[i]);
        }
        if s[i].parent is Some {
            let p = s[i].parent->0;
            assert(links_ok(s, p as int));
            assert(p != node);
            assert(r[p as int].depth == s[p as int].depth);
            assert(s[p as int].has_child(i as usize));
            assert(s1[p as int].has_child(i as usize));
            assert(r[p as int].has_child(i as usize));
        }
        if r[i].children.0 is Some {
            let c = r[i].children.0->0;
            if c != node {
                assert(s[i].has_child(c));
                assert(links_ok(s, c as int));
                assert(r[c as int].parent == s[c as int].parent);
            }
        }
        if r[i].children.1 is Some {
            let c = r[i].children.1->0;
            if c != node {
                assert(s[i].has_child(c));
                assert(links_ok(s, c as int));
                assert(r[c as int].parent == s[c as int].parent);
            }
        }
    }
}

/// Moving a tip to a free slot of another node keeps a well-formed tree
/// well-formed: no depth below the moved node can go stale.
pub proof fn lemma_relocate_tip(s: Seq<Node>, node: usize, np: usize)
    requires
        well_formed(s),
        node < s.len(),
        np < s.len(),
        np != node,
        s[node as int].tip,
        s[node as int].parent is Some,
        after_detach(s, node)[np as int].children.1 is None,
        s[np as int].depth < usize::MAX,
    ensures
        well_formed(after_relocate(s, node, np)),
{
    let r = after_relocate(s, node, np);
    assert(links_ok(s, node as int));
    assert forall|i: int| 0 <= i < r.len() implies #[trigger] links_ok(r, i) by {
        lemma_relocate_tip_node(s, node, np, i);
    }
    assert forall|i: int, j: int|
        0 <= i < r.len() && 0 <= j < r.len() && #[trigger] is_root(r, i) && #[trigger] is_root(
            r,
            j,
        ) implies i == j by {
        assert(is_root(s, i));
        assert(is_root(s, j));
    }
}

/// The two arrays hold the same nodes but for the depths they record.
pub open spec fn same_links(s: Seq<Node>, t: Seq<Node>) -> bool {
    &&& s.len() == t.len()
    &&& forall|x: int| 0 <= x < s.len() ==> #[trigger] s[x] == (Node { depth: s[x].depth, ..t[x] })
}

/// Counting the links up from a node gives the depth that a well-formed
/// array with the same links records for it, once the count may run that
/// far.
pub proof fn lemma_climb(s: Seq<Node>, t: Seq<Node>, x: usize, fuel: nat)
    requires
        well_formed(t),
        same_links(s, t),
        x < s.len(),
        fuel >= t[x as int].depth,
    ensures
        climb(s, x, fuel) == t[x as int].depth,
    decreases fuel,
{
    assert(links_ok(t, x as int));
    assert(s[x as int].parent == t[x as int].parent);
    if fuel > 0 && t[x as int].parent is Some {
        lemma_climb(s, t, t[x as int].parent->0, (fuel - 1) as nat);
    }
}

/// Setting the depths anew makes an array well-formed whose links are
/// those of a well-formed array: it then is that array.
pub proof fn lemma_refreshed(s: Seq<Node>, t: Seq<Node>)
    requires
        well_formed(t),
        same_links(s, t),
    ensures
        refreshed(s) == t,
        well_formed(refreshed(s)),
{
    assert forall|x: int| 0 <= x < s.len() implies refreshed(s)[x] == t[x] by {
        assert(links_ok(t, x));
        lemma_depth_bound(t, x as usize);
        lemma_climb(s, t, x as usize, s.len());
    }
    assert(refreshed(s) =~= t);
}

/// The array that `relocate` leaves, with the depths below the moved node
/// brought in line with its new place.
pub open spec fn relocated_level(s: Seq<Node>, node: usize, np: usize) -> Seq<Node> {
    let r = after_relocate(s, node, np);
    Seq::new(
        s.len(),
        |x: int|
            Node {
                depth: if reaches(s, node, x as usize) {
                    (s[x].depth + s[np as int].depth + 1 - s[node as int].depth) as usize
                } else {
                    s[x].depth
                },
                ..r[x]
            },
    )
}

/// The links of node `i` are in order after a node moved to a free slot of
/// a node that does not lie below it and the depths below it were brought in
/// line.
#[verifier::rlimit(80)]
#[verifier::spinoff_prover]
pub proof fn lemma_relocate_level_node(s: Seq<Node>, node: usize, np: usize, i: usize)
    requires
        well_formed(s),
        2 * s.len() <= usize::MAX,
        node < s.len(),
        np < s.len(),
        s[node as int].parent is Some,
        !reaches(s, node, np),
        after_detach(s, node)[np as int].children.1 is None,
        i < s.len(),
    ensures
        links_ok(relocated_level(s, node, np), i as int),
{
    let r = after_relocate(s, node, np);
    let t = relocated_level(s, node, np);
    let op = s[node as int].parent->0;
    let s1 = after_detach(s, node);
    lemma_links(s, node);
    lemma_links(s, op);
    lemma_links(s, np);
    lemma_links(s, i);
    assert(reaches(s, node, node));
    assert(op != node);
    assert(np != node);
    if reaches(s, node, op) {
        lemma_reaches_depth(s, node, op);
    }
    if reaches(s, node, i) {
        lemma_reaches_depth(s, node, i);
    }
    assert(s1[node as int] == s[node as int]);
    assert(r[node as int].parent == Some(np));
    assert(r[node as int].children == s[node as int].children);
    assert(!s1[np as int].has_child(node)) by {
        if np != op && s[np as int].has_child(node) {
            assert(s[node as int].parent == Some(np));
        }
    }
    assert(r[np as int].children == with_child(s1[np as int].children, node));
    assert(r[np as int].has_child(node));
    assert(t[np as int].depth == s[np as int].depth);
    assert(t[node as int].depth == s[np as int].depth + 1);
    if i != node {
        assert(r[i as int].parent == s[i as int].parent);
        assert(r[i as int].index == s[i as int].index);
        if i != op && i != np {
            assert(r[i as int].children == s[i as int].children);
            assert(r[i as int].tip == s[i as int].tip);
        }
        if s[i as int].parent is Some {
            let p = s[i as int].parent->0;
            lemma_links(s, p);
            if reaches(s, node, p) {
                lemma_reaches_depth(s, node, p);
            }
            assert(reaches(s, node, i) <==> reaches(s, node, p));
            assert(s[p as int].has_child(i));
            assert(s1[p as int].has_child(i));
            assert(r[p as int].has_child(i));
            assert(t[i as int].depth == t[p as int].depth + 1);
        }
        if r[i as int].children.0 is Some {
            let c = r[i as int].children.0->0;
            if c != node {
                assert(s[i as int].has_child(c));
                lemma_links(s, c);
                assert(r[c as int].parent == s[c as int].parent);
            }
        }
        if r[i as int].children.1 is Some {
            let c = r[i as int].children.1->0;
            if c != node {
                assert(s[i as int].has_child(c));
                lemma_links(s, c);
                assert(r[c as int].parent == s[c as int].parent);
            }
        }
    } else {
        if s[node as int].children.0 is Some {
            let c = s[node as int].children.0->0;
            lemma_links(s, c);
            assert(r[c as int].parent == s[c as int].parent);
        }
        if s[node as int].children.1 is Some {
            let c = s[node as int].children.1->0;
            lemma_links(s, c);
            assert(r[c as int].parent == s[c as int].parent);
        }
    }
}

/// After a node moved to a free slot of a node that does not lie below it,
/// setting the depths anew gives a well-formed tree again: the moved
/// subtree lies as deep as its new place asks for.
pub proof fn lemma_relocate_refresh(s: Seq<Node>, node: usize, np: usize)
    requires
        well_formed(s),
        2 * s.len() <= usize::MAX,
        node < s.len(),
        np < s.len(),
        s[node as int].parent is Some,
        !reaches(s, node, np),
        after_detach(s, node)[np as int].children.1 is None,
    ensures
        refreshed(after_relocate(s, node, np)) == relocated_level(s, node, np),
        well_formed(refreshed(after_relocate(s, node, np))),
{
    let r = after_relocate(s, node, np);
    let t = relocated_level(s, node, np);
    assert forall|i: int| 0 <= i < t.len() implies #[trigger] links_ok(t, i) by {
        assert(links_ok(s, i));
        lemma_relocate_level_node(s, node, np, i as usize);
    }
    assert forall|i: int, j: int|
        0 <= i < t.len() && 0 <= j < t.len() && #[trigger] is_root(t, i) && #[trigger] is_root(
            t,
            j,
        ) implies i == j by {
        assert(links_ok(s, node as int));
        assert(is_root(s, i));
        assert(is_root(s, j));
    }
    assert(links_ok(s, node as int));
    assert(r.len() == s.len());
    assert forall|x: int| 0 <= x < r.len() implies #[trigger] r[x] == (Node {
        depth: r[x].depth,
        ..t[x]
    }) by {}
    assert(same_links(r, t));
    lemma_refreshed(r, t);
}

} // verus!

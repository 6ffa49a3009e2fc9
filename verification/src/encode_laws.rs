use crate::codec::{
    attach, decoded, inner_id, joined, lemma_attach_pointwise, lemma_decoded, lemma_join_facts,
    lemma_order, lemma_rank, lemma_shaped, links, order, replaced, target, valid_vector, Link,
};
use crate::encode::{
    collapsed, detach, encoded, encoded_prefix, entries_for, entry, home, lemma_encoded_valid,
    lemma_order_prefix, links_of, met, met_at, parent_met, place, sibling_met,
};
use crate::node::Node;
use crate::paths::lemma_depth_bound;
use crate::tree::{is_root, links_ok, strictly_binary, well_formed};
use vstd::prelude::*;

verus! {

/// The array holds `2k + 1` nodes and its tips are the ids `0..=k`.
pub open spec fn leaves_first(s: Seq<Node>, k: nat) -> bool {
    &&& s.len() == 2 * k + 1
    &&& forall|x: int| 0 <= x < s.len() ==> ((#[trigger] s[x]).tip <==> x <= k)
}

/// A well-formed tree of `k + 1` leaves in which every inner node has two
/// children and the leaves have the ids `0..=k`.
pub open spec fn leafy(s: Seq<Node>, k: nat) -> bool {
    &&& well_formed(s)
    &&& strictly_binary(s)
    &&& leaves_first(s, k)
    &&& 2 * k + 1 <= usize::MAX
}

/// Whether node `x` is still part of the tree when the leaves above `n`
/// have left: a leaf up to `n`, or an inner node from which no leaf has
/// left yet.
pub open spec fn alive(s: Seq<Node>, k: nat, n: nat, x: usize) -> bool {
    x <= n || (k < x < s.len() && home(links_of(s), k, x, n) is None)
}

/// `c` is still part of the tree and names `x` as its parent.
pub open spec fn kid_tidy(s: Seq<Node>, k: nat, n: nat, x: usize, c: usize) -> bool {
    c < s.len() && alive(s, k, n, c) && collapsed(links_of(s), k, n)[c as int].parent == Some(x)
}

/// The links that node `x` has when the leaves above `n` have left are
/// those of a node of a binary tree: none where it is no part of the tree,
/// no children at a leaf, two different children at an inner node, and a
/// parent that lists it and stood above it from the start.
pub open spec fn node_tidy(s: Seq<Node>, k: nat, n: nat, x: usize) -> bool {
    let c = collapsed(links_of(s), k, n);
    let me = c[x as int];
    if !alive(s, k, n, x) {
        me == Link::spec_default()
    } else {
        &&& (x <= k ==> me.children == (None::<usize>, None::<usize>))
        &&& (x > k ==> {
            &&& me.children.0 is Some
            &&& me.children.1 is Some
            &&& me.children.0 != me.children.1
            &&& kid_tidy(s, k, n, x, me.children.0->0)
            &&& kid_tidy(s, k, n, x, me.children.1->0)
        })
        &&& (me.parent matches Some(p) ==> k < p < s.len() && alive(s, k, n, p) && c[p as int].has_child(
            x,
        ) && s[p as int].depth < s[x as int].depth)
    }
}

/// Node `x` is still part of the tree and has no parent.
pub open spec fn bare(s: Seq<Node>, k: nat, n: nat, x: usize) -> bool {
    alive(s, k, n, x) && collapsed(links_of(s), k, n)[x as int].parent is None
}

/// What is left when the leaves above `n` have gone is a binary tree with
/// one root.
pub open spec fn tidy(s: Seq<Node>, k: nat, n: nat) -> bool {
    &&& collapsed(links_of(s), k, n).len() == s.len()
    &&& forall|x: usize| x < s.len() ==> #[trigger] node_tidy(s, k, n, x)
    &&& forall|x: usize, y: usize|
        x < s.len() && y < s.len() && #[trigger] bare(s, k, n, x) && #[trigger] bare(s, k, n, y)
            ==> x == y
}

/// The inner node from which leaf `n + 1` leaves.
pub open spec fn left_from(s: Seq<Node>, k: nat, n: nat) -> usize {
    parent_met(links_of(s), k, n)->0
}

/// The sibling that leaf `n + 1` has when it leaves.
pub open spec fn left_beside(s: Seq<Node>, k: nat, n: nat) -> usize {
    sibling_met(links_of(s), k, n)->0
}

/// Before any leaf has left, the tree is as the array gives it.
pub proof fn lemma_tidy_full(s: Seq<Node>, k: nat)
    requires
        leafy(s, k),
    ensures
        tidy(s, k, k),
{
    let c = collapsed(links_of(s), k, k);
    assert(c =~= links_of(s));
    assert forall|x: usize| x < s.len() implies alive(s, k, k, x) by {}
    assert forall|x: usize| x < s.len() implies #[trigger] node_tidy(s, k, k, x) by {
        assert(links_ok(s, x as int));
        assert(s[x as int].children.0 is Some ==> s[x as int].children.1 is Some);
        if s[x as int].parent is Some {
            let p = s[x as int].parent->0;
            assert(links_ok(s, p as int));
            assert(!s[p as int].tip);
            assert(alive(s, k, k, p));
        }
        if s[x as int].children.0 is Some {
            assert(alive(s, k, k, s[x as int].children.0->0));
        }
        if s[x as int].children.1 is Some {
            assert(alive(s, k, k, s[x as int].children.1->0));
        }
    }
    assert forall|x: usize, y: usize|
        x < s.len() && y < s.len() && #[trigger] bare(s, k, k, x) && #[trigger] bare(
            s,
            k,
            k,
            y,
        ) implies x == y by {
        assert(is_root(s, x as int));
        assert(is_root(s, y as int));
    }
}

/// From every node that is still part of the tree the way up ends at a root
/// that is the node itself or an inner node.
pub proof fn lemma_top(s: Seq<Node>, k: nat, n: nat, x: usize) -> (r: usize)
    requires
        tidy(s, k, n),
        x < s.len(),
        alive(s, k, n, x),
    ensures
        r < s.len(),
        bare(s, k, n, r),
        r == x || r > k,
    decreases s[x as int].depth,
{
    assert(node_tidy(s, k, n, x));
    let c = collapsed(links_of(s), k, n);
    if c[x as int].parent is Some {
        lemma_top(s, k, n, c[x as int].parent->0)
    } else {
        x
    }
}

/// How leaf `n + 1` leaves: from an inner node that is part of the tree,
/// beside a sibling that is part of it, and below a grandparent, if any,
/// that differs from all three.
pub proof fn lemma_untie(s: Seq<Node>, k: nat, n: nat)
    requires
        2 * k + 1 <= usize::MAX,
        s.len() == 2 * k + 1,
        n < k,
        tidy(s, k, n + 1),
    ensures
        ({
            let c = collapsed(links_of(s), k, n + 1);
            let b = (n + 1) as usize;
            let q = left_from(s, k, n);
            let t = left_beside(s, k, n);
            &&& met(links_of(s), k, n) == Some((q, t))
            &&& met_at(c, b) == Some((q, t))
            &&& k < q < s.len() && t < s.len() && t != b && t != q
            &&& alive(s, k, n + 1, q) && alive(s, k, n + 1, t)
            &&& c[b as int].parent == Some(q) && c[t as int].parent == Some(q)
            &&& c[q as int].has_child(b) && c[q as int].has_child(t)
            &&& s[q as int].depth < s[t as int].depth
            &&& (c[q as int].parent matches Some(g) ==> k < g < s.len() && g != b && g != q && g != t
                && alive(s, k, n + 1, g) && c[g as int].has_child(q) && s[g as int].depth
                < s[q as int].depth)
        }),
{
    let c = collapsed(links_of(s), k, n + 1);
    let b = (n + 1) as usize;
    assert(alive(s, k, n + 1, b));
    assert(node_tidy(s, k, n + 1, b));
    if c[b as int].parent is None {
        assert(bare(s, k, n + 1, b));
        assert(alive(s, k, n + 1, 0));
        let r = lemma_top(s, k, n + 1, 0);
        assert(r == b);
    }
    let q = c[b as int].parent->0;
    assert(node_tidy(s, k, n + 1, q));
    let kids = c[q as int].children;
    let t = if kids.0 == Some(b) {
        kids.1->0
    } else {
        kids.0->0
    };
    assert(kid_tidy(s, k, n + 1, q, t));
    assert(node_tidy(s, k, n + 1, t));
    assert(met_at(c, b) == Some((q, t)));
    if c[q as int].parent is Some {
        let g = c[q as int].parent->0;
        assert(node_tidy(s, k, n + 1, g));
    }
}

/// What `detach` leaves at each node, where the nodes it touches differ.
pub proof fn lemma_detach_pointwise(l: Seq<Link>, b: usize, q: usize, t: usize)
    requires
        met_at(l, b) == Some((q, t)),
        b != q,
        b != t,
        q != t,
        l[q as int].parent matches Some(g) ==> g < l.len() && g != b && g != q && g != t,
    ensures
        detach(l, b).len() == l.len(),
        detach(l, b)[b as int] == Link::spec_default(),
        detach(l, b)[q as int] == Link::spec_default(),
        detach(l, b)[t as int] == (Link {
            parent: l[q as int].parent,
            children: l[t as int].children,
        }),
        l[q as int].parent matches Some(g) ==> detach(l, b)[g as int] == (Link {
            parent: l[g as int].parent,
            children: replaced(l[g as int].children, q, t),
        }),
        forall|x: int|
            0 <= x < l.len() && x != b && x != q && x != t && l[q as int].parent != Some(x as usize)
                ==> #[trigger] detach(l, b)[x] == l[x],
{
}

/// Who is part of the tree once leaf `n + 1` has left: who was before, but
/// for that leaf and the inner node it left from.
pub proof fn lemma_alive_step(s: Seq<Node>, k: nat, n: nat, x: usize)
    requires
        2 * k + 1 <= usize::MAX,
        s.len() == 2 * k + 1,
        n < k,
        tidy(s, k, n + 1),
        x < s.len(),
    ensures
        alive(s, k, n, x) <==> (alive(s, k, n + 1, x) && x != n + 1 && x != left_from(s, k, n)),
{
    lemma_untie(s, k, n);
}

/// Node `x` has the links of a node of a binary tree once leaf `n + 1` has
/// left.
pub proof fn lemma_tidy_node(s: Seq<Node>, k: nat, n: nat, x: usize)
    requires
        2 * k + 1 <= usize::MAX,
        s.len() == 2 * k + 1,
        n < k,
        tidy(s, k, n + 1),
        x < s.len(),
    ensures
        node_tidy(s, k, n, x),
{
    let c = collapsed(links_of(s), k, n + 1);
    let c1 = collapsed(links_of(s), k, n);
    let b = (n + 1) as usize;
    let q = left_from(s, k, n);
    let t = left_beside(s, k, n);
    lemma_untie(s, k, n);
    assert(c1 == detach(c, b));
    lemma_detach_pointwise(c, b, q, t);
    let g = c[q as int].parent;
    assert(node_tidy(s, k, n + 1, x));
    assert(node_tidy(s, k, n + 1, q));
    assert(node_tidy(s, k, n + 1, t));
    lemma_alive_step(s, k, n, x);
    lemma_alive_step(s, k, n, t);
    if g is Some {
        lemma_alive_step(s, k, n, g->0);
        assert(node_tidy(s, k, n + 1, g->0));
    }
    if x == b || x == q {
    } else if x == t {
        if t > k {
            let k0 = c[t as int].children.0->0;
            let k1 = c[t as int].children.1->0;
            assert(node_tidy(s, k, n + 1, k0));
            assert(node_tidy(s, k, n + 1, k1));
            lemma_alive_step(s, k, n, k0);
            lemma_alive_step(s, k, n, k1);
            assert(c1[k0 as int].parent == c[k0 as int].parent);
            assert(c1[k1 as int].parent == c[k1 as int].parent);
            assert(kid_tidy(s, k, n, x, k0));
            assert(kid_tidy(s, k, n, x, k1));
        }
        if g is Some {
            assert(c1[g->0 as int].has_child(t));
        }
    } else if g == Some(x) {
        let k0 = c[x as int].children.0->0;
        let k1 = c[x as int].children.1->0;
        assert(c[x as int].has_child(q));
        assert(node_tidy(s, k, n + 1, k0));
        assert(node_tidy(s, k, n + 1, k1));
        lemma_alive_step(s, k, n, k0);
        lemma_alive_step(s, k, n, k1);
        if k0 == q {
            assert(c1[k1 as int].parent == c[k1 as int].parent);
            assert(kid_tidy(s, k, n, x, t));
            assert(kid_tidy(s, k, n, x, k1));
        } else {
            assert(k1 == q);
            assert(c1[k0 as int].parent == c[k0 as int].parent);
            assert(kid_tidy(s, k, n, x, k0));
            assert(kid_tidy(s, k, n, x, t));
        }
        if c[x as int].parent is Some {
            let pp = c[x as int].parent->0;
            assert(node_tidy(s, k, n + 1, pp));
            lemma_alive_step(s, k, n, pp);
            assert(c1[pp as int] == c[pp as int]);
        }
    } else {
        assert(c1[x as int] == c[x as int]);
        if alive(s, k, n + 1, x) {
            if x > k {
                let k0 = c[x as int].children.0->0;
                let k1 = c[x as int].children.1->0;
                lemma_alive_step(s, k, n, k0);
                lemma_alive_step(s, k, n, k1);
                assert(c1[k0 as int].parent == c[k0 as int].parent);
                assert(c1[k1 as int].parent == c[k1 as int].parent);
                assert(kid_tidy(s, k, n, x, k0));
                assert(kid_tidy(s, k, n, x, k1));
            }
            if c[x as int].parent is Some {
                let p = c[x as int].parent->0;
                assert(node_tidy(s, k, n + 1, p));
                lemma_alive_step(s, k, n, p);
                if g == Some(p) {
                    assert(c[p as int].has_child(q));
                    assert(c1[p as int].has_child(x));
                } else if p == t {
                    assert(c1[p as int].has_child(x));
                } else {
                    assert(c1[p as int] == c[p as int]);
                }
            }
        }
    }
}

/// What is left stays a binary tree with one root when the next leaf
/// leaves.
pub proof fn lemma_tidy_step(s: Seq<Node>, k: nat, n: nat)
    requires
        2 * k + 1 <= usize::MAX,
        s.len() == 2 * k + 1,
        n < k,
        tidy(s, k, n + 1),
    ensures
        tidy(s, k, n),
{
    let c = collapsed(links_of(s), k, n + 1);
    let c1 = collapsed(links_of(s), k, n);
    let b = (n + 1) as usize;
    let q = left_from(s, k, n);
    let t = left_beside(s, k, n);
    lemma_untie(s, k, n);
    assert(c1 == detach(c, b));
    lemma_detach_pointwise(c, b, q, t);
    let g = c[q as int].parent;
    assert forall|x: usize| x < s.len() implies #[trigger] node_tidy(s, k, n, x) by {
        lemma_tidy_node(s, k, n, x);
    }
    assert forall|x: usize, y: usize|
        x < s.len() && y < s.len() && #[trigger] bare(s, k, n, x) && #[trigger] bare(
            s,
            k,
            n,
            y,
        ) implies x == y by {
        lemma_alive_step(s, k, n, x);
        lemma_alive_step(s, k, n, y);
        let fx = if x == t { q } else { x };
        let fy = if y == t { q } else { y };
        assert(c1[x as int].parent == if x == t { g } else { c[x as int].parent });
        assert(c1[y as int].parent == if y == t { g } else { c[y as int].parent });
        assert(bare(s, k, n + 1, fx));
        assert(bare(s, k, n + 1, fy));
    }
}

/// What is left when the leaves above `n` have gone is a binary tree with
/// one root.
pub proof fn lemma_tidy(s: Seq<Node>, k: nat, n: nat)
    requires
        leafy(s, k),
        n <= k,
    ensures
        tidy(s, k, n),
    decreases k - n,
{
    if n == k {
        lemma_tidy_full(s, k);
    } else {
        lemma_tidy(s, k, n + 1);
        lemma_tidy_step(s, k, n);
    }
}

/// An entry found as the home of a node is one whose leaf left from it.
pub proof fn lemma_home_found(l: Seq<Link>, k: nat, x: usize, from: nat)
    requires
        k <= usize::MAX,
    ensures
        home(l, k, x, from) matches Some(m) ==> from <= m < k && parent_met(l, k, m as nat) == Some(
            x,
        ),
    decreases k - from,
{
    if from < k && parent_met(l, k, from) != Some(x) {
        lemma_home_found(l, k, x, from + 1);
    }
}

/// A node from which a leaf leaves at `m` or later has a home from any
/// entry up to `m` on.
pub proof fn lemma_home_later(l: Seq<Link>, k: nat, x: usize, from: nat, m: nat)
    requires
        from <= m < k,
        parent_met(l, k, m) == Some(x),
    ensures
        home(l, k, x, from) is Some,
    decreases m - from,
{
    if from < m && parent_met(l, k, from) != Some(x) {
        lemma_home_later(l, k, x, from + 1, m);
    }
}

/// The inner node from which leaf `n + 1` leaves has entry `n` as its home:
/// no leaf left from it before.
pub proof fn lemma_home_of_parent(s: Seq<Node>, k: nat, n: nat, j: nat)
    requires
        leafy(s, k),
        j <= n < k,
    ensures
        home(links_of(s), k, left_from(s, k, n), j) == Some(n as usize),
    decreases n - j,
{
    lemma_tidy(s, k, n + 1);
    lemma_untie(s, k, n);
    if j < n {
        lemma_home_of_parent(s, k, n, j + 1);
        lemma_tidy(s, k, j + 1);
        lemma_untie(s, k, j);
    }
}

/// When all leaves but leaf `0` have left, no inner node is left.
pub proof fn lemma_no_inner_at_zero(s: Seq<Node>, k: nat, x: usize)
    requires
        leafy(s, k),
        k < x < s.len(),
    ensures
        !alive(s, k, 0, x),
    decreases s.len() - s[x as int].depth,
{
    if alive(s, k, 0, x) {
        lemma_tidy(s, k, 0);
        assert(node_tidy(s, k, 0, x));
        let c = collapsed(links_of(s), k, 0);
        let k0 = c[x as int].children.0->0;
        let k1 = c[x as int].children.1->0;
        assert(kid_tidy(s, k, 0, x, k0));
        assert(kid_tidy(s, k, 0, x, k1));
        let down = if k0 > k {
            k0
        } else {
            k1
        };
        assert(node_tidy(s, k, 0, down));
        lemma_depth_bound(s, down);
        lemma_no_inner_at_zero(s, k, down);
    }
}

/// An inner node that is part of the tree of the leaves `0..=n` has its
/// home among the entries before `n`.
pub proof fn lemma_home_before(s: Seq<Node>, k: nat, n: nat, x: usize)
    requires
        leafy(s, k),
        n <= k,
        k < x < s.len(),
        alive(s, k, n, x),
    ensures
        home(links_of(s), k, x, 0) matches Some(m) && m < n && parent_met(
            links_of(s),
            k,
            m as nat,
        ) == Some(x),
{
    let l = links_of(s);
    lemma_no_inner_at_zero(s, k, x);
    lemma_home_found(l, k, x, 0);
    let m = home(l, k, x, 0)->0;
    if m >= n {
        lemma_home_later(l, k, x, n, m as nat);
    }
}

/// The first entries of the encoding are the encoding's first entries.
pub proof fn lemma_prefix_take(l: Seq<Link>, k: nat, n: nat, m: nat)
    requires
        2 * k + 1 <= usize::MAX,
        n <= m <= k,
    ensures
        encoded_prefix(l, k, m).take(n as int) == encoded_prefix(l, k, n),
    decreases m,
{
    lemma_encoded_valid(l, k, m);
    lemma_encoded_valid(l, k, n);
    if n == m {
        assert(encoded_prefix(l, k, m).take(n as int) =~= encoded_prefix(l, k, n));
    } else {
        lemma_prefix_take(l, k, n, (m - 1) as nat);
        lemma_encoded_valid(l, k, (m - 1) as nat);
        let w = encoded_prefix(l, k, (m - 1) as nat);
        assert(encoded_prefix(l, k, m).take(n as int) =~= w.take(n as int));
    }
}

/// An entry that the list holds at `i` is found at `i` or before, and the
/// list holds it where it is found.
pub proof fn lemma_place_found(q: Seq<usize>, x: usize, from: int, i: int)
    requires
        0 <= from <= i < q.len(),
        q[i] == x,
    ensures
        from <= place(q, x, from) <= i,
        q[place(q, x, from)] == x,
    decreases i - from,
{
    if q[from] != x {
        lemma_place_found(q, x, from + 1, i);
    }
}

/// The id that node `x` has in the tree that the encoding decodes to: its
/// own for a leaf, for an inner node that of the inner node that its home
/// entry creates.
pub open spec fn renamed(s: Seq<Node>, k: nat, x: usize) -> usize {
    if x <= k {
        x
    } else {
        inner_id(encoded(s), home(links_of(s), k, x, 0)->0)
    }
}

/// The renamed parent link.
pub open spec fn lifted(s: Seq<Node>, k: nat, o: Option<usize>) -> Option<usize> {
    match o {
        Some(p) => Some(renamed(s, k, p)),
        None => None,
    }
}

/// The encoding of a leafy tree is a legal vector of `k` entries.
pub proof fn lemma_encoded_leafy(s: Seq<Node>, k: nat)
    requires
        leafy(s, k),
    ensures
        encoded(s) == encoded_prefix(links_of(s), k, k),
        encoded(s).len() == k,
        valid_vector(encoded(s)),
{
    assert(entries_for(s.len()) == k);
    lemma_encoded_valid(links_of(s), k, k);
}

/// Renaming keeps nodes apart, keeps leaves leaves and inner nodes inner
/// nodes.
pub proof fn lemma_renamed_apart(s: Seq<Node>, k: nat, x: usize, y: usize)
    requires
        leafy(s, k),
        x < s.len(),
        y < s.len(),
    ensures
        renamed(s, k, x) < s.len(),
        x > k ==> renamed(s, k, x) > k,
        x != y ==> renamed(s, k, x) != renamed(s, k, y),
{
    let v = encoded(s);
    lemma_encoded_leafy(s, k);
    lemma_tidy_full(s, k);
    if x > k {
        lemma_home_before(s, k, k, x);
        lemma_rank(v, home(links_of(s), k, x, 0)->0);
    }
    if y > k {
        lemma_home_before(s, k, k, y);
        lemma_rank(v, home(links_of(s), k, y, 0)->0);
    }
}

/// Entry `n` of the encoding names, in the ids of the decoded tree, the
/// sibling that leaf `n + 1` has when it leaves, and the inner node that the
/// entry creates is the one that the leaf leaves from.
pub proof fn lemma_entry_targets(s: Seq<Node>, k: nat, n: nat)
    requires
        leafy(s, k),
        n < k,
    ensures
        target(encoded(s), n as int) == renamed(s, k, left_beside(s, k, n)),
        inner_id(encoded(s), n as usize) == renamed(s, k, left_from(s, k, n)),
{
    let l = links_of(s);
    let v = encoded(s);
    let b = (n + 1) as usize;
    let q = left_from(s, k, n);
    let t = left_beside(s, k, n);
    lemma_encoded_leafy(s, k);
    lemma_tidy(s, k, n + 1);
    lemma_untie(s, k, n);
    lemma_home_of_parent(s, k, n, 0);
    let w = encoded_prefix(l, k, n);
    lemma_prefix_take(l, k, n, k);
    lemma_prefix_take(l, k, n + 1, k);
    lemma_encoded_valid(l, k, n);
    lemma_order_prefix(w, v, n);
    let oo = order(v, n);
    assert(encoded_prefix(l, k, n + 1)[n as int] == entry(l, k, n, order(w, n)));
    assert(v.take((n + 1) as int)[n as int] == v[n as int]);
    assert(v[n as int] == entry(l, k, n, oo));
    lemma_order(v, n);
    if t <= n {
        assert(v[n as int] == t);
    } else {
        lemma_alive_step(s, k, n, t);
        lemma_home_before(s, k, n, t);
        let m = home(l, k, t, 0)->0;
        assert(oo.contains(m));
        let i = choose|i: int| 0 <= i < oo.len() && oo[i] == m;
        lemma_place_found(oo, m, 0, i);
        let idx = place(oo, m, 0);
        assert(v[n as int] == n + 1 + idx);
        assert(joined(v, n as int) == m);
    }
}

/// The parent of node `x` in the decoded tree of the leaves `0..=n` is the
/// renamed parent that `x` has when the leaves above `n` have left.
pub open spec fn agrees_at(s: Seq<Node>, k: nat, n: nat, x: usize) -> bool {
    alive(s, k, n, x) ==> links(encoded(s), n)[renamed(s, k, x) as int].parent == lifted(
        s,
        k,
        collapsed(links_of(s), k, n)[x as int].parent,
    )
}

/// The decoded tree of the leaves `0..=n` and what is left of the array
/// when the leaves above `n` have gone have the same parents.
pub open spec fn agrees(s: Seq<Node>, k: nat, n: nat) -> bool {
    forall|x: usize| x < s.len() ==> #[trigger] agrees_at(s, k, n, x)
}

/// The parents of node `x` agree once leaf `n + 1` has joined on the one
/// side and not yet left on the other.
pub proof fn lemma_agree_node(s: Seq<Node>, k: nat, n: nat, x: usize)
    requires
        leafy(s, k),
        n < k,
        agrees(s, k, n),
        x < s.len(),
    ensures
        agrees_at(s, k, n + 1, x),
{
    let l0 = links_of(s);
    let v = encoded(s);
    let b = (n + 1) as usize;
    let q = left_from(s, k, n);
    let t = left_beside(s, k, n);
    let c = collapsed(l0, k, n + 1);
    let c1 = collapsed(l0, k, n);
    let low = links(v, n);
    let high = links(v, n + 1);
    let tt = target(v, n as int);
    let ii = inner_id(v, n as usize);
    lemma_encoded_leafy(s, k);
    lemma_tidy(s, k, n + 1);
    lemma_untie(s, k, n);
    assert(c1 == detach(c, b));
    lemma_detach_pointwise(c, b, q, t);
    lemma_entry_targets(s, k, n);
    lemma_shaped(v, n);
    lemma_join_facts(v, n);
    lemma_attach_pointwise(low, tt, ii, b);
    assert(high == attach(low, tt, ii, b));
    lemma_alive_step(s, k, n, x);
    lemma_alive_step(s, k, n, t);
    if alive(s, k, n + 1, x) {
        let rx = renamed(s, k, x);
        lemma_renamed_apart(s, k, x, t);
        lemma_renamed_apart(s, k, x, q);
        if x == b {
        } else if x == q {
            assert(agrees_at(s, k, n, t));
        } else if x == t {
        } else {
            assert(agrees_at(s, k, n, x));
            assert(rx != tt && rx != ii && rx != b);
            assert(attach(low, tt, ii, b)[rx as int].parent == low[rx as int].parent);
            assert(c1[x as int].parent == c[x as int].parent);
        }
    }
}

/// The decoded tree of the leaves `0..=n` and what is left of the array
/// when the leaves above `n` have gone have the same parents.
pub proof fn lemma_agrees(s: Seq<Node>, k: nat, n: nat)
    requires
        leafy(s, k),
        n <= k,
    ensures
        agrees(s, k, n),
    decreases n,
{
    if n == 0 {
        lemma_tidy(s, k, 0);
        assert forall|x: usize| x < s.len() implies #[trigger] agrees_at(s, k, 0, x) by {
            if alive(s, k, 0, x) {
                if x > k {
                    lemma_no_inner_at_zero(s, k, x);
                }
                assert(node_tidy(s, k, 0, x));
                let c = collapsed(links_of(s), k, 0);
                if c[x as int].parent is Some {
                    lemma_no_inner_at_zero(s, k, c[x as int].parent->0);
                }
            }
        }
    } else {
        lemma_agrees(s, k, (n - 1) as nat);
        assert forall|x: usize| x < s.len() implies #[trigger] agrees_at(s, k, n, x) by {
            lemma_agree_node(s, k, (n - 1) as nat, x);
        }
    }
}

/// `t` is the tree `s` with its inner nodes renamed: every node of `s` has
/// a node of `t` of its own, a leaf itself and an inner node an inner node,
/// and the parent of that node is the one that belongs to its parent in
/// `s`.
pub open spec fn same_tree(s: Seq<Node>, t: Seq<Node>, k: nat) -> bool {
    &&& t.len() == s.len()
    &&& forall|x: usize, y: usize|
        x < s.len() && y < s.len() && x != y ==> #[trigger] renamed(s, k, x) != #[trigger] renamed(
            s,
            k,
            y,
        )
    &&& forall|x: usize|
        x < s.len() ==> (#[trigger] renamed(s, k, x)) < s.len() && (x <= k ==> renamed(s, k, x) == x)
            && t[renamed(s, k, x) as int].parent == lifted(s, k, s[x as int].parent)
}

/// Decoding the encoding of a leafy tree gives the same leaf-labelled
/// tree: the leaves keep their ids, the inner nodes are renamed, and every
/// node has the parent it had.
pub proof fn lemma_encoding_keeps_tree(s: Seq<Node>, k: nat)
    requires
        leafy(s, k),
    ensures
        valid_vector(encoded(s)),
        encoded(s).len() == k,
        same_tree(s, decoded(encoded(s)), k),
{
    let v = encoded(s);
    lemma_encoded_leafy(s, k);
    lemma_shaped(v, k);
    lemma_agrees(s, k, k);
    assert(collapsed(links_of(s), k, k) =~= links_of(s));
    assert forall|x: usize, y: usize| x < s.len() && y < s.len() && x != y implies #[trigger] renamed(
        s,
        k,
        x,
    ) != #[trigger] renamed(s, k, y) by {
        lemma_renamed_apart(s, k, x, y);
    }
    assert forall|x: usize| x < s.len() implies (#[trigger] renamed(s, k, x)) < s.len() && (x <= k
        ==> renamed(s, k, x) == x) && decoded(v)[renamed(s, k, x) as int].parent == lifted(
        s,
        k,
        s[x as int].parent,
    ) by {
        lemma_renamed_apart(s, k, x, x);
        assert(agrees_at(s, k, k, x));
        assert(alive(s, k, k, x));
    }
}

/// What a legal vector decodes to is a leafy tree.
pub proof fn lemma_decoded_leafy(v: Seq<usize>)
    requires
        valid_vector(v),
        2 * v.len() + 1 <= usize::MAX,
    ensures
        leafy(decoded(v), v.len()),
{
    lemma_decoded(v);
}

} // verus!

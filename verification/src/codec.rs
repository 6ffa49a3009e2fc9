use crate::node::Node;
use crate::tree::{is_root, links_ok, strictly_binary, well_formed};
use vstd::prelude::*;

verus! {

/// The links of one node while a tree is put together: its parent and its
/// two child slots.
#[derive(Clone, Copy, Debug, PartialEq, Eq)]
pub struct Link {
    pub parent: Option<usize>,
    pub children: (Option<usize>, Option<usize>),
}

impl Link {
    /// No parent and no children.
    pub open spec fn spec_default() -> Link {
        Link { parent: None, children: (None, None) }
    }

    /// Whether `child` stands in one of the two slots.
    pub open spec fn has_child(&self, child: usize) -> bool {
        self.children.0 == Some(child) || self.children.1 == Some(child)
    }
}

/// A vector encodes a tree when entry `i`, which places leaf `i + 1`, names
/// one of the `2i + 1` nodes that the tree of the leaves `0..=i` has.
pub open spec fn valid_vector(v: Seq<usize>) -> bool {
    forall|i: int| 0 <= i < v.len() ==> #[trigger] v[i] <= 2 * i
}

/// Where entry `m` goes into the list that numbers the inner nodes: to the
/// front when leaf `m + 1` joins a leaf, else behind the inner node it joins.
pub open spec fn slot(v: Seq<usize>, m: int) -> int {
    if v[m] <= m {
        0
    } else {
        v[m] - m
    }
}

/// The entries `0..n` of the vector in the order in which the inner nodes
/// that they create are numbered, within the tree of the leaves `0..=n`.
pub open spec fn order(v: Seq<usize>, n: nat) -> Seq<usize>
    decreases n,
{
    if n == 0 {
        Seq::empty()
    } else {
        order(v, (n - 1) as nat).insert(slot(v, n - 1), (n - 1) as usize)
    }
}

/// The place of entry `p` among the inner nodes of the whole tree.
pub open spec fn rank(v: Seq<usize>, p: usize) -> int {
    order(v, v.len()).index_of(p)
}

/// The id of the inner node that entry `p` creates.
pub open spec fn inner_id(v: Seq<usize>, p: usize) -> usize {
    (v.len() + 1 + rank(v, p)) as usize
}

/// What entry `m` names: a leaf, or the entry whose inner node has the
/// number it gives within the tree of the leaves `0..=m`.
pub open spec fn joined(v: Seq<usize>, m: int) -> usize {
    if v[m] <= m {
        v[m]
    } else {
        order(v, m as nat)[v[m] - m - 1]
    }
}

/// The id of the node that leaf `m + 1` joins: the leaf that entry `m`
/// names, or the inner node of the entry that it names.
pub open spec fn target(v: Seq<usize>, m: int) -> usize {
    if v[m] <= m {
        v[m]
    } else {
        inner_id(v, joined(v, m))
    }
}

/// The pair of children with `new` in the place of `old`.
pub open spec fn replaced(c: (Option<usize>, Option<usize>), old: usize, new: usize) -> (
    Option<usize>,
    Option<usize>,
) {
    if c.0 == Some(old) {
        (Some(new), c.1)
    } else {
        (c.0, Some(new))
    }
}

/// The links after leaf `b` joined node `t`: the new inner node `i` takes the
/// place of `t` under the parent of `t`, and has `t` and `b` as its left and
/// right child.
pub open spec fn attach(l: Seq<Link>, t: usize, i: usize, b: usize) -> Seq<Link> {
    let g = l[t as int].parent;
    let l1 = match g {
        Some(gg) => l.update(
            gg as int,
            Link { parent: l[gg as int].parent, children: replaced(l[gg as int].children, t, i) },
        ),
        None => l,
    };
    l1.update(i as int, Link { parent: g, children: (Some(t), Some(b)) }).update(
        t as int,
        Link { parent: Some(i), children: l[t as int].children },
    ).update(b as int, Link { parent: Some(i), children: (None, None) })
}

/// The links of the tree of the leaves `0..=n`, in the ids of the whole
/// tree. Nodes that are not part of it yet have no links.
pub open spec fn links(v: Seq<usize>, n: nat) -> Seq<Link>
    decreases n,
{
    if n == 0 {
        Seq::new(2 * v.len() + 1, |i: int| Link::spec_default())
    } else {
        attach(
            links(v, (n - 1) as nat),
            target(v, n - 1),
            inner_id(v, (n - 1) as usize),
            n as usize,
        )
    }
}

/// The number of links from `x` up to a node without a parent, where every
/// parent has a larger id than its child.
pub open spec fn depth_in(l: Seq<Link>, x: int) -> nat
    decreases l.len() - x,
{
    if 0 <= x < l.len() && l[x].parent is Some && x < l[x].parent->0 < l.len() {
        depth_in(l, l[x].parent->0 as int) + 1
    } else {
        0
    }
}

/// An entry that stands at place `i` of a list without repetition is found
/// at `i`.
pub proof fn lemma_index_of(q: Seq<usize>, i: int)
    requires
        q.no_duplicates(),
        0 <= i < q.len(),
    ensures
        q.index_of(q[i]) == i,
{
    let j = q.index_of(q[i]);
    assert(0 <= j < q.len() && q[j] == q[i]);
}

/// The list of the first `n` entries holds each of them once.
pub proof fn lemma_order(v: Seq<usize>, n: nat)
    requires
        valid_vector(v),
        n <= v.len(),
        v.len() <= usize::MAX,
    ensures
        order(v, n).len() == n,
        order(v, n).no_duplicates(),
        forall|j: int| 0 <= j < n ==> (#[trigger] order(v, n)[j]) < n,
        forall|p: usize| p < n ==> order(v, n).contains(p),
    decreases n,
{
    if n > 0 {
        let m = (n - 1) as nat;
        lemma_order(v, m);
        let o = order(v, m);
        let s = slot(v, m as int);
        let o2 = order(v, n);
        assert(v[m as int] <= 2 * m);
        o.insert_ensures(s, m as usize);
        assert forall|j: int| 0 <= j < n implies (#[trigger] o2[j]) < n by {
            if j < s {
                assert(o2[j] == o[j]);
            } else if j > s {
                assert(o2[j] == o[j - 1]);
            }
        }
        assert forall|a: int, b: int| 0 <= a < n && 0 <= b < n && a != b implies o2[a] != o2[b] by {
            let a0 = if a < s { a } else { a - 1 };
            let b0 = if b < s { b } else { b - 1 };
            if a != s {
                assert(o2[a] == o[a0]);
            }
            if b != s {
                assert(o2[b] == o[b0]);
            }
        }
        assert forall|p: usize| p < n implies o2.contains(p) by {
            if p == m {
                assert(o2[s] == p);
            } else {
                assert(o.contains(p));
                let j = choose|j: int| 0 <= j < o.len() && o[j] == p;
                if j < s {
                    assert(o2[j] == p);
                } else {
                    assert(o2[j + 1] == o[j]);
                }
            }
        }
    }
}

/// Where an entry stands once entry `m` has gone into the list: entry `m` at
/// its slot, the entries before the slot where they were, the others one
/// place further on.
pub proof fn lemma_pos_step(v: Seq<usize>, m: nat, p: usize)
    requires
        valid_vector(v),
        v.len() <= usize::MAX,
        m < v.len(),
        p <= m,
    ensures
        0 <= slot(v, m as int) <= m,
        p < m ==> 0 <= order(v, m).index_of(p) < m && order(v, m)[order(v, m).index_of(p)] == p,
        order(v, m + 1).index_of(p) == if p == m {
            slot(v, m as int)
        } else if order(v, m).index_of(p) < slot(v, m as int) {
            order(v, m).index_of(p)
        } else {
            order(v, m).index_of(p) + 1
        },
{
    lemma_order(v, m);
    lemma_order(v, m + 1);
    let o = order(v, m);
    let s = slot(v, m as int);
    let o2 = order(v, m + 1);
    assert(v[m as int] <= 2 * m);
    o.insert_ensures(s, m as usize);
    if p == m {
        assert(o2[s] == p);
        lemma_index_of(o2, s);
    } else {
        assert(o.contains(p));
        let j = o.index_of(p);
        assert(0 <= j < o.len() && o[j] == p);
        if j < s {
            assert(o2[j] == p);
            lemma_index_of(o2, j);
        } else {
            assert(o2[j + 1] == o[j]);
            lemma_index_of(o2, j + 1);
        }
    }
}

/// Two entries keep their order in the list while later entries go in.
pub proof fn lemma_order_stable(v: Seq<usize>, n: nat, a: usize, b: usize)
    requires
        valid_vector(v),
        v.len() <= usize::MAX,
        n <= v.len(),
        a < n,
        b < n,
    ensures
        order(v, n).index_of(a) < order(v, n).index_of(b) <==> rank(v, a) < rank(v, b),
    decreases v.len() - n,
{
    if n < v.len() {
        lemma_pos_step(v, n, a);
        lemma_pos_step(v, n, b);
        lemma_order_stable(v, n + 1, a, b);
    }
}

/// The place of an entry among the inner nodes is a place of the list, and
/// the list holds the entry there.
pub proof fn lemma_rank(v: Seq<usize>, p: usize)
    requires
        valid_vector(v),
        v.len() <= usize::MAX,
        p < v.len(),
    ensures
        0 <= rank(v, p) < v.len(),
        order(v, v.len())[rank(v, p)] == p,
{
    lemma_order(v, v.len());
    assert(order(v, v.len()).contains(p));
}

/// Whether node `x` is part of the tree of the leaves `0..=n`: one of these
/// leaves, or the inner node of one of the entries `0..n`.
pub open spec fn active(v: Seq<usize>, n: nat, x: int) -> bool {
    let k = v.len() as int;
    (0 <= x <= n) || (k < x < 2 * k + 1 && order(v, v.len())[x - k - 1] < n)
}

/// `c` is a node of the tree of the leaves `0..=n` and names `x` as its
/// parent.
pub open spec fn child_shaped(v: Seq<usize>, n: nat, x: int, c: usize) -> bool {
    c < 2 * v.len() + 1 && active(v, n, c as int) && links(v, n)[c as int].parent == Some(
        x as usize,
    )
}

/// The links of node `x` in the tree of the leaves `0..=n` are those of a
/// node of a binary tree: none where it is no part of the tree, no children
/// at a leaf, two different children at an inner node, each of which names it
/// as parent, and a parent with a larger id that lists it as a child.
pub open spec fn node_shaped(v: Seq<usize>, n: nat, x: int) -> bool {
    let k = v.len() as int;
    let l = links(v, n);
    let me = l[x];
    if !active(v, n, x) {
        me == Link::spec_default()
    } else {
        &&& (x <= k ==> me.children == (None::<usize>, None::<usize>))
        &&& (x > k ==> {
            &&& me.children.0 is Some
            &&& me.children.1 is Some
            &&& me.children.0 != me.children.1
            &&& child_shaped(v, n, x, me.children.0->0)
            &&& child_shaped(v, n, x, me.children.1->0)
        })
        &&& (me.parent matches Some(p) ==> x < p < 2 * k + 1 && p > k && active(v, n, p as int)
            && l[p as int].has_child(x as usize))
    }
}

/// Node `x` is part of the tree of the leaves `0..=n` and has no parent.
pub open spec fn lone(v: Seq<usize>, n: nat, x: int) -> bool {
    active(v, n, x) && links(v, n)[x].parent is None
}

/// The links of the leaves `0..=n` form a binary tree with one root.
pub open spec fn shaped(v: Seq<usize>, n: nat) -> bool {
    let k = v.len() as int;
    &&& links(v, n).len() == 2 * k + 1
    &&& forall|x: int| 0 <= x < 2 * k + 1 ==> #[trigger] node_shaped(v, n, x)
    &&& forall|x: int, y: int|
        0 <= x < 2 * k + 1 && 0 <= y < 2 * k + 1 && #[trigger] lone(v, n, x) && #[trigger] lone(
            v,
            n,
            y,
        ) ==> x == y
}

/// What `attach` leaves at each node, where the nodes it touches differ.
pub proof fn lemma_attach_pointwise(l: Seq<Link>, t: usize, i: usize, b: usize)
    requires
        t < l.len(),
        i < l.len(),
        b < l.len(),
        t != i,
        t != b,
        i != b,
        l[t as int].parent matches Some(g) ==> g < l.len() && g != t && g != i && g != b,
    ensures
        attach(l, t, i, b).len() == l.len(),
        attach(l, t, i, b)[b as int] == (Link { parent: Some(i), children: (None, None) }),
        attach(l, t, i, b)[t as int] == (Link { parent: Some(i), children: l[t as int].children }),
        attach(l, t, i, b)[i as int] == (Link {
            parent: l[t as int].parent,
            children: (Some(t), Some(b)),
        }),
        l[t as int].parent matches Some(g) ==> attach(l, t, i, b)[g as int] == (Link {
            parent: l[g as int].parent,
            children: replaced(l[g as int].children, t, i),
        }),
        forall|x: int|
            0 <= x < l.len() && x != t && x != i && x != b && l[t as int].parent != Some(x as usize)
                ==> #[trigger] attach(l, t, i, b)[x] == l[x],
{
}

/// The nodes that the joining of leaf `n + 1` touches are nodes of the
/// array and differ from each other.
pub proof fn lemma_join_facts(v: Seq<usize>, n: nat)
    requires
        valid_vector(v),
        2 * v.len() + 1 <= usize::MAX,
        n < v.len(),
        shaped(v, n),
    ensures
        v[n as int] > n ==> joined(v, n as int) < n,
        target(v, n as int) < 2 * v.len() + 1,
        0 <= rank(v, n as usize) < v.len(),
        inner_id(v, n as usize) == v.len() + 1 + rank(v, n as usize),
        target(v, n as int) != inner_id(v, n as usize),
        target(v, n as int) != n + 1,
        links(v, n)[target(v, n as int) as int].parent matches Some(g) ==> g < 2 * v.len() + 1 && g
            != target(v, n as int) && g != inner_id(v, n as usize) && g != n + 1,
{
    let k = v.len() as int;
    let full = order(v, v.len());
    let t = target(v, n as int);
    let i = inner_id(v, n as usize);
    lemma_order(v, v.len());
    lemma_order(v, n);
    lemma_rank(v, n as usize);
    assert(v[n as int] <= 2 * n);
    assert(full[i - k - 1] == n);
    assert(!active(v, n, i as int));
    assert(!active(v, n, (n + 1) as int));
    if v[n as int] > n {
        let pt = joined(v, n as int);
        lemma_rank(v, pt);
        assert(full[t - k - 1] == pt);
    }
    assert(active(v, n, t as int));
    assert(node_shaped(v, n, t as int));
    if links(v, n)[t as int].parent is Some {
        let gg = links(v, n)[t as int].parent->0;
        assert(node_shaped(v, n, gg as int));
    }
}

/// How the joining of leaf `n + 1` lies in the tree of the leaves `0..=n`:
/// the node that is joined is part of that tree, the new leaf and the new
/// inner node are not, the new inner node gets an id between that of the
/// joined node and that of its parent, and these two are what becomes part
/// of the tree.
pub proof fn lemma_step_facts(v: Seq<usize>, n: nat)
    requires
        valid_vector(v),
        2 * v.len() + 1 <= usize::MAX,
        n < v.len(),
        shaped(v, n),
    ensures
        v.len() < inner_id(v, n as usize) < 2 * v.len() + 1,
        target(v, n as int) < inner_id(v, n as usize),
        active(v, n, target(v, n as int) as int),
        !active(v, n, inner_id(v, n as usize) as int),
        !active(v, n, (n + 1) as int),
        links(v, n)[target(v, n as int) as int].parent matches Some(g) ==> inner_id(v, n as usize)
            < g,
        forall|x: int|
            0 <= x < 2 * v.len() + 1 ==> (#[trigger] active(v, n + 1, x) <==> (active(v, n, x) || x
                == inner_id(v, n as usize) || x == n + 1)),
{
    let k = v.len() as int;
    let big = 2 * k + 1;
    let full = order(v, v.len());
    let o = order(v, n);
    let l = links(v, n);
    let t = target(v, n as int);
    let i = inner_id(v, n as usize);
    lemma_order(v, v.len());
    lemma_order(v, n);
    lemma_rank(v, n as usize);
    assert(v[n as int] <= 2 * n);
    assert(k < i < big);
    assert(full[i - k - 1] == n);
    lemma_pos_step(v, n, n as usize);
    if v[n as int] > n {
        let idx = v[n as int] - n - 1;
        let pt = o[idx];
        lemma_rank(v, pt);
        assert(full[t - k - 1] == pt);
        lemma_index_of(o, idx);
        lemma_pos_step(v, n, pt);
        lemma_order_stable(v, n + 1, pt, n as usize);
        assert(t < i);
    }
    assert(active(v, n, t as int));
    assert(node_shaped(v, n, t as int));
    let g = l[t as int].parent;
    if g is Some {
        let gg = g->0;
        assert(node_shaped(v, n, gg as int));
        let pg = full[gg - k - 1];
        lemma_index_of(full, gg - k - 1);
        lemma_pos_step(v, n, pg);
        lemma_order_stable(v, n + 1, n as usize, pg);
        if v[n as int] > n {
            let idx = v[n as int] - n - 1;
            let pt = o[idx];
            lemma_rank(v, pt);
            lemma_index_of(o, idx);
            lemma_order_stable(v, n, pt, pg);
        }
        assert(i < gg);
    }
    assert forall|x: int| 0 <= x < big implies (#[trigger] active(v, n + 1, x) <==> (active(v, n, x)
        || x == i || x == n + 1)) by {
        if k < x && full[x - k - 1] == n {
            lemma_index_of(full, x - k - 1);
        }
    }
}

/// Node `x` has the links of a node of a binary tree once leaf `n + 1` has
/// joined.
pub proof fn lemma_step_node(v: Seq<usize>, n: nat, x: int)
    requires
        valid_vector(v),
        2 * v.len() + 1 <= usize::MAX,
        n < v.len(),
        shaped(v, n),
        0 <= x < 2 * v.len() + 1,
    ensures
        node_shaped(v, n + 1, x),
{
    let k = v.len() as int;
    let l = links(v, n);
    let t = target(v, n as int);
    let i = inner_id(v, n as usize);
    let b = (n + 1) as usize;
    let l2 = links(v, n + 1);
    assert(l2 == attach(l, t, i, b));
    lemma_step_facts(v, n);
    lemma_join_facts(v, n);
    lemma_attach_pointwise(l, t, i, b);
    let g = l[t as int].parent;
    assert(node_shaped(v, n, t as int));
    assert(node_shaped(v, n, x));
    assert(active(v, n + 1, x) <==> (active(v, n, x) || x == i || x == b));
    assert(active(v, n + 1, t as int));
    assert(active(v, n + 1, i as int));
    assert(active(v, n + 1, b as int));
    if g is Some {
        assert(node_shaped(v, n, g->0 as int));
        assert(active(v, n + 1, g->0 as int));
    }
    if x == b {
        assert(l2[i as int].has_child(b));
    } else if x == i {
        assert(child_shaped(v, n + 1, x, t));
        assert(child_shaped(v, n + 1, x, b));
        if g is Some {
            assert(l2[g->0 as int].has_child(i));
        }
    } else if x == t {
        if t > k {
            let c0 = l[t as int].children.0->0;
            let c1 = l[t as int].children.1->0;
            assert(node_shaped(v, n, c0 as int));
            assert(node_shaped(v, n, c1 as int));
            assert(active(v, n + 1, c0 as int));
            assert(active(v, n + 1, c1 as int));
            assert(l2[c0 as int] == l[c0 as int]);
            assert(l2[c1 as int] == l[c1 as int]);
            assert(child_shaped(v, n + 1, x, c0));
            assert(child_shaped(v, n + 1, x, c1));
        }
        assert(l2[i as int].has_child(t));
    } else if g == Some(x as usize) {
        let c0 = l[x].children.0->0;
        let c1 = l[x].children.1->0;
        assert(l[x].has_child(t));
        assert(node_shaped(v, n, c0 as int));
        assert(node_shaped(v, n, c1 as int));
        assert(active(v, n + 1, c0 as int));
        assert(active(v, n + 1, c1 as int));
        if c0 == t {
            assert(l2[c1 as int] == l[c1 as int]);
            assert(child_shaped(v, n + 1, x, i));
            assert(child_shaped(v, n + 1, x, c1));
        } else {
            assert(c1 == t);
            assert(l2[c0 as int] == l[c0 as int]);
            assert(child_shaped(v, n + 1, x, c0));
            assert(child_shaped(v, n + 1, x, i));
        }
        if l[x].parent is Some {
            let pp = l[x].parent->0;
            assert(active(v, n + 1, pp as int));
            assert(l2[pp as int] == l[pp as int]);
        }
    } else {
        assert(l2[x] == l[x]);
        if active(v, n, x) {
            if x > k {
                let c0 = l[x].children.0->0;
                let c1 = l[x].children.1->0;
                assert(active(v, n + 1, c0 as int));
                assert(active(v, n + 1, c1 as int));
                assert(l2[c0 as int].parent == l[c0 as int].parent);
                assert(l2[c1 as int].parent == l[c1 as int].parent);
                assert(child_shaped(v, n + 1, x, c0));
                assert(child_shaped(v, n + 1, x, c1));
            }
            if l[x].parent is Some {
                let p = l[x].parent->0;
                assert(node_shaped(v, n, p as int));
                assert(active(v, n + 1, p as int));
                if g == Some(p) {
                    assert(l[p as int].has_child(t));
                    assert(l2[p as int].has_child(x as usize));
                } else if p == t {
                    assert(l2[p as int].has_child(x as usize));
                } else {
                    assert(l2[p as int] == l[p as int]);
                }
            }
        }
    }
}

/// The tree of the leaves `0..=n` stays a binary tree with one root when the
/// next leaf joins it.
pub proof fn lemma_shaped_step(v: Seq<usize>, n: nat)
    requires
        valid_vector(v),
        2 * v.len() + 1 <= usize::MAX,
        n < v.len(),
        shaped(v, n),
    ensures
        shaped(v, n + 1),
{
    let k = v.len() as int;
    let big = 2 * k + 1;
    let l = links(v, n);
    let t = target(v, n as int);
    let i = inner_id(v, n as usize);
    let b = (n + 1) as usize;
    let l2 = links(v, n + 1);
    assert(l2 == attach(l, t, i, b));
    lemma_step_facts(v, n);
    lemma_join_facts(v, n);
    lemma_attach_pointwise(l, t, i, b);
    let g = l[t as int].parent;
    assert forall|x: int| 0 <= x < big implies #[trigger] node_shaped(v, n + 1, x) by {
        lemma_step_node(v, n, x);
    }
    assert forall|x: int, y: int|
        0 <= x < big && 0 <= y < big && #[trigger] lone(v, n + 1, x) && #[trigger] lone(
            v,
            n + 1,
            y,
        ) implies x == y by {
        let fx = if x == i { t as int } else { x };
        let fy = if y == i { t as int } else { y };
        assert(active(v, n + 1, x) <==> (active(v, n, x) || x == i || x == b));
        assert(active(v, n + 1, y) <==> (active(v, n, y) || y == i || y == b));
        assert(l2[x].parent == if x == i { g } else { l[x].parent });
        assert(l2[y].parent == if y == i { g } else { l[y].parent });
        assert(lone(v, n, fx));
        assert(lone(v, n, fy));
    }
}

/// The links of the leaves `0..=n` form a binary tree with one root.
pub proof fn lemma_shaped(v: Seq<usize>, n: nat)
    requires
        valid_vector(v),
        2 * v.len() + 1 <= usize::MAX,
        n <= v.len(),
    ensures
        shaped(v, n),
    decreases n,
{
    if n == 0 {
        let k = v.len() as int;
        assert forall|x: int| 0 <= x < 2 * k + 1 implies #[trigger] node_shaped(v, 0, x) by {
            lemma_order(v, v.len());
        }
    } else {
        lemma_shaped(v, (n - 1) as nat);
        lemma_shaped_step(v, (n - 1) as nat);
    }
}

/// A depth counted along links to larger ids stays below the number of ids
/// above the node.
pub proof fn lemma_depth_in(l: Seq<Link>, x: int)
    ensures
        0 <= x < l.len() ==> depth_in(l, x) <= l.len() - 1 - x,
        !(0 <= x < l.len()) ==> depth_in(l, x) == 0,
    decreases l.len() - x,
{
    if 0 <= x < l.len() && l[x].parent is Some && x < l[x].parent->0 < l.len() {
        lemma_depth_in(l, l[x].parent->0 as int);
    }
}

/// The node array of the tree that the vector encodes: the links of all its
/// leaves put together, each node with its id, its depth, and the tip flag of
/// a node without children.
pub open spec fn decoded(v: Seq<usize>) -> Seq<Node> {
    let l = links(v, v.len());
    Seq::new(
        l.len(),
        |x: int|
            Node {
                parent: l[x].parent,
                children: l[x].children,
                index: x as usize,
                depth: depth_in(l, x) as usize,
                tip: l[x].children.0 is None,
            },
    )
}

/// A legal vector of length `k` encodes a well-formed tree of `2k + 1` nodes
/// in which every inner node has two children, the leaves have the ids
/// `0..=k`, and every parent has a larger id than its children.
pub proof fn lemma_decoded(v: Seq<usize>)
    requires
        valid_vector(v),
        2 * v.len() + 1 <= usize::MAX,
    ensures
        shaped(v, v.len()),
        decoded(v).len() == 2 * v.len() + 1,
        well_formed(decoded(v)),
        strictly_binary(decoded(v)),
        forall|x: int| 0 <= x < 2 * v.len() + 1 ==> ((#[trigger] decoded(v)[x]).tip <==> x <= v.len()),
        forall|x: int|
            0 <= x < 2 * v.len() + 1 && (#[trigger] decoded(v)[x]).parent is Some ==> x < decoded(
                v,
            )[x].parent->0,
{
    let k = v.len() as int;
    let big = 2 * k + 1;
    let l = links(v, v.len());
    let d = decoded(v);
    lemma_shaped(v, v.len());
    lemma_order(v, v.len());
    assert forall|x: int| 0 <= x < big implies active(v, v.len(), x) && node_shaped(v, v.len(), x) by {
        assert(node_shaped(v, v.len(), x));
    }
    assert forall|x: int| 0 <= x < big implies #[trigger] links_ok(d, x) by {
        assert(node_shaped(v, v.len(), x));
        lemma_depth_in(l, x);
        if l[x].parent is Some {
            let p = l[x].parent->0;
            lemma_depth_in(l, p as int);
        }
        if x > k {
            let c0 = l[x].children.0->0;
            let c1 = l[x].children.1->0;
            assert(child_shaped(v, v.len(), x, c0));
            assert(child_shaped(v, v.len(), x, c1));
        }
    }
    assert forall|x: int, y: int|
        0 <= x < d.len() && 0 <= y < d.len() && #[trigger] is_root(d, x) && #[trigger] is_root(
            d,
            y,
        ) implies x == y by {
        assert(lone(v, v.len(), x));
        assert(lone(v, v.len(), y));
    }
    assert forall|x: int| 0 <= x < d.len() && (#[trigger] d[x]).children.0 is Some implies d[x].children.1 is Some by {
        assert(node_shaped(v, v.len(), x));
    }
    assert forall|x: int| 0 <= x < big implies ((#[trigger] d[x]).tip <==> x <= k) by {
        assert(node_shaped(v, v.len(), x));
    }
    assert forall|x: int| 0 <= x < big && (#[trigger] d[x]).parent is Some implies x < d[x].parent->0 by {
        assert(node_shaped(v, v.len(), x));
    }
}

} // verus!

use crate::node::{Handedness, Node};
use crate::paths::{
    above, below, leftmost, lemma_leftmost, lemma_links, lemma_reaches_depth, lemma_reaches_trans,
    reaches, rootward,
};
use crate::seqs::lemma_filter_step;
use crate::tree::{well_formed, Tree};
use vstd::prelude::*;

verus! {

/// The ids below and at `x`, each node before its left subtree and that
/// before its right subtree.
pub open spec fn preorder_of(s: Seq<Node>, x: usize) -> Seq<usize>
    decreases s.len() - s[x as int].depth,
{
    if x < s.len() {
        let l = s[x as int].children.0;
        let r = s[x as int].children.1;
        seq![x] + (if l is Some && below(s, x, l->0) {
            preorder_of(s, l->0)
        } else {
            Seq::empty()
        }) + (if r is Some && below(s, x, r->0) {
            preorder_of(s, r->0)
        } else {
            Seq::empty()
        })
    } else {
        seq![x]
    }
}

/// The ids below and at `x`, the left subtree before the right subtree and
/// both before the node.
pub open spec fn postorder_of(s: Seq<Node>, x: usize) -> Seq<usize>
    decreases s.len() - s[x as int].depth,
{
    if x < s.len() {
        let l = s[x as int].children.0;
        let r = s[x as int].children.1;
        (if l is Some && below(s, x, l->0) {
            postorder_of(s, l->0)
        } else {
            Seq::empty()
        }) + (if r is Some && below(s, x, r->0) {
            postorder_of(s, r->0)
        } else {
            Seq::empty()
        }) + seq![x]
    } else {
        seq![x]
    }
}

/// What a preorder walk still owes for the right siblings it has put aside,
/// the one put aside last first.
pub open spec fn pending(s: Seq<Node>, stack: Seq<usize>) -> Seq<usize>
    decreases stack.len(),
{
    if stack.len() == 0 {
        Seq::empty()
    } else {
        preorder_of(s, stack.last()) + pending(s, stack.drop_last())
    }
}

/// What a postorder walk that ends at `e` visits after `x`: for a left child
/// its right sibling's subtree and then the parent, for a right child the
/// parent, and so on up to `e`.
pub open spec fn post_after(s: Seq<Node>, x: usize, e: usize) -> Seq<usize>
    decreases s[x as int].depth,
{
    if x < s.len() && x != e && s[x as int].parent is Some && above(s, x, s[x as int].parent->0) {
        let p = s[x as int].parent->0;
        let r = s[p as int].children.1;
        (if s[p as int].children.0 == Some(x) && r is Some && below(s, p, r->0) {
            postorder_of(s, r->0)
        } else {
            Seq::empty()
        }) + seq![p] + post_after(s, p, e)
    } else {
        Seq::empty()
    }
}

/// The ids among `ids` that are not tips.
pub open spec fn inner(s: Seq<Node>, ids: Seq<usize>) -> Seq<usize> {
    ids.filter(|i: usize| !s[i as int].tip)
}

/// The nodes that `ids` names.
pub open spec fn nodes_at(s: Seq<Node>, ids: Seq<usize>) -> Seq<Node> {
    ids.map_values(|i: usize| s[i as int])
}

/// The nodes that the references point to.
pub open spec fn pointees(v: Seq<&Node>) -> Seq<Node> {
    v.map_values(|n: &Node| *n)
}

/// Every id of a preorder or postorder walk that starts at a node is a node.
pub proof fn lemma_walk_in_range(s: Seq<Node>, x: usize)
    requires
        x < s.len(),
    ensures
        forall|i: int| 0 <= i < preorder_of(s, x).len() ==> (#[trigger] preorder_of(s, x)[i]) < s.len(),
        forall|i: int|
            0 <= i < postorder_of(s, x).len() ==> (#[trigger] postorder_of(s, x)[i]) < s.len(),
        preorder_of(s, x).len() > 0,
        postorder_of(s, x).len() > 0,
        preorder_of(s, x)[0] == x,
        postorder_of(s, x).last() == x,
    decreases s.len() - s[x as int].depth,
{
    let l = s[x as int].children.0;
    let r = s[x as int].children.1;
    if l is Some && below(s, x, l->0) {
        lemma_walk_in_range(s, l->0);
    }
    if r is Some && below(s, x, r->0) {
        lemma_walk_in_range(s, r->0);
    }
}

/// The walk after `x` up to `e` passes through any node `m` between them.
pub proof fn lemma_post_after_split(s: Seq<Node>, x: usize, m: usize, e: usize)
    requires
        well_formed(s),
        m < s.len(),
        e < s.len(),
        reaches(s, m, x),
        reaches(s, e, m),
    ensures
        post_after(s, x, e) =~= post_after(s, x, m) + post_after(s, m, e),
    decreases s[x as int].depth,
{
    if x != m {
        lemma_reaches_depth(s, e, m);
        lemma_reaches_depth(s, m, x);
        lemma_post_after_split(s, s[x as int].parent->0, m, e);
    }
}

/// A postorder walk starts at the leftmost descendant of its start node.
pub proof fn lemma_post_first(s: Seq<Node>, e: usize)
    requires
        well_formed(s),
        e < s.len(),
    ensures
        postorder_of(s, e) =~= seq![leftmost(s, e)] + post_after(s, leftmost(s, e), e),
    decreases s.len() - s[e as int].depth,
{
    lemma_links(s, e);
    if let Some(l) = s[e as int].children.0 {
        lemma_post_first(s, l);
        lemma_leftmost(s, l);
        lemma_links(s, l);
        assert(reaches(s, e, e));
        assert(reaches(s, e, l));
        lemma_post_after_split(s, leftmost(s, l), l, e);
        assert(post_after(s, e, e) =~= Seq::empty());
    }
}

/// Walks from a node up to the root.
pub struct RootIter<'a> {
    tree: &'a Tree,
    current: usize,
    end_flag: bool,
}

impl<'a> RootIter<'a> {
    /// The tree that is walked.
    pub closed spec fn tree(&self) -> &Tree {
        self.tree
    }

    /// The walk stands on a node of a well-formed tree, or is over.
    pub closed spec fn wf(&self) -> bool {
        self.tree.wf() && (self.end_flag || self.current < self.tree.nodes@.len())
    }

    /// The ids that are still to come, in order.
    pub closed spec fn remaining(&self) -> Seq<usize> {
        if self.end_flag {
            Seq::empty()
        } else {
            rootward(self.tree.nodes@, self.current)
        }
    }

    /// The next node on the way up; none once the root has been given.
    pub fn next(&mut self) -> (r: Option<&'a Node>)
        requires
            old(self).wf(),
        ensures
            final(self).wf(),
            final(self).tree() == old(self).tree(),
            old(self).remaining().len() == 0 ==> r is None && final(self).remaining() == old(
                self,
            ).remaining(),
            old(self).remaining().len() > 0 ==> old(self).remaining()[0] < old(self).tree().nodes@.len()
                && r == Some(&old(self).tree().nodes@[old(self).remaining()[0] as int])
                && final(self).remaining() == old(self).remaining().skip(1),
    {
        if self.end_flag {
            return None;
        }
        let t: &'a Tree = self.tree;
        let cur = self.current;
        proof {
            lemma_links(t.nodes@, cur);
        }
        let node = &t.nodes[cur];
        match node.parent {
            None => {
                self.end_flag = true;
                assert(rootward(t.nodes@, cur).skip(1) =~= Seq::empty());
            },
            Some(p) => {
                self.current = p;
                assert(rootward(t.nodes@, cur).skip(1) =~= rootward(t.nodes@, p));
            },
        }
        Some(node)
    }
}

/// Walks the subtree of a node in preorder.
pub struct Preorder<'a> {
    tree: &'a Tree,
    current: Option<usize>,
    return_nodes: Vec<usize>,
}

impl<'a> Preorder<'a> {
    /// The tree that is walked.
    pub closed spec fn tree(&self) -> &Tree {
        self.tree
    }

    /// The walk stands on a node of a well-formed tree and has put aside
    /// nodes of it only, or is over with nothing put aside.
    pub closed spec fn wf(&self) -> bool {
        &&& self.tree.wf()
        &&& self.current matches Some(c) ==> c < self.tree.nodes@.len()
        &&& self.current is None ==> self.return_nodes@.len() == 0
        &&& forall|i: int|
            0 <= i < self.return_nodes@.len() ==> (#[trigger] self.return_nodes@[i])
                < self.tree.nodes@.len()
    }

    /// The ids that are still to come, in order.
    pub closed spec fn remaining(&self) -> Seq<usize> {
        match self.current {
            Some(c) => preorder_of(self.tree.nodes@, c) + pending(
                self.tree.nodes@,
                self.return_nodes@,
            ),
            None => Seq::empty(),
        }
    }

    /// The next node in preorder; none once the subtree is exhausted.
    pub fn next(&mut self) -> (r: Option<&'a Node>)
        requires
            old(self).wf(),
        ensures
            final(self).wf(),
            final(self).tree() == old(self).tree(),
            old(self).remaining().len() == 0 ==> r is None && final(self).remaining() == old(
                self,
            ).remaining(),
            old(self).remaining().len() > 0 ==> old(self).remaining()[0] < old(self).tree().nodes@.len()
                && r == Some(&old(self).tree().nodes@[old(self).remaining()[0] as int])
                && final(self).remaining() == old(self).remaining().skip(1),
    {
        let t: &'a Tree = self.tree;
        match self.current {
            None => None,
            Some(c) => {
                proof {
                    lemma_links(t.nodes@, c);
                    lemma_walk_in_range(t.nodes@, c);
                }
                let ghost s = t.nodes@;
                let ghost st = self.return_nodes@;
                let ghost before = preorder_of(s, c) + pending(s, st);
                let node = &t.nodes[c];
                match node.children {
                    (Some(a), None) => {
                        self.current = Some(a);
                        assert(before.skip(1) =~= preorder_of(s, a) + pending(s, st));
                    },
                    (Some(a), Some(b)) => {
                        self.return_nodes.push(b);
                        self.current = Some(a);
                        assert(st.push(b).drop_last() =~= st);
                        assert(before.skip(1) =~= preorder_of(s, a) + pending(s, st.push(b)));
                    },
                    (None, _) => {
                        self.current = self.return_nodes.pop();
                        assert(preorder_of(s, c) =~= seq![c]);
                        proof {
                            if st.len() > 0 {
                                assert(before.skip(1) =~= preorder_of(s, st.last()) + pending(
                                    s,
                                    st.drop_last(),
                                ));
                            } else {
                                assert(before.skip(1) =~= Seq::empty());
                            }
                        }
                    },
                }
                Some(node)
            },
        }
    }
}

/// Walks the subtree of a node in postorder.
pub struct PostOrder<'a> {
    tree: &'a Tree,
    start_flag: bool,
    current: usize,
    end_index: usize,
}

impl<'a> PostOrder<'a> {
    /// The tree that is walked.
    pub closed spec fn tree(&self) -> &Tree {
        self.tree
    }

    /// The walk stands on a node below its start node, in a well-formed
    /// tree whose inner nodes have two children each.
    pub closed spec fn wf(&self) -> bool {
        &&& self.tree.wf()
        &&& self.tree.is_binary()
        &&& self.current < self.tree.nodes@.len()
        &&& self.end_index < self.tree.nodes@.len()
        &&& self.start_flag ==> self.current == self.end_index
        &&& reaches(self.tree.nodes@, self.end_index, self.current)
    }

    /// The ids that are still to come, in order.
    pub closed spec fn remaining(&self) -> Seq<usize> {
        if self.start_flag {
            postorder_of(self.tree.nodes@, self.end_index)
        } else {
            post_after(self.tree.nodes@, self.current, self.end_index)
        }
    }

    /// The next node in postorder; none once the start node has been given.
    pub fn next(&mut self) -> (r: Option<&'a Node>)
        requires
            old(self).wf(),
        ensures
            final(self).wf(),
            final(self).tree() == old(self).tree(),
            old(self).remaining().len() == 0 ==> r is None && final(self).remaining() == old(
                self,
            ).remaining(),
            old(self).remaining().len() > 0 ==> old(self).remaining()[0] < old(self).tree().nodes@.len()
                && r == Some(&old(self).tree().nodes@[old(self).remaining()[0] as int])
                && final(self).remaining() == old(self).remaining().skip(1),
    {
        let t: &'a Tree = self.tree;
        let ghost s = t.nodes@;
        let e = self.end_index;
        if self.start_flag {
            proof {
                lemma_post_first(s, e);
                lemma_leftmost(s, e);
            }
            self.current = leftmost_id(t, e);
            self.start_flag = false;
            assert(postorder_of(s, e).skip(1) =~= post_after(s, self.current, e));
        } else {
            let ind = self.current;
            if ind == e {
                return None;
            }
            proof {
                lemma_links(s, ind);
            }
            let p = t.nodes[ind].parent.unwrap();
            proof {
                lemma_links(s, p);
                lemma_reaches_depth(s, e, p);
            }
            match t.get_handedness(ind) {
                Handedness::Left => {
                    let r = t.nodes[p].children.1.unwrap();
                    proof {
                        lemma_links(s, r);
                        lemma_post_first(s, r);
                        lemma_leftmost(s, r);
                        assert(reaches(s, e, r));
                        lemma_reaches_trans(s, e, r, leftmost(s, r));
                        lemma_post_after_split(s, leftmost(s, r), r, e);
                    }
                    self.current = leftmost_id(t, r);
                    assert(post_after(s, ind, e).skip(1) =~= post_after(s, self.current, e));
                },
                Handedness::Right => {
                    self.current = p;
                    assert(post_after(s, ind, e).skip(1) =~= post_after(s, p, e));
                },
            }
        }
        proof {
            lemma_walk_in_range(s, e);
        }
        Some(&t.nodes[self.current])
    }
}

/// A walk over nodes of a tree that hands them out one by one.
pub trait Walk<'a> {
    /// The tree that is walked.
    spec fn walked(&self) -> &Tree;

    /// Whether the walk is in a state from which it can go on.
    spec fn in_order(&self) -> bool;

    /// The ids that are still to come, in order.
    spec fn ahead(&self) -> Seq<usize>;

    /// The next node of the walk; none once it is over.
    fn advance(&mut self) -> (r: Option<&'a Node>)
        requires
            old(self).in_order(),
        ensures
            final(self).in_order(),
            final(self).walked() == old(self).walked(),
            old(self).ahead().len() == 0 ==> r is None && final(self).ahead() == old(self).ahead(),
            old(self).ahead().len() > 0 ==> old(self).ahead()[0] < old(self).walked().nodes@.len()
                && r == Some(&old(self).walked().nodes@[old(self).ahead()[0] as int])
                && final(self).ahead() == old(self).ahead().skip(1),
    ;
}

impl<'a> Walk<'a> for RootIter<'a> {
    open spec fn walked(&self) -> &Tree {
        self.tree()
    }

    open spec fn in_order(&self) -> bool {
        self.wf()
    }

    open spec fn ahead(&self) -> Seq<usize> {
        self.remaining()
    }

    fn advance(&mut self) -> (r: Option<&'a Node>) {
        self.next()
    }
}

impl<'a> Walk<'a> for Preorder<'a> {
    open spec fn walked(&self) -> &Tree {
        self.tree()
    }

    open spec fn in_order(&self) -> bool {
        self.wf()
    }

    open spec fn ahead(&self) -> Seq<usize> {
        self.remaining()
    }

    fn advance(&mut self) -> (r: Option<&'a Node>) {
        self.next()
    }
}

impl<'a> Walk<'a> for PostOrder<'a> {
    open spec fn walked(&self) -> &Tree {
        self.tree()
    }

    open spec fn in_order(&self) -> bool {
        self.wf()
    }

    open spec fn ahead(&self) -> Seq<usize> {
        self.remaining()
    }

    fn advance(&mut self) -> (r: Option<&'a Node>) {
        self.next()
    }
}

/// The nodes that the walk still hands out and that are not tips.
pub fn collect_inner<'a, W: Walk<'a>>(it: W) -> (r: Vec<&'a Node>)
    requires
        it.in_order(),
    ensures
        pointees(r@) == nodes_at(it.walked().nodes@, inner(it.walked().nodes@, it.ahead())),
{
    let ghost s = it.walked().nodes@;
    let ghost full = it.ahead();
    let ghost tree = it.walked();
    let mut it = it;
    let mut out: Vec<&'a Node> = Vec::new();
    let ghost mut j: int = 0;
    let mut cur = it.advance();
    assert(full.skip(0) =~= full);
    assert(inner(s, full.take(0)) =~= Seq::empty());
    assert(pointees(out@) =~= nodes_at(s, inner(s, full.take(0))));
    while cur.is_some()
        invariant
            it.in_order(),
            it.walked() == tree,
            s == tree.nodes@,
            0 <= j <= full.len(),
            cur is None ==> j == full.len(),
            cur matches Some(n) ==> j < full.len() && full[j] < s.len() && *n == s[full[j] as int]
                && it.ahead() == full.skip(j + 1),
            pointees(out@) == nodes_at(s, inner(s, full.take(j))),
        decreases full.len() - j,
    {
        let n = cur.unwrap();
        proof {
            lemma_filter_step(full, |i: usize| !s[i as int].tip, j);
        }
        let ghost before = out@;
        if !n.tip {
            out.push(n);
            assert(pointees(out@) =~= pointees(before).push(*n));
            assert(nodes_at(s, inner(s, full.take(j)).push(full[j])) =~= nodes_at(
                s,
                inner(s, full.take(j)),
            ).push(s[full[j] as int]));
        }
        proof {
            j = j + 1;
        }
        cur = it.advance();
        proof {
            if j < full.len() {
                assert(full.skip(j)[0] == full[j]);
                assert(full.skip(j).skip(1) =~= full.skip(j + 1));
            }
        }
    }
    assert(full.take(j) =~= full);
    out
}

/// The id of the leftmost descendant of `x`.
pub fn leftmost_id(tree: &Tree, x: usize) -> (r: usize)
    requires
        tree.wf(),
        x < tree.nodes@.len(),
    ensures
        r == leftmost(tree.nodes@, x),
        r < tree.nodes@.len(),
{
    let mut cur = x;
    proof {
        lemma_leftmost(tree.nodes@, x);
    }
    while tree.nodes[cur].children.0.is_some()
        invariant
            tree.wf(),
            cur < tree.nodes@.len(),
            leftmost(tree.nodes@, cur) == leftmost(tree.nodes@, x),
        decreases tree.nodes@.len() - tree.nodes@[cur as int].depth,
    {
        proof {
            lemma_links(tree.nodes@, cur);
        }
        cur = tree.nodes[cur].children.0.unwrap();
    }
    cur
}

impl Tree {
    /// A walk from `node` up to the root.
    pub fn iter<'a>(&'a self, node: Option<&'a Node>) -> (it: RootIter<'a>)
        requires
            self.wf(),
            self.holds(node),
        ensures
            it.wf(),
            it.tree() == self,
            it.remaining() == rootward(self.nodes@, node->0.index),
    {
        RootIter { tree: self, current: node.unwrap().index, end_flag: false }
    }

    /// The nodes from `node` up to the root that are not tips.
    pub fn iter_notips<'a>(&'a self, node: Option<&'a Node>) -> (r: Vec<&'a Node>)
        requires
            self.wf(),
            self.holds(node),
        ensures
            pointees(r@) == nodes_at(self.nodes@, inner(self.nodes@, rootward(self.nodes@, node->0.index))),
    {
        let it = self.iter(node);
        collect_inner(it)
    }

    /// A preorder walk of the subtree of `node`; without a node, a walk
    /// that is over before it starts.
    pub fn preorder<'a>(&'a self, node: Option<&'a Node>) -> (it: Preorder<'a>)
        requires
            self.wf(),
            node is Some ==> self.holds(node),
        ensures
            it.wf(),
            it.tree() == self,
            it.remaining() == match node {
                Some(n) => preorder_of(self.nodes@, n.index),
                None => Seq::empty(),
            },
    {
        match node {
            Some(n) => {
                let it = Preorder { tree: self, current: Some(n.index), return_nodes: Vec::new() };
                assert(preorder_of(self.nodes@, n.index) + pending(self.nodes@, Seq::empty())
                    =~= preorder_of(self.nodes@, n.index));
                it
            },
            None => Preorder { tree: self, current: None, return_nodes: Vec::new() },
        }
    }

    /// A postorder walk of the subtree of `node`.
    pub fn postorder<'a>(&'a self, node: Option<&'a Node>) -> (it: PostOrder<'a>)
        requires
            self.wf(),
            self.is_binary(),
            self.holds(node),
        ensures
            it.wf(),
            it.tree() == self,
            it.remaining() == postorder_of(self.nodes@, node->0.index),
    {
        let i = node.unwrap().index;
        assert(reaches(self.nodes@, i, i));
        PostOrder { tree: self, start_flag: true, current: i, end_index: i }
    }

    /// The nodes of a postorder walk of the subtree of `node` that are not
    /// tips.
    pub fn postorder_notips<'a>(&'a self, node: Option<&'a Node>) -> (r: Vec<&'a Node>)
        requires
            self.wf(),
            self.is_binary(),
            self.holds(node),
        ensures
            pointees(r@) == nodes_at(
                self.nodes@,
                inner(self.nodes@, postorder_of(self.nodes@, node->0.index)),
            ),
    {
        let it = self.postorder(node);
        collect_inner(it)
    }

    /// The node that is reached from `node` by following left links as far
    /// as they go.
    pub fn most_left_child<'a>(&'a self, node: Option<&'a Node>) -> (r: Option<&'a Node>)
        requires
            self.wf(),
            self.holds(node),
        ensures
            leftmost(self.nodes@, node->0.index) < self.nodes@.len(),
            r == Some(&self.nodes@[leftmost(self.nodes@, node->0.index) as int]),
    {
        let i = leftmost_id(self, node.unwrap().index);
        Some(&self.nodes[i])
    }
}

} // verus!

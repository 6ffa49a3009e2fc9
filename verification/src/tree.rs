use crate::node::{with_child, without_child, Handedness, Node};
use vstd::prelude::*;

verus! {

/// A tree as a flat array of nodes, with the integer vector that encodes its
/// shape. A node's id is its position in `nodes`.
#[derive(Debug)]
pub struct Tree {
    pub tree_vec: Vec<usize>,
    pub nodes: Vec<Node>,
    pub max_depth: usize,
    pub leaf_permutations: Vec<usize>,
}

/// The links of node `i` agree with those of its neighbours: it knows its own
/// position, its parent lists it as a child, its children name it as their
/// parent, it never has a right child alone, it is a tip exactly when it has
/// no child, and its depth is one more than its parent's (zero at a root).
pub open spec fn links_ok(s: Seq<Node>, i: int) -> bool {
    let n = s[i];
    &&& n.index == i
    &&& n.tip == (n.children.0 is None)
    &&& (n.children.0 is None ==> n.children.1 is None)
    &&& (n.parent is None ==> n.depth == 0)
    &&& (n.parent matches Some(p) ==> p < s.len() && s[p as int].has_child(i as usize) && n.depth
        == s[p as int].depth + 1)
    &&& (n.children.0 matches Some(c) ==> c < s.len() && s[c as int].parent == Some(i as usize))
    &&& (n.children.1 matches Some(c) ==> c < s.len() && s[c as int].parent == Some(i as usize)
        && n.children.0 != Some(c))
}

/// Whether node `i` has no parent.
pub open spec fn is_root(s: Seq<Node>, i: int) -> bool {
    s[i].parent is None
}

/// Every node's links are in order and at most one node has no parent.
pub open spec fn well_formed(s: Seq<Node>) -> bool {
    &&& forall|i: int| 0 <= i < s.len() ==> #[trigger] links_ok(s, i)
    &&& forall|i: int, j: int|
        0 <= i < s.len() && 0 <= j < s.len() && #[trigger] is_root(s, i) && #[trigger] is_root(s, j)
            ==> i == j
}

/// Every node with a child has two.
pub open spec fn strictly_binary(s: Seq<Node>) -> bool {
    forall|i: int| 0 <= i < s.len() && (#[trigger] s[i]).children.0 is Some ==> s[i].children.1 is Some
}

/// `i` is the first position that holds a node without a parent.
pub open spec fn is_first_root(s: Seq<Node>, i: int) -> bool {
    &&& 0 <= i < s.len()
    &&& is_root(s, i)
    &&& forall|j: int| 0 <= j < i ==> !#[trigger] is_root(s, j)
}

/// The node array after `index` was registered under `parent`.
pub open spec fn after_add(s: Seq<Node>, index: usize, parent: Option<usize>) -> Seq<Node> {
    match parent {
        Some(p) => {
            let par = s[p as int];
            s.update(
                p as int,
                Node { children: with_child(par.children, index), tip: false, ..par },
            ).update(
                index as int,
                Node {
                    parent: Some(p),
                    children: (None, None),
                    index,
                    depth: (par.depth + 1) as usize,
                    tip: true,
                },
            )
        },
        None => s.update(
            index as int,
            Node { parent: None, children: (None, None), index, depth: 0, tip: true },
        ),
    }
}

/// The node array after `node` left the child slot of its parent.
pub open spec fn after_detach(s: Seq<Node>, node: usize) -> Seq<Node> {
    let op = s[node as int].parent->0;
    let par = s[op as int];
    let left = without_child(par.children, node);
    s.update(op as int, Node { children: left, tip: left.0 is None, ..par })
}

/// The node array after a detached `node` took a free slot of `np` and was
/// told its new parent. Its depth is not yet touched.
pub open spec fn after_attach(s: Seq<Node>, node: usize, np: usize) -> Seq<Node> {
    let s1 = s.update(node as int, Node { parent: Some(np), ..s[node as int] });
    s1.update(
        np as int,
        Node { children: with_child(s1[np as int].children, node), tip: false, ..s1[np as int] },
    )
}

/// The node array after `node` moved under `np`: detached, attached, and
/// its own depth set to one more than that of `np`.
pub open spec fn after_relocate(s: Seq<Node>, node: usize, np: usize) -> Seq<Node> {
    let s2 = after_attach(after_detach(s, node), node, np);
    s2.update(
        node as int,
        Node { depth: (s2[np as int].depth + 1) as usize, ..s2[node as int] },
    )
}

/// The number of parent links on the way up from `x`, as far as `fuel`
/// links and the array reach.
pub open spec fn climb(s: Seq<Node>, x: usize, fuel: nat) -> nat
    decreases fuel,
{
    if fuel > 0 && x < s.len() && s[x as int].parent is Some && s[x as int].parent->0 < s.len() {
        1 + climb(s, s[x as int].parent->0, (fuel - 1) as nat)
    } else {
        0
    }
}

/// The node array with every depth counted anew along the parent links.
pub open spec fn refreshed(s: Seq<Node>) -> Seq<Node> {
    Seq::new(s.len(), |x: int| Node { depth: climb(s, x as usize, s.len()) as usize, ..s[x] })
}

impl Tree {
    /// The tree's structural invariant.
    pub open spec fn wf(&self) -> bool {
        well_formed(self.nodes@)
    }

    /// Whether every inner node has two children.
    pub open spec fn is_binary(&self) -> bool {
        strictly_binary(self.nodes@)
    }

    /// `max_depth` is the largest depth that a node of the tree records.
    pub open spec fn records_max_depth(&self) -> bool {
        &&& forall|i: int|
            0 <= i < self.nodes@.len() ==> (#[trigger] self.nodes@[i]).depth <= self.max_depth
        &&& exists|i: int|
            0 <= i < self.nodes@.len() && (#[trigger] self.nodes@[i]).depth == self.max_depth
    }

    /// Whether `node` is a node of this tree, found at the position it names.
    pub open spec fn holds(&self, node: Option<&Node>) -> bool {
        node matches Some(n) && n.index < self.nodes@.len() && self.nodes@[n.index as int] == *n
    }

    /// What `get_node` returns.
    pub open spec fn spec_node(&self, index: usize) -> Option<&Node> {
        if index < self.nodes@.len() {
            Some(&self.nodes@[index as int])
        } else {
            None
        }
    }

    /// A tree with room for the `2k + 1` nodes that a vector of length `k`
    /// encodes. No node is registered yet.
    pub fn new(tree_vec: Vec<usize>) -> (t: Tree)
        requires
            2 * tree_vec@.len() + 1 <= usize::MAX,
        ensures
            t.tree_vec@ == tree_vec@,
            t.nodes@ == Seq::new(2 * tree_vec@.len() + 1, |i: int| Node::spec_default()),
            t.max_depth == 0,
            t.leaf_permutations@ == Seq::new(tree_vec@.len() + 1, |i: int| i as usize),
    {
        let k = tree_vec.len();
        let mut nodes: Vec<Node> = Vec::new();
        let mut i: usize = 0;
        while i < 2 * k + 1
            invariant
                2 * k + 1 <= usize::MAX,
                i <= 2 * k + 1,
                nodes@ == Seq::new(i as nat, |j: int| Node::spec_default()),
            decreases 2 * k + 1 - i,
        {
            nodes.push(Node::default());
            i += 1;
            assert(nodes@ =~= Seq::new(i as nat, |j: int| Node::spec_default()));
        }
        let mut perm: Vec<usize> = Vec::new();
        let mut j: usize = 0;
        while j < k + 1
            invariant
                k + 1 <= usize::MAX,
                j <= k + 1,
                perm@ == Seq::new(j as nat, |i: int| i as usize),
            decreases k + 1 - j,
        {
            perm.push(j);
            j += 1;
            assert(perm@ =~= Seq::new(j as nat, |i: int| i as usize));
        }
        Tree { tree_vec, nodes, max_depth: 0, leaf_permutations: perm }
    }

    /// Whether the links of the node at `i` are in order.
    fn links_in_order(&self, i: usize) -> (r: bool)
        requires
            i < self.nodes@.len(),
        ensures
            r == links_ok(self.nodes@, i as int),
    {
        let n = self.nodes[i];
        let big = self.nodes.len();
        if n.index != i || n.tip != n.children.0.is_none() {
            return false;
        }
        if n.children.0.is_none() && n.children.1.is_some() {
            return false;
        }
        match n.parent {
            None => {
                if n.depth != 0 {
                    return false;
                }
            },
            Some(p) => {
                if p >= big {
                    return false;
                }
                let par = self.nodes[p];
                if par.children.0 != Some(i) && par.children.1 != Some(i) {
                    return false;
                }
                if n.depth == 0 || n.depth - 1 != par.depth {
                    return false;
                }
            },
        }
        if let Some(c) = n.children.0 {
            if c >= big || self.nodes[c].parent != Some(i) {
                return false;
            }
        }
        if let Some(c) = n.children.1 {
            if c >= big || self.nodes[c].parent != Some(i) || n.children.0 == Some(c) {
                return false;
            }
        }
        true
    }

    /// Whether the tree meets its structural invariant.
    pub fn is_well_formed(&self) -> (r: bool)
        ensures
            r == self.wf(),
    {
        let mut root: Option<usize> = None;
        let mut i: usize = 0;
        while i < self.nodes.len()
            invariant
                i <= self.nodes@.len(),
                forall|j: int| 0 <= j < i ==> #[trigger] links_ok(self.nodes@, j),
                root matches Some(x) ==> x < i && is_root(self.nodes@, x as int),
                root is None ==> forall|j: int| 0 <= j < i ==> !#[trigger] is_root(self.nodes@, j),
                forall|a: int, b: int|
                    0 <= a < i && 0 <= b < i && #[trigger] is_root(self.nodes@, a) && #[trigger] is_root(
                        self.nodes@,
                        b,
                    ) ==> a == b,
            decreases self.nodes@.len() - i,
        {
            if !self.links_in_order(i) {
                return false;
            }
            if self.nodes[i].parent.is_none() {
                if root.is_some() {
                    assert(is_root(self.nodes@, i as int));
                    assert(is_root(self.nodes@, root->0 as int));
                    return false;
                }
                root = Some(i);
            }
            i += 1;
        }
        true
    }

    /// Whether every node with a child has two.
    pub fn is_strictly_binary(&self) -> (r: bool)
        ensures
            r == self.is_binary(),
    {
        let mut i: usize = 0;
        while i < self.nodes.len()
            invariant
                i <= self.nodes@.len(),
                forall|j: int|
                    0 <= j < i && (#[trigger] self.nodes@[j]).children.0 is Some ==> self.nodes@[j].children.1 is Some,
            decreases self.nodes@.len() - i,
        {
            if self.nodes[i].children.0.is_some() && self.nodes[i].children.1.is_none() {
                return false;
            }
            i += 1;
        }
        true
    }

    /// The first node without a parent, if there is one.
    pub fn get_root(&self) -> (r: Option<&Node>)
        ensures
            r matches Some(n) ==> exists|i: int|
                is_first_root(self.nodes@, i) && *n == self.nodes@[i],
            r is None ==> forall|j: int| 0 <= j < self.nodes@.len() ==> !is_root(self.nodes@, j),
    {
        let mut i: usize = 0;
        while i < self.nodes.len()
            invariant
                i <= self.nodes@.len(),
                forall|j: int| 0 <= j < i ==> !#[trigger] is_root(self.nodes@, j),
            decreases self.nodes@.len() - i,
        {
            if self.nodes[i].parent.is_none() {
                assert(is_first_root(self.nodes@, i as int));
                return Some(&self.nodes[i]);
            }
            i += 1;
        }
        None
    }


    /// Mutable access to the node at `index`, if there is one. What the
    /// caller writes through it is what the array then holds at `index`.
    pub fn mut_node(&mut self, index: usize) -> (r: Option<&mut Node>)
        ensures
            index >= old(self).nodes@.len() ==> r is None && *final(self) == *old(self),
            index < old(self).nodes@.len() ==> r is Some && *r->0 == old(self).nodes@[index as int]
                && final(self).nodes@ == old(self).nodes@.update(index as int, *final(r->0))
                && final(self).tree_vec == old(self).tree_vec
                && final(self).max_depth == old(self).max_depth
                && final(self).leaf_permutations == old(self).leaf_permutations,
    {
        if index < self.nodes.len() {
            Some(&mut self.nodes[index])
        } else {
            None
        }
    }

    /// Mutable access to the parent of the node at `index`; none for a root,
    /// or where the parent link points outside the array.
    pub fn mut_parent(&mut self, index: usize) -> (r: Option<&mut Node>)
        requires
            index < old(self).nodes@.len(),
        ensures
            ({
                let p = old(self).nodes@[index as int].parent;
                &&& (p is None || p->0 >= old(self).nodes@.len()) ==> r is None && *final(self) == *old(
                    self,
                )
                &&& (p is Some && p->0 < old(self).nodes@.len()) ==> r is Some && *r->0 == old(
                    self,
                ).nodes@[p->0 as int] && final(self).nodes@ == old(self).nodes@.update(
                    p->0 as int,
                    *final(r->0),
                ) && final(self).tree_vec == old(self).tree_vec && final(self).max_depth == old(
                    self,
                ).max_depth && final(self).leaf_permutations == old(self).leaf_permutations
            }),
    {
        let p = self.nodes[index].parent;
        match p {
            Some(i) => self.mut_node(i),
            None => None,
        }
    }

    /// The node at `index`, if there is one.
    pub fn get_node(&self, index: usize) -> (r: Option<&Node>)
        ensures
            r == self.spec_node(index),
    {
        if index < self.nodes.len() {
            Some(&self.nodes[index])
        } else {
            None
        }
    }

    /// The parent of the node at `index`; none for a root, or where the
    /// parent link points outside the array.
    pub fn get_parent(&self, index: usize) -> (r: Option<&Node>)
        requires
            index < self.nodes@.len(),
        ensures
            r == match self.nodes@[index as int].parent {
                Some(p) => self.spec_node(p),
                None => None,
            },
    {
        match self.nodes[index].parent {
            Some(i) => self.get_node(i),
            None => None,
        }
    }

    /// The nodes whose tip flag is set, in the order of their positions.
    pub fn get_tips(&self) -> (r: Vec<&Node>)
        ensures
            r@.map_values(|n: &Node| *n) == self.nodes@.filter(|n: Node| n.tip),
    {
        let mut out: Vec<&Node> = Vec::new();
        let mut i: usize = 0;
        while i < self.nodes.len()
            invariant
                i <= self.nodes@.len(),
                out@.map_values(|n: &Node| *n) == self.nodes@.take(i as int).filter(|n: Node| n.tip),
            decreases self.nodes@.len() - i,
        {
            proof {
                let f = |n: Node| n.tip;
                let pre = self.nodes@.take(i as int);
                assert(self.nodes@.take(i + 1) =~= pre.push(self.nodes@[i as int]));
                assert(pre.push(self.nodes@[i as int]) =~= pre + seq![self.nodes@[i as int]]);
                Seq::filter_distributes_over_add(pre, seq![self.nodes@[i as int]], f);
                reveal_with_fuel(Seq::filter, 2);
                assert(seq![self.nodes@[i as int]].filter(f) =~= if self.nodes@[i as int].tip {
                    seq![self.nodes@[i as int]]
                } else {
                    Seq::empty()
                });
            }
            let ghost before = out@;
            if self.nodes[i].tip {
                out.push(&self.nodes[i]);
                assert(out@.map_values(|n: &Node| *n) =~= before.map_values(|n: &Node| *n).push(
                    self.nodes@[i as int],
                ));
            }
            i += 1;
        }
        assert(self.nodes@.take(i as int) =~= self.nodes@);
        out
    }

    /// The largest depth that any node records; zero for an empty array.
    pub fn max_treedepth(&self) -> (r: usize)
        ensures
            forall|i: int| 0 <= i < self.nodes@.len() ==> (#[trigger] self.nodes@[i]).depth <= r,
            self.nodes@.len() == 0 ==> r == 0,
            self.nodes@.len() > 0 ==> exists|i: int|
                0 <= i < self.nodes@.len() && (#[trigger] self.nodes@[i]).depth == r,
    {
        let mut best: usize = 0;
        let mut i: usize = 0;
        let ghost mut at: int = 0;
        while i < self.nodes.len()
            invariant
                i <= self.nodes@.len(),
                forall|j: int| 0 <= j < i ==> (#[trigger] self.nodes@[j]).depth <= best,
                i == 0 ==> best == 0,
                i > 0 ==> 0 <= at < i && self.nodes@[at].depth == best,
            decreases self.nodes@.len() - i,
        {
            if i == 0 || self.nodes[i].depth > best {
                best = self.nodes[i].depth;
                proof {
                    at = i as int;
                }
            }
            i += 1;
        }
        best
    }

    /// Registers node `index` under `parent`: as the parent's left child if
    /// that slot is free, else as its right child, one level below it. With
    /// no parent the node becomes a root at depth zero.
    pub fn add(&mut self, index: usize, parent: Option<usize>)
        requires
            index < old(self).nodes@.len(),
            parent matches Some(p) ==> p < old(self).nodes@.len() && old(self).nodes@[p as int].children.1
                is None && old(self).nodes@[p as int].depth < usize::MAX,
        ensures
            final(self).nodes@ == after_add(old(self).nodes@, index, parent),
            final(self).tree_vec == old(self).tree_vec,
            final(self).max_depth == old(self).max_depth,
            final(self).leaf_permutations == old(self).leaf_permutations,
    {
        let mut dpth: usize = 0;
        if let Some(par) = parent {
            let mut p = self.nodes[par];
            p.new_child(index);
            dpth = p.depth + 1;
            self.nodes[par] = p;
        }
        self.nodes[index] = Node::new(parent, (None, None), index, dpth);
    }

    /// Moves `node_index` from its parent to a free child slot of
    /// `new_parent_index` and sets its depth to one more than the new
    /// parent's. The depths below the moved node are left as they were.
    pub fn relocate(&mut self, node_index: usize, new_parent_index: usize)
        requires
            node_index < old(self).nodes@.len(),
            new_parent_index < old(self).nodes@.len(),
            old(self).nodes@[node_index as int].parent matches Some(op) && op < old(self).nodes@.len()
                && old(self).nodes@[op as int].has_child(node_index),
            after_detach(old(self).nodes@, node_index)[new_parent_index as int].children.1 is None,
            after_detach(old(self).nodes@, node_index)[new_parent_index as int].depth < usize::MAX,
        ensures
            final(self).nodes@ == after_relocate(old(self).nodes@, node_index, new_parent_index),
            final(self).tree_vec == old(self).tree_vec,
            final(self).max_depth == old(self).max_depth,
            final(self).leaf_permutations == old(self).leaf_permutations,
    {
        let op = self.nodes[node_index].parent.unwrap();
        let mut old_parent = self.nodes[op];
        old_parent.remove_child(node_index);
        self.nodes[op] = old_parent;
        let mut moved = self.nodes[node_index];
        moved.parent = Some(new_parent_index);
        self.nodes[node_index] = moved;
        let mut new_parent = self.nodes[new_parent_index];
        new_parent.new_child(node_index);
        self.nodes[new_parent_index] = new_parent;
        let mut moved = self.nodes[node_index];
        moved.depth = self.nodes[new_parent_index].depth + 1;
        self.nodes[node_index] = moved;
    }

    /// The number of parent links from the node at `x` up to a node without
    /// a parent, counted over at most as many links as there are nodes.
    fn count_up_from(&self, x: usize) -> (r: usize)
        requires
            x < self.nodes@.len(),
        ensures
            r == climb(self.nodes@, x, self.nodes@.len()),
            r <= self.nodes@.len(),
    {
        let big = self.nodes.len();
        let mut cur = x;
        let mut count: usize = 0;
        let mut going = true;
        while going && count < big
            invariant
                big == self.nodes@.len(),
                cur < big,
                count <= big,
                going ==> count + climb(self.nodes@, cur, (big - count) as nat) == climb(
                    self.nodes@,
                    x,
                    big as nat,
                ),
                !going ==> count == climb(self.nodes@, x, big as nat),
            decreases (if going { big - count + 1 } else { 0 }),
        {
            match self.nodes[cur].parent {
                Some(p) => {
                    if p < big {
                        cur = p;
                        count += 1;
                    } else {
                        going = false;
                    }
                },
                None => {
                    going = false;
                },
            }
        }
        count
    }

    /// Sets the depth of every node anew, to the number of parent links
    /// from it up to the root. The links are left as they are.
    pub fn refresh_depths(&mut self)
        ensures
            final(self).nodes@ == refreshed(old(self).nodes@),
            final(self).tree_vec == old(self).tree_vec,
            final(self).max_depth == old(self).max_depth,
            final(self).leaf_permutations == old(self).leaf_permutations,
    {
        let ghost s = self.nodes@;
        let big = self.nodes.len();
        let mut depths: Vec<usize> = Vec::new();
        let mut x: usize = 0;
        while x < big
            invariant
                x <= big,
                big == s.len(),
                s == self.nodes@,
                depths@.len() == x,
                forall|y: int| 0 <= y < x ==> #[trigger] depths@[y] == climb(s, y as usize, s.len()),
            decreases big - x,
        {
            let d = self.count_up_from(x);
            depths.push(d);
            x += 1;
        }
        let mut y: usize = 0;
        while y < big
            invariant
                y <= big,
                big == s.len(),
                depths@.len() == big,
                forall|z: int| 0 <= z < big ==> #[trigger] depths@[z] == climb(s, z as usize, s.len()),
                self.nodes@.len() == big,
                forall|z: int|
                    0 <= z < big ==> #[trigger] self.nodes@[z] == if z < y {
                        refreshed(s)[z]
                    } else {
                        s[z]
                    },
                self.tree_vec == old(self).tree_vec,
                self.max_depth == old(self).max_depth,
                self.leaf_permutations == old(self).leaf_permutations,
            decreases big - y,
        {
            let mut me = self.nodes[y];
            me.depth = depths[y];
            self.nodes[y] = me;
            y += 1;
        }
        assert(self.nodes@ =~= refreshed(s));
    }

    /// The slot of its parent that the node at `index` occupies: left where
    /// the parent's left child is `index`, right otherwise.
    pub fn get_handedness(&self, index: usize) -> (r: Handedness)
        requires
            index < self.nodes@.len(),
            self.nodes@[index as int].parent matches Some(p) && p < self.nodes@.len(),
        ensures
            r is Left <==> self.nodes@[self.nodes@[index as int].parent->0 as int].children.0 == Some(
                index,
            ),
    {
        let p = self.nodes[index].parent.unwrap();
        let left = self.nodes[p].children.0;
        if left == Some(index) {
            Handedness::Left
        } else {
            Handedness::Right
        }
    }

    /// The right child of the parent of the node at `index`.
    pub fn swap_to_right_child(&self, index: usize) -> (r: Option<&Node>)
        requires
            index < self.nodes@.len(),
            self.nodes@[index as int].parent matches Some(p) && p < self.nodes@.len()
                && self.nodes@[p as int].children.1 is Some,
        ensures
            r == self.spec_node(self.nodes@[self.nodes@[index as int].parent->0 as int].children.1->0),
    {
        let p = self.nodes[index].parent.unwrap();
        self.get_node(self.nodes[p].children.1.unwrap())
    }
}

} // verus!

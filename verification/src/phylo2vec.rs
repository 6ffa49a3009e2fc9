use crate::codec::{
    attach, decoded, depth_in, inner_id, joined, lemma_decoded, lemma_depth_in, lemma_join_facts,
    lemma_order, lemma_rank, lemma_shaped, links, order, rank, replaced, target, valid_vector, Link,
};
use crate::node::Node;
use crate::tree::Tree;
use vstd::prelude::*;

verus! {

/// Whether the vector encodes a tree whose node count fits the machine.
pub fn is_valid_vector(v: &Vec<usize>) -> (r: bool)
    ensures
        r == (valid_vector(v@) && 2 * v@.len() + 1 <= usize::MAX),
{
    if v.len() > (usize::MAX - 1) / 2 {
        return false;
    }
    let mut i: usize = 0;
    while i < v.len()
        invariant
            i <= v@.len(),
            2 * v@.len() + 1 <= usize::MAX,
            forall|j: int| 0 <= j < i ==> #[trigger] v@[j] <= 2 * j,
        decreases v@.len() - i,
    {
        if v[i] > 2 * i {
            return false;
        }
        i += 1;
    }
    true
}

/// The pair of children with `new` in the place of `old`.
fn replace_child(c: (Option<usize>, Option<usize>), old: usize, new: usize) -> (r: (
    Option<usize>,
    Option<usize>,
))
    ensures
        r == replaced(c, old, new),
{
    if c.0 == Some(old) {
        (Some(new), c.1)
    } else {
        (c.0, Some(new))
    }
}

/// The numbering of the inner nodes: for each entry of the vector what it
/// names, and its place among the inner nodes of the whole tree.
fn number_inner_nodes(v: &Vec<usize>) -> (r: (Vec<usize>, Vec<usize>))
    requires
        valid_vector(v@),
        2 * v@.len() + 1 <= usize::MAX,
    ensures
        r.0@.len() == v@.len(),
        r.1@.len() == v@.len(),
        forall|m: int| 0 <= m < v@.len() ==> #[trigger] r.0@[m] == joined(v@, m),
        forall|p: int| 0 <= p < v@.len() ==> #[trigger] r.1@[p] == rank(v@, p as usize),
{
    let k = v.len();
    let mut ord: Vec<usize> = Vec::new();
    let mut tgt: Vec<usize> = Vec::new();
    let mut rk: Vec<usize> = Vec::new();
    let mut n: usize = 0;
    while n < k
        invariant
            valid_vector(v@),
            k == v@.len(),
            2 * k + 1 <= usize::MAX,
            n <= k,
            ord@ == order(v@, n as nat),
            tgt@.len() == n,
            rk@.len() == n,
            forall|m: int| 0 <= m < n ==> #[trigger] tgt@[m] == joined(v@, m),
        decreases k - n,
    {
        proof {
            lemma_order(v@, n as nat);
            assert(v@[n as int] <= 2 * n);
        }
        let e = v[n];
        if e <= n {
            tgt.push(e);
            ord.insert(0, n);
        } else {
            let idx = e - n - 1;
            tgt.push(ord[idx]);
            ord.insert(idx + 1, n);
        }
        rk.push(0);
        n += 1;
    }
    let mut j: usize = 0;
    while j < k
        invariant
            valid_vector(v@),
            k == v@.len(),
            2 * k + 1 <= usize::MAX,
            j <= k,
            ord@ == order(v@, k as nat),
            rk@.len() == k,
            forall|a: int| 0 <= a < j ==> rk@[(#[trigger] ord@[a]) as int] == a,
        decreases k - j,
    {
        proof {
            lemma_order(v@, k as nat);
        }
        let p = ord[j];
        rk[p] = j;
        j += 1;
    }
    proof {
        assert forall|p: int| 0 <= p < k implies #[trigger] rk@[p] == rank(v@, p as usize) by {
            lemma_rank(v@, p as usize);
            let a = rank(v@, p as usize);
            assert(ord@[a] == p);
        }
    }
    (tgt, rk)
}

/// The links of the tree that the vector encodes.
fn link_nodes(v: &Vec<usize>) -> (lk: Vec<Link>)
    requires
        valid_vector(v@),
        2 * v@.len() + 1 <= usize::MAX,
    ensures
        lk@ == links(v@, v@.len()),
{
    let k = v.len();
    let big = 2 * k + 1;
    let (tgt, rk) = number_inner_nodes(v);
    let mut lk: Vec<Link> = Vec::new();
    let mut x: usize = 0;
    while x < big
        invariant
            x <= big,
            lk@ == Seq::new(x as nat, |i: int| Link::spec_default()),
        decreases big - x,
    {
        lk.push(Link { parent: None, children: (None, None) });
        x += 1;
        assert(lk@ =~= Seq::new(x as nat, |i: int| Link::spec_default()));
    }
    let mut n: usize = 0;
    while n < k
        invariant
            valid_vector(v@),
            k == v@.len(),
            big == 2 * k + 1,
            big <= usize::MAX,
            n <= k,
            tgt@.len() == k,
            rk@.len() == k,
            forall|m: int| 0 <= m < k ==> #[trigger] tgt@[m] == joined(v@, m),
            forall|p: int| 0 <= p < k ==> #[trigger] rk@[p] == rank(v@, p as usize),
            lk@ == links(v@, n as nat),
        decreases k - n,
    {
        proof {
            lemma_shaped(v@, n as nat);
            lemma_join_facts(v@, n as nat);
            if v@[n as int] > n {
                lemma_rank(v@, joined(v@, n as int));
            }
        }
        let e = v[n];
        let t = if e <= n {
            e
        } else {
            k + 1 + rk[tgt[n]]
        };
        let i = k + 1 + rk[n];
        let b = n + 1;
        assert(t == target(v@, n as int));
        assert(i == inner_id(v@, n));
        let ghost before = lk@;
        let at_t = lk[t];
        let g = at_t.parent;
        match g {
            Some(gg) => {
                let at_g = lk[gg];
                lk[gg] = Link { parent: at_g.parent, children: replace_child(at_g.children, t, i) };
            },
            None => {},
        }
        lk[i] = Link { parent: g, children: (Some(t), Some(b)) };
        lk[t] = Link { parent: Some(i), children: at_t.children };
        lk[b] = Link { parent: Some(i), children: (None, None) };
        assert(lk@ =~= attach(before, t, i, b));
        n += 1;
    }
    lk
}

/// Whether `t` is the tree that `v` encodes: it stores `v`, its nodes are
/// the decoded ones, its leaves are listed in their own order, and it
/// records its largest depth.
pub open spec fn decodes(t: &Tree, v: Seq<usize>) -> bool {
    &&& t.tree_vec@ == v
    &&& t.nodes@ == decoded(v)
    &&& t.leaf_permutations@ == Seq::new(v.len() + 1, |i: int| i as usize)
    &&& t.records_max_depth()
}

/// The tree that the vector encodes. Leaf `i + 1` joins the tree of the
/// leaves `0..=i` at the node that entry `i` names; the leaves get the ids
/// `0..=k`, the inner nodes the ids above them, children before parents.
pub fn phylo2vec(v: Vec<usize>) -> (t: Tree)
    requires
        valid_vector(v@),
        2 * v@.len() + 1 <= usize::MAX,
    ensures
        decodes(&t, v@),
        t.wf(),
        t.is_binary(),
{
    let k = v.len();
    let big = 2 * k + 1;
    let lk = link_nodes(&v);
    let ghost l = lk@;
    proof {
        lemma_shaped(v@, k as nat);
    }
    let mut nodes: Vec<Node> = Vec::new();
    let mut x: usize = 0;
    while x < big
        invariant
            x <= big,
            l == lk@,
            l.len() == big,
            nodes@ == Seq::new(
                x as nat,
                |y: int|
                    Node {
                        parent: l[y].parent,
                        children: l[y].children,
                        index: y as usize,
                        depth: 0,
                        tip: l[y].children.0 is None,
                    },
            ),
        decreases big - x,
    {
        let at = lk[x];
        nodes.push(
            Node {
                parent: at.parent,
                children: at.children,
                index: x,
                depth: 0,
                tip: at.children.0.is_none(),
            },
        );
        x += 1;
        assert(nodes@ =~= Seq::new(
            x as nat,
            |y: int|
                Node {
                    parent: l[y].parent,
                    children: l[y].children,
                    index: y as usize,
                    depth: 0,
                    tip: l[y].children.0 is None,
                },
        ));
    }
    while x > 0
        invariant
            x <= big,
            l == lk@,
            l.len() == big,
            big <= usize::MAX,
            nodes@ == Seq::new(
                big as nat,
                |y: int|
                    Node {
                        parent: l[y].parent,
                        children: l[y].children,
                        index: y as usize,
                        depth: if y >= x {
                            depth_in(l, y) as usize
                        } else {
                            0
                        },
                        tip: l[y].children.0 is None,
                    },
            ),
        decreases x,
    {
        x -= 1;
        let mut me = nodes[x];
        match me.parent {
            Some(p) => {
                if x < p && p < big {
                    proof {
                        lemma_depth_in(l, p as int);
                        lemma_depth_in(l, x as int);
                    }
                    me.depth = nodes[p].depth + 1;
                    nodes[x] = me;
                }
            },
            None => {},
        }
        assert(nodes@ =~= Seq::new(
            big as nat,
            |y: int|
                Node {
                    parent: l[y].parent,
                    children: l[y].children,
                    index: y as usize,
                    depth: if y >= x {
                        depth_in(l, y) as usize
                    } else {
                        0
                    },
                    tip: l[y].children.0 is None,
                },
        ));
    }
    assert(nodes@ =~= decoded(v@));
    proof {
        lemma_decoded(v@);
    }
    let mut t = Tree::new(v);
    t.nodes = nodes;
    let d = t.max_treedepth();
    t.max_depth = d;
    t
}

} // verus!

use crate::node::Node;
use crate::tree::{links_ok, well_formed, is_root};
use vstd::prelude::*;

verus! {

/// Whether the link from `x` down to `c` can be followed: `c` is a node and
/// lies deeper than `x`, within the depth that the array can hold.
pub open spec fn below(s: Seq<Node>, x: usize, c: usize) -> bool {
    c < s.len() && s[x as int].depth < s[c as int].depth <= s.len()
}

/// Whether the link from `x` up to `p` can be followed.
pub open spec fn above(s: Seq<Node>, x: usize, p: usize) -> bool {
    p < s.len() && s[p as int].depth < s[x as int].depth
}

/// The ids met on the way from `x` up to the root, `x` first.
pub open spec fn rootward(s: Seq<Node>, x: usize) -> Seq<usize>
    decreases s[x as int].depth,
{
    if x < s.len() && s[x as int].parent is Some && above(s, x, s[x as int].parent->0) {
        seq![x] + rootward(s, s[x as int].parent->0)
    } else {
        seq![x]
    }
}

/// The parent of `x`, where the link up to it can be followed.
pub open spec fn way_up(s: Seq<Node>, x: usize) -> Option<usize> {
    if x < s.len() && s[x as int].parent is Some && above(s, x, s[x as int].parent->0) {
        s[x as int].parent
    } else {
        None
    }
}

/// The way up from `x` starts at `x`, and goes on with the way up from its
/// parent where there is one to follow.
pub proof fn lemma_rootward_unfold(s: Seq<Node>, x: usize)
    ensures
        rootward(s, x).len() >= 1,
        rootward(s, x)[0] == x,
        way_up(s, x) matches Some(p) ==> rootward(s, x) == seq![x] + rootward(s, p) && rootward(
            s,
            x,
        ).skip(1) == rootward(s, p),
        way_up(s, x) is None ==> rootward(s, x) == seq![x],
{
    if way_up(s, x) is Some {
        let p = way_up(s, x)->0;
        assert(rootward(s, x) =~= seq![x] + rootward(s, p));
        assert(rootward(s, x).skip(1) =~= rootward(s, p));
    }
}

/// Whether `a` is `x` or one of its ancestors.
pub open spec fn reaches(s: Seq<Node>, a: usize, x: usize) -> bool
    decreases s[x as int].depth,
{
    x < s.len() && (x == a || (s[x as int].parent is Some && above(s, x, s[x as int].parent->0)
        && reaches(s, a, s[x as int].parent->0)))
}

/// The node reached from `x` by following left links as far as they go.
pub open spec fn leftmost(s: Seq<Node>, x: usize) -> usize
    decreases s.len() - s[x as int].depth,
{
    if x < s.len() && s[x as int].children.0 is Some && below(s, x, s[x as int].children.0->0) {
        leftmost(s, s[x as int].children.0->0)
    } else {
        x
    }
}

/// A sequence of distinct numbers below `n` has at most `n` entries.
pub proof fn lemma_distinct_bounded(q: Seq<usize>, n: nat)
    requires
        q.no_duplicates(),
        forall|i: int| 0 <= i < q.len() ==> q[i] < n,
    ensures
        q.len() <= n,
    decreases n,
{
    if q.len() > 0 {
        if n == 0 {
            assert(q[0] < n);
        } else if exists|j: int| 0 <= j < q.len() && q[j] == n - 1 {
            let j = choose|j: int| 0 <= j < q.len() && q[j] == n - 1;
            let r = q.remove(j);
            assert forall|i: int| 0 <= i < r.len() implies r[i] < n - 1 by {
                if i < j {
                    assert(r[i] == q[i]);
                } else {
                    assert(r[i] == q[i + 1]);
                }
            }
            assert forall|a: int, b: int| 0 <= a < r.len() && 0 <= b < r.len() && a != b implies r[a]
                != r[b] by {
                let a2 = if a < j { a } else { a + 1 };
                let b2 = if b < j { b } else { b + 1 };
                assert(r[a] == q[a2]);
                assert(r[b] == q[b2]);
            }
            lemma_distinct_bounded(r, (n - 1) as nat);
        } else {
            assert forall|i: int| 0 <= i < q.len() implies q[i] < n - 1 by {
                assert(q[i] < n);
            }
            lemma_distinct_bounded(q, (n - 1) as nat);
        }
    }
}

/// On a well-formed array the way up from `x` has one node per level: it
/// starts at `x`, each entry is the parent of the one before, and it ends at
/// a node without a parent.
pub proof fn lemma_rootward(s: Seq<Node>, x: usize)
    requires
        well_formed(s),
        x < s.len(),
    ensures
        rootward(s, x).len() == s[x as int].depth + 1,
        rootward(s, x)[0] == x,
        forall|i: int|
            0 <= i < rootward(s, x).len() ==> (#[trigger] rootward(s, x)[i]) < s.len() && s[rootward(
                s,
                x,
            )[i] as int].depth == s[x as int].depth - i,
        forall|i: int|
            0 <= i < rootward(s, x).len() - 1 ==> s[(#[trigger] rootward(s, x)[i]) as int].parent
                == Some(rootward(s, x)[i + 1]),
        s[rootward(s, x).last() as int].parent is None,
    decreases s[x as int].depth,
{
    assert(links_ok(s, x as int));
    match s[x as int].parent {
        Some(p) => {
            assert(links_ok(s, p as int));
            lemma_rootward(s, p);
            let r = rootward(s, p);
            let q = rootward(s, x);
            assert(q =~= seq![x] + r);
            assert forall|i: int| 0 <= i < q.len() implies (#[trigger] q[i]) < s.len() && s[q[i] as int].depth
                == s[x as int].depth - i by {
                if i > 0 {
                    assert(q[i] == r[i - 1]);
                }
            }
            assert forall|i: int| 0 <= i < q.len() - 1 implies s[(#[trigger] q[i]) as int].parent
                == Some(q[i + 1]) by {
                assert(q[i + 1] == r[i]);
                if i > 0 {
                    assert(q[i] == r[i - 1]);
                }
            }
            assert(q.last() == r.last());
        },
        None => {},
    }
}

/// On a well-formed array every depth is smaller than the number of nodes.
pub proof fn lemma_depth_bound(s: Seq<Node>, x: usize)
    requires
        well_formed(s),
        x < s.len(),
    ensures
        s[x as int].depth < s.len(),
{
    lemma_rootward(s, x);
    let q = rootward(s, x);
    assert forall|a: int, b: int| 0 <= a < q.len() && 0 <= b < q.len() && a != b implies q[a]
        != q[b] by {
        assert(s[q[a] as int].depth == s[x as int].depth - a);
        assert(s[q[b] as int].depth == s[x as int].depth - b);
    }
    lemma_distinct_bounded(q, s.len());
}

/// On a well-formed array both children of a node can be followed down, and
/// its parent up.
pub proof fn lemma_links(s: Seq<Node>, x: usize)
    requires
        well_formed(s),
        x < s.len(),
    ensures
        links_ok(s, x as int),
        s[x as int].depth < s.len(),
        s[x as int].children.0 matches Some(c) ==> below(s, x, c) && links_ok(s, c as int) && s[c as int].depth
            == s[x as int].depth + 1,
        s[x as int].children.1 matches Some(c) ==> below(s, x, c) && links_ok(s, c as int) && s[c as int].depth
            == s[x as int].depth + 1,
        s[x as int].parent matches Some(p) ==> above(s, x, p) && links_ok(s, p as int),
{
    assert(links_ok(s, x as int));
    lemma_depth_bound(s, x);
    if let Some(c) = s[x as int].children.0 {
        assert(links_ok(s, c as int));
        lemma_depth_bound(s, c);
    }
    if let Some(c) = s[x as int].children.1 {
        assert(links_ok(s, c as int));
        lemma_depth_bound(s, c);
    }
    if let Some(p) = s[x as int].parent {
        assert(links_ok(s, p as int));
    }
}

/// The leftmost descendant of a node of a well-formed array is a tip below
/// that node, and is the node's own leftmost descendant's.
pub proof fn lemma_leftmost(s: Seq<Node>, x: usize)
    requires
        well_formed(s),
        x < s.len(),
    ensures
        leftmost(s, x) < s.len(),
        s[leftmost(s, x) as int].children.0 is None,
        reaches(s, x, leftmost(s, x)),
        s[leftmost(s, x) as int].depth >= s[x as int].depth,
        leftmost(s, x) != x ==> s[leftmost(s, x) as int].depth > s[x as int].depth,
    decreases s.len() - s[x as int].depth,
{
    lemma_links(s, x);
    if let Some(c) = s[x as int].children.0 {
        lemma_leftmost(s, c);
        lemma_reaches_down(s, x, c, leftmost(s, c));
    }
}

/// What is reached from a child is reached from its parent.
pub proof fn lemma_reaches_down(s: Seq<Node>, a: usize, c: usize, x: usize)
    requires
        well_formed(s),
        a < s.len(),
        c < s.len(),
        s[c as int].parent == Some(a),
        reaches(s, c, x),
    ensures
        reaches(s, a, x),
    decreases s[x as int].depth,
{
    lemma_links(s, c);
    if x != c {
        lemma_links(s, x);
        lemma_reaches_down(s, a, c, s[x as int].parent->0);
    } else {
        assert(reaches(s, a, a));
    }
}

/// Whatever a node reaches lies at its depth or deeper, and at its depth
/// only the node itself.
pub proof fn lemma_reaches_depth(s: Seq<Node>, a: usize, x: usize)
    requires
        well_formed(s),
        a < s.len(),
        reaches(s, a, x),
    ensures
        s[x as int].depth >= s[a as int].depth,
        s[x as int].depth == s[a as int].depth ==> x == a,
    decreases s[x as int].depth,
{
    if x != a {
        lemma_reaches_depth(s, a, s[x as int].parent->0);
    }
}

/// Two nodes at one depth that reach a common node are one node.
pub proof fn lemma_reaches_unique(s: Seq<Node>, a: usize, b: usize, x: usize)
    requires
        well_formed(s),
        a < s.len(),
        b < s.len(),
        s[a as int].depth == s[b as int].depth,
        reaches(s, a, x),
        reaches(s, b, x),
    ensures
        a == b,
    decreases s[x as int].depth,
{
    lemma_reaches_depth(s, a, x);
    lemma_reaches_depth(s, b, x);
    if x != a && x != b {
        lemma_reaches_unique(s, a, b, s[x as int].parent->0);
    }
}

/// Reaching is transitive.
pub proof fn lemma_reaches_trans(s: Seq<Node>, a: usize, b: usize, x: usize)
    requires
        reaches(s, a, b),
        reaches(s, b, x),
    ensures
        reaches(s, a, x),
    decreases s[x as int].depth,
{
    if x != b {
        lemma_reaches_trans(s, a, b, s[x as int].parent->0);
    }
}

/// A node that is reached from `a` and is not `a` is reached from one of the
/// children of `a`.
pub proof fn lemma_reaches_child(s: Seq<Node>, a: usize, x: usize)
    requires
        well_formed(s),
        a < s.len(),
        reaches(s, a, x),
        x != a,
    ensures
        (s[a as int].children.0 matches Some(c) && reaches(s, c, x)) || (s[a as int].children.1 matches Some(
            c,
        ) && reaches(s, c, x)),
    decreases s[x as int].depth,
{
    lemma_links(s, x);
    lemma_links(s, a);
    let p = s[x as int].parent->0;
    if p == a {
        assert(reaches(s, x, x));
    } else {
        lemma_reaches_child(s, a, p);
        if s[a as int].children.0 is Some && reaches(s, s[a as int].children.0->0, p) {
            let c = s[a as int].children.0->0;
            assert(reaches(s, c, x));
        } else {
            let c = s[a as int].children.1->0;
            assert(reaches(s, c, x));
        }
    }
}

/// In a non-empty well-formed array every node is reached from the root.
pub proof fn lemma_root_reaches(s: Seq<Node>, root: usize, x: usize)
    requires
        well_formed(s),
        root < s.len(),
        x < s.len(),
        s[root as int].parent is None,
    ensures
        reaches(s, root, x),
    decreases s[x as int].depth,
{
    lemma_links(s, x);
    match s[x as int].parent {
        Some(p) => {
            lemma_root_reaches(s, root, p);
        },
        None => {
            assert(is_root(s, x as int));
            assert(is_root(s, root as int));
        },
    }
}

} // verus!

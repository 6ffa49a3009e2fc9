use crate::child_swap::{
    lemma_swap_changes, lemma_swap_facts, lemma_swapped, swappable, swapped,
};
use crate::likelihood::recomputed;
use crate::node::Node;
use crate::paths::{
    below, lemma_links, lemma_reaches_child, lemma_reaches_depth, lemma_reaches_down,
    lemma_reaches_trans, lemma_reaches_unique, lemma_root_reaches, reaches, rootward,
};
use crate::seqs::lemma_filter_step;
use crate::traverse::{inner, postorder_of};
use crate::tree::{links_ok, strictly_binary, well_formed};
use vstd::prelude::*;

verus! {

/// The entry of `x` is what `g` gives for the entries of its children. A tip
/// has nothing to be worked out from.
pub open spec fn settled<T>(
    s: Seq<Node>,
    g: spec_fn(T, T, usize, usize) -> T,
    d: Seq<T>,
    x: usize,
) -> bool {
    let l = s[x as int].children.0->0;
    let r = s[x as int].children.1->0;
    s[x as int].tip || d[x as int] == g(d[l as int], d[r as int], l, r)
}

/// The entry that `x` has once every inner node between `c` and the root
/// was worked out anew from below: for such a node what `g` gives for the
/// renewed entries of its children, for every other node what `d` holds.
pub open spec fn renewed<T>(
    s: Seq<Node>,
    g: spec_fn(T, T, usize, usize) -> T,
    d: Seq<T>,
    c: usize,
    x: usize,
) -> T
    decreases s.len() - s[x as int].depth,
{
    let l = s[x as int].children.0->0;
    let r = s[x as int].children.1->0;
    if x < s.len() && reaches(s, x, c) && !s[x as int].tip && below(s, x, l) && below(s, x, r) {
        g(renewed(s, g, d, c, l), renewed(s, g, d, c, r), l, r)
    } else {
        d[x as int]
    }
}

/// The renewed entries of all nodes.
pub open spec fn renewed_all<T>(
    s: Seq<Node>,
    g: spec_fn(T, T, usize, usize) -> T,
    d: Seq<T>,
    c: usize,
) -> Seq<T> {
    Seq::new(d.len(), |y: int| renewed(s, g, d, c, y as usize))
}

/// The entries `e` with those below and at `a` renewed.
pub open spec fn renewed_below<T>(
    s: Seq<Node>,
    g: spec_fn(T, T, usize, usize) -> T,
    d: Seq<T>,
    c: usize,
    a: usize,
    e: Seq<T>,
) -> Seq<T> {
    Seq::new(
        e.len(),
        |y: int|
            if reaches(s, a, y as usize) {
                renewed(s, g, d, c, y as usize)
            } else {
                e[y]
            },
    )
}

/// Working out along two schedules one after the other is working out
/// along their concatenation.
pub proof fn lemma_recomputed_concat<T>(
    s: Seq<Node>,
    g: spec_fn(T, T, usize, usize) -> T,
    a: Seq<usize>,
    b: Seq<usize>,
    d: Seq<T>,
)
    ensures
        recomputed(s, g, a + b, d) == recomputed(s, g, b, recomputed(s, g, a, d)),
    decreases b.len(),
{
    if b.len() == 0 {
        assert(a + b =~= a);
    } else {
        lemma_recomputed_concat(s, g, a, b.drop_last(), d);
        assert((a + b).drop_last() =~= a + b.drop_last());
        assert((a + b).last() == b.last());
    }
}

/// The inner nodes of a concatenation are those of its parts.
pub proof fn lemma_inner_concat(s: Seq<Node>, a: Seq<usize>, b: Seq<usize>)
    ensures
        inner(s, a + b) == inner(s, a) + inner(s, b),
{
    Seq::filter_distributes_over_add(a, b, |i: usize| !s[i as int].tip);
}

/// The inner nodes of a list of one node: the node, unless it is a tip.
pub proof fn lemma_inner_single(s: Seq<Node>, x: usize)
    ensures
        inner(s, seq![x]) == if s[x as int].tip {
            Seq::<usize>::empty()
        } else {
            seq![x]
        },
{
    let f = |i: usize| !s[i as int].tip;
    let ids = seq![x];
    lemma_filter_step(ids, f, 0);
    assert(ids.take(1) =~= ids);
    assert(ids.take(0).filter(f) =~= Seq::empty());
    assert(Seq::<usize>::empty().push(x) =~= seq![x]);
}

/// Working out along a list of one node sets that node's entry.
pub proof fn lemma_recomputed_single<T>(
    s: Seq<Node>,
    g: spec_fn(T, T, usize, usize) -> T,
    x: usize,
    e: Seq<T>,
)
    ensures
        recomputed(s, g, seq![x], e) == e.update(
            x as int,
            g(
                e[s[x as int].children.0->0 as int],
                e[s[x as int].children.1->0 as int],
                s[x as int].children.0->0,
                s[x as int].children.1->0,
            ),
        ),
{
    assert(seq![x].drop_last() =~= Seq::<usize>::empty());
    reveal_with_fuel(recomputed, 2);
}

/// One entry after a full pass over the subtree of the inner node `a`: the
/// passes over the two subtrees below it and the step at `a` itself leave
/// at `y` what the renewal of the subtree of `a` asks for.
pub proof fn lemma_full_point<T>(
    s: Seq<Node>,
    g: spec_fn(T, T, usize, usize) -> T,
    d: Seq<T>,
    c: usize,
    a: usize,
    e: Seq<T>,
    y: usize,
)
    requires
        s.len() <= usize::MAX,
        well_formed(s),
        strictly_binary(s),
        d.len() == s.len(),
        e.len() == s.len(),
        c < s.len(),
        a < s.len(),
        y < s.len(),
        !s[a as int].tip,
        forall|x: usize| x < s.len() && !reaches(s, x, c) ==> #[trigger] settled(s, g, d, x),
        forall|z: usize| #[trigger] reaches(s, a, z) ==> e[z as int] == d[z as int],
    ensures
        ({
            let l = s[a as int].children.0->0;
            let r = s[a as int].children.1->0;
            let e1 = renewed_below(s, g, d, c, l, e);
            let e2 = renewed_below(s, g, d, c, r, e1);
            e2.update(a as int, g(e2[l as int], e2[r as int], l, r))[y as int] == renewed_below(
                s,
                g,
                d,
                c,
                a,
                e,
            )[y as int]
        }),
{
    lemma_links(s, a);
    let l = s[a as int].children.0->0;
    let r = s[a as int].children.1->0;
    assert(s[a as int].children.0 is Some ==> s[a as int].children.1 is Some);
    lemma_links(s, l);
    lemma_links(s, r);
    let e1 = renewed_below(s, g, d, c, l, e);
    let e2 = renewed_below(s, g, d, c, r, e1);
    assert(reaches(s, a, a));
    assert(reaches(s, l, l));
    assert(reaches(s, r, r));
    if reaches(s, l, r) {
        lemma_reaches_unique(s, l, r, r);
    }
    if reaches(s, r, l) {
        lemma_reaches_unique(s, l, r, l);
    }
    if y == a {
        lemma_reaches_depth(s, a, a);
        assert(e1[l as int] == renewed(s, g, d, c, l));
        assert(e2[l as int] == e1[l as int]);
        assert(e2[r as int] == renewed(s, g, d, c, r));
        if !reaches(s, a, c) {
            if reaches(s, l, c) {
                lemma_reaches_down(s, a, l, c);
            }
            if reaches(s, r, c) {
                lemma_reaches_down(s, a, r, c);
            }
            assert(settled(s, g, d, a));
            assert(renewed(s, g, d, c, l) == d[l as int]);
            assert(renewed(s, g, d, c, r) == d[r as int]);
            assert(renewed(s, g, d, c, a) == d[a as int]);
        } else {
            assert(renewed(s, g, d, c, a) == g(
                renewed(s, g, d, c, l),
                renewed(s, g, d, c, r),
                l,
                r,
            ));
        }
    } else if reaches(s, l, y) {
        lemma_reaches_down(s, a, l, y);
        if reaches(s, r, y) {
            lemma_reaches_unique(s, l, r, y);
        }
        assert(e1[y as int] == renewed(s, g, d, c, y));
        assert(e2[y as int] == e1[y as int]);
    } else if reaches(s, r, y) {
        lemma_reaches_down(s, a, r, y);
        assert(e2[y as int] == renewed(s, g, d, c, y));
    } else {
        if reaches(s, a, y) {
            lemma_reaches_child(s, a, y);
        }
        assert(e1[y as int] == e[y as int]);
        assert(e2[y as int] == e1[y as int]);
    }
}

/// A full pass over the subtree of `a`, children before parents, renews the
/// entries below and at `a` and leaves the others, where the entries below
/// and at `a` stood as in `d` and every node that is not above `c` was
/// settled in `d`.
pub proof fn lemma_full_pass<T>(
    s: Seq<Node>,
    g: spec_fn(T, T, usize, usize) -> T,
    d: Seq<T>,
    c: usize,
    a: usize,
    e: Seq<T>,
)
    requires
        s.len() <= usize::MAX,
        well_formed(s),
        strictly_binary(s),
        d.len() == s.len(),
        e.len() == s.len(),
        c < s.len(),
        a < s.len(),
        forall|x: usize| x < s.len() && !reaches(s, x, c) ==> #[trigger] settled(s, g, d, x),
        forall|z: usize| #[trigger] reaches(s, a, z) ==> e[z as int] == d[z as int],
    ensures
        recomputed(s, g, inner(s, postorder_of(s, a)), e) == renewed_below(s, g, d, c, a, e),
    decreases s.len() - s[a as int].depth,
{
    lemma_links(s, a);
    let target = renewed_below(s, g, d, c, a, e);
    if s[a as int].tip {
        assert(postorder_of(s, a) =~= seq![a]);
        lemma_inner_single(s, a);
        assert forall|y: int| 0 <= y < e.len() implies target[y] == e[y] by {
            assert(links_ok(s, y));
            if reaches(s, a, y as usize) && y != a {
                lemma_reaches_child(s, a, y as usize);
            }
        }
        assert(target =~= e);
    } else {
        let l = s[a as int].children.0->0;
        let r = s[a as int].children.1->0;
        assert(s[a as int].children.0 is Some ==> s[a as int].children.1 is Some);
        lemma_links(s, l);
        lemma_links(s, r);
        let wl = inner(s, postorder_of(s, l));
        let wr = inner(s, postorder_of(s, r));
        assert(postorder_of(s, a) =~= (postorder_of(s, l) + postorder_of(s, r)) + seq![a]);
        lemma_inner_concat(s, postorder_of(s, l) + postorder_of(s, r), seq![a]);
        lemma_inner_concat(s, postorder_of(s, l), postorder_of(s, r));
        lemma_inner_single(s, a);
        assert(inner(s, postorder_of(s, a)) == (wl + wr) + seq![a]);
        lemma_recomputed_concat(s, g, wl + wr, seq![a], e);
        lemma_recomputed_concat(s, g, wl, wr, e);
        assert forall|z: usize| #[trigger] reaches(s, l, z) implies e[z as int] == d[z as int] by {
            lemma_reaches_down(s, a, l, z);
        }
        lemma_full_pass(s, g, d, c, l, e);
        let e1 = recomputed(s, g, wl, e);
        assert(e1 == renewed_below(s, g, d, c, l, e));
        assert forall|z: usize| #[trigger] reaches(s, r, z) implies e1[z as int] == d[z as int] by {
            lemma_reaches_down(s, a, r, z);
            if reaches(s, l, z) {
                lemma_reaches_unique(s, l, r, z);
            }
        }
        lemma_full_pass(s, g, d, c, r, e1);
        let e2 = recomputed(s, g, wr, e1);
        assert(e2 == renewed_below(s, g, d, c, r, e1));
        lemma_recomputed_single(s, g, a, e2);
        let e3 = recomputed(s, g, seq![a], e2);
        assert(recomputed(s, g, inner(s, postorder_of(s, a)), e) == e3);
        assert forall|y: int| 0 <= y < e.len() implies e3[y] == target[y] by {
            assert(links_ok(s, y));
            lemma_full_point(s, g, d, c, a, e, y as usize);
        }
        assert(e3 =~= target);
    }
}

/// With `p` the parent of `x` and `x` above `c`: the nodes above `c` that
/// lie below `p` are `x` and the nodes above `c` that lie below `x`.
pub proof fn lemma_between(s: Seq<Node>, c: usize, x: usize, y: usize)
    requires
        well_formed(s),
        c < s.len(),
        x < s.len(),
        y < s.len(),
        reaches(s, x, c),
        s[x as int].parent is Some,
    ensures
        (reaches(s, y, c) && reaches(s, s[x as int].parent->0, y) && y != s[x as int].parent->0) <==> (y
            == x || (reaches(s, y, c) && reaches(s, x, y) && y != x)),
{
    let p = s[x as int].parent->0;
    lemma_links(s, x);
    lemma_links(s, p);
    assert(reaches(s, x, x));
    assert(reaches(s, p, p));
    assert(reaches(s, p, x));
    if y == x {
    } else if reaches(s, y, c) && reaches(s, p, y) && y != p {
        lemma_reaches_child(s, p, y);
        let ch = if s[p as int].children.0 is Some && reaches(s, s[p as int].children.0->0, y) {
            s[p as int].children.0->0
        } else {
            s[p as int].children.1->0
        };
        lemma_links(s, ch);
        lemma_reaches_trans(s, ch, y, c);
        lemma_reaches_unique(s, ch, x, c);
    } else if reaches(s, y, c) && reaches(s, x, y) {
        lemma_reaches_down(s, p, x, y);
        lemma_reaches_depth(s, x, y);
    }
}

/// A pass from `x` up to the root renews all entries, where `x` lies above
/// `c`, the entries of the nodes between `c` and `x` are renewed already,
/// all others stand as in `d`, and every node that is not above `c` was
/// settled in `d`.
pub proof fn lemma_rootward_pass<T>(
    s: Seq<Node>,
    g: spec_fn(T, T, usize, usize) -> T,
    d: Seq<T>,
    c: usize,
    x: usize,
    e: Seq<T>,
)
    requires
        s.len() <= usize::MAX,
        well_formed(s),
        strictly_binary(s),
        d.len() == s.len(),
        e.len() == s.len(),
        c < s.len(),
        x < s.len(),
        reaches(s, x, c),
        forall|y: usize|
            y < s.len() ==> #[trigger] e[y as int] == if reaches(s, y, c) && reaches(s, x, y) && y != x {
                renewed(s, g, d, c, y)
            } else {
                d[y as int]
            },
    ensures
        recomputed(s, g, inner(s, rootward(s, x)), e) == renewed_all(s, g, d, c),
    decreases s[x as int].depth,
{
    lemma_links(s, x);
    lemma_inner_single(s, x);
    let l = s[x as int].children.0->0;
    let r = s[x as int].children.1->0;
    let e1 = recomputed(s, g, inner(s, seq![x]), e);
    assert(reaches(s, x, x));
    if !s[x as int].tip {
        assert(s[x as int].children.0 is Some ==> s[x as int].children.1 is Some);
        lemma_links(s, l);
        lemma_links(s, r);
        lemma_recomputed_single(s, g, x, e);
        assert(reaches(s, x, l));
        assert(reaches(s, x, r));
        assert(e[l as int] == renewed(s, g, d, c, l));
        assert(e[r as int] == renewed(s, g, d, c, r));
    }
    assert(e1.len() == s.len());
    assert(e[x as int] == d[x as int]);
    assert(e1[x as int] == renewed(s, g, d, c, x));
    match s[x as int].parent {
        None => {
            assert(rootward(s, x) =~= seq![x]);
            assert forall|y: int| 0 <= y < d.len() implies e1[y] == renewed_all(s, g, d, c)[y] by {
                assert(links_ok(s, y));
                let yy = y as usize;
                lemma_root_reaches(s, x, yy);
                assert(e1[y] == if yy == x {
                    renewed(s, g, d, c, x)
                } else {
                    e[yy as int]
                });
            }
            assert(e1 =~= renewed_all(s, g, d, c));
        },
        Some(p) => {
            lemma_links(s, p);
            assert(rootward(s, x) =~= seq![x] + rootward(s, p));
            lemma_inner_concat(s, seq![x], rootward(s, p));
            lemma_recomputed_concat(s, g, inner(s, seq![x]), inner(s, rootward(s, p)), e);
            lemma_reaches_down(s, p, x, c);
            assert forall|y: usize| y < s.len() implies #[trigger] e1[y as int] == if reaches(s, y, c)
                && reaches(s, p, y) && y != p {
                renewed(s, g, d, c, y)
            } else {
                d[y as int]
            } by {
                lemma_between(s, c, x, y);
                assert(e1[y as int] == if y == x {
                    renewed(s, g, d, c, x)
                } else {
                    e[y as int]
                });
            }
            lemma_rootward_pass(s, g, d, c, p, e1);
        },
    }
}

/// Working the entries out anew on the way from a node `c` up to the root
/// leaves the same entries as working them out anew for the whole tree,
/// children before parents, where every node that is not `c` or above it
/// held what the combining function gives for its children. `g` is that
/// function, `d` the entries before either pass.
pub proof fn lemma_rootward_equals_full<T>(
    s: Seq<Node>,
    g: spec_fn(T, T, usize, usize) -> T,
    d: Seq<T>,
    root: usize,
    c: usize,
)
    requires
        s.len() <= usize::MAX,
        well_formed(s),
        strictly_binary(s),
        d.len() == s.len(),
        root < s.len(),
        s[root as int].parent is None,
        c < s.len(),
        forall|x: usize| x < s.len() && !reaches(s, x, c) ==> #[trigger] settled(s, g, d, x),
    ensures
        recomputed(s, g, inner(s, rootward(s, c)), d) == recomputed(
            s,
            g,
            inner(s, postorder_of(s, root)),
            d,
        ),
        recomputed(s, g, inner(s, rootward(s, c)), d) == renewed_all(s, g, d, c),
{
    assert(reaches(s, c, c));
    assert forall|y: usize| y < s.len() implies #[trigger] d[y as int] == if reaches(s, y, c)
        && reaches(s, c, y) && y != c {
        renewed(s, g, d, c, y)
    } else {
        d[y as int]
    } by {
        if reaches(s, y, c) && reaches(s, c, y) {
            lemma_reaches_depth(s, y, c);
            lemma_reaches_depth(s, c, y);
        }
    }
    lemma_rootward_pass(s, g, d, c, c, d);
    assert forall|z: usize| #[trigger] reaches(s, root, z) implies d[z as int] == d[z as int] by {}
    lemma_full_pass(s, g, d, c, root, d);
    assert forall|y: int| 0 <= y < d.len() implies renewed_below(s, g, d, c, root, d)[y]
        == renewed_all(s, g, d, c)[y] by {
        assert(links_ok(s, y));
        lemma_root_reaches(s, root, y as usize);
    }
    assert(renewed_below(s, g, d, c, root, d) =~= renewed_all(s, g, d, c));
}

/// After an inner node and its parent exchanged a child each, working the
/// entries out anew from that node up to the root leaves what working them
/// out anew for the whole tree leaves, where every entry was settled before
/// the exchange.
pub proof fn lemma_swap_then_rootward<T>(
    s: Seq<Node>,
    node: usize,
    g: spec_fn(T, T, usize, usize) -> T,
    d: Seq<T>,
    root: usize,
)
    requires
        s.len() <= usize::MAX,
        well_formed(s),
        strictly_binary(s),
        swappable(s, node as int),
        d.len() == s.len(),
        root < s.len(),
        s[root as int].parent is None,
        forall|x: usize| x < s.len() ==> #[trigger] settled(s, g, d, x),
    ensures
        recomputed(
            swapped(s, node),
            g,
            inner(swapped(s, node), rootward(swapped(s, node), node)),
            d,
        ) == recomputed(
            swapped(s, node),
            g,
            inner(swapped(s, node), postorder_of(swapped(s, node), root)),
            d,
        ),
{
    let s2 = swapped(s, node);
    let p = s[node as int].parent->0;
    lemma_swapped(s, node);
    lemma_links(s, node);
    lemma_links(s2, node);
    assert(s2[node as int].parent == Some(p)) by {
        lemma_swap_changes(s, node, node);
        lemma_swap_facts(s, node);
    }
    assert(reaches(s2, node, node));
    assert(reaches(s2, p, p));
    assert(reaches(s2, p, node));
    assert forall|x: usize| x < s2.len() && !reaches(s2, x, node) implies #[trigger] settled(
        s2,
        g,
        d,
        x,
    ) by {
        lemma_swap_changes(s, node, x);
        assert(settled(s, g, d, x));
        assert(s2[x as int].tip == s[x as int].tip);
    }
    assert(s2[root as int].parent is None) by {
        lemma_swap_facts(s, node);
    }
    lemma_rootward_equals_full(s2, g, d, root, node);
}

} // verus!

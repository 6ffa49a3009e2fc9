use crate::node::Node;
use crate::paths::{lemma_links, lemma_rootward, rootward};
use crate::traverse::{inner, lemma_walk_in_range, nodes_at, pointees, postorder_of};
use crate::tree::Tree;
use vstd::prelude::*;

verus! {

/// `after` is `before` with the entry of the inner node `x` worked out anew
/// by `f` from the entries of its two children.
pub open spec fn combined_at<T, F: Fn(&T, &T, usize, usize) -> T>(
    s: Seq<Node>,
    f: F,
    x: usize,
    before: Seq<T>,
    after: Seq<T>,
) -> bool {
    let l = s[x as int].children.0->0;
    let r = s[x as int].children.1->0;
    &&& after.len() == before.len()
    &&& forall|y: int| 0 <= y < before.len() && y != x ==> #[trigger] after[y] == before[y]
    &&& call_ensures(f, (&before[l as int], &before[r as int], l, r), after[x as int])
}

/// `after` comes from `before` by working out the entries of the nodes of
/// `sched` anew, one after the other in the order of `sched`.
pub open spec fn combined_along<T, F: Fn(&T, &T, usize, usize) -> T>(
    s: Seq<Node>,
    f: F,
    sched: Seq<usize>,
    before: Seq<T>,
    after: Seq<T>,
) -> bool
    decreases sched.len(),
{
    if sched.len() == 0 {
        after == before
    } else {
        exists|mid: Seq<T>|
            combined_along(s, f, sched.drop_last(), before, mid) && #[trigger] combined_at(
                s,
                f,
                sched.last(),
                mid,
                after,
            )
    }
}

/// The entries after those of the nodes of `sched` were worked out anew, one
/// after the other, each as `g` of the entries and ids of its two children.
pub open spec fn recomputed<T>(
    s: Seq<Node>,
    g: spec_fn(T, T, usize, usize) -> T,
    sched: Seq<usize>,
    d: Seq<T>,
) -> Seq<T>
    decreases sched.len(),
{
    if sched.len() == 0 {
        d
    } else {
        let e = recomputed(s, g, sched.drop_last(), d);
        let x = sched.last();
        let l = s[x as int].children.0->0;
        let r = s[x as int].children.1->0;
        e.update(x as int, g(e[l as int], e[r as int], l, r))
    }
}

/// Working entries out anew keeps their number.
pub proof fn lemma_recomputed_len<T>(
    s: Seq<Node>,
    g: spec_fn(T, T, usize, usize) -> T,
    sched: Seq<usize>,
    d: Seq<T>,
)
    requires
        forall|i: int| 0 <= i < sched.len() ==> (#[trigger] sched[i]) < d.len(),
    ensures
        recomputed(s, g, sched, d).len() == d.len(),
    decreases sched.len(),
{
    if sched.len() > 0 {
        lemma_recomputed_len(s, g, sched.drop_last(), d);
    }
}

/// Where the combining function always returns what `g` gives, what it
/// leaves along a schedule is what `recomputed` gives.
pub proof fn lemma_combined_is_recomputed<T, F: Fn(&T, &T, usize, usize) -> T>(
    s: Seq<Node>,
    f: F,
    g: spec_fn(T, T, usize, usize) -> T,
    sched: Seq<usize>,
    before: Seq<T>,
    after: Seq<T>,
)
    requires
        combined_along(s, f, sched, before, after),
        forall|a: &T, b: &T, l: usize, r: usize, out: T| #[trigger]
            call_ensures(f, (a, b, l, r), out) ==> out == g(*a, *b, l, r),
        forall|i: int| 0 <= i < sched.len() ==> (#[trigger] sched[i]) < before.len(),
    ensures
        after == recomputed(s, g, sched, before),
    decreases sched.len(),
{
    if sched.len() > 0 {
        let mid = choose|mid: Seq<T>|
            combined_along(s, f, sched.drop_last(), before, mid) && #[trigger] combined_at(
                s,
                f,
                sched.last(),
                mid,
                after,
            );
        lemma_combined_is_recomputed(s, f, g, sched.drop_last(), before, mid);
        lemma_recomputed_len(s, g, sched.drop_last(), before);
        assert(sched[sched.len() - 1] < before.len());
        assert(after =~= recomputed(s, g, sched, before));
    }
}

/// The ids that pass the filter for inner nodes are nodes, and no tips.
pub proof fn lemma_inner_members(s: Seq<Node>, q: Seq<usize>)
    requires
        forall|i: int| 0 <= i < q.len() ==> (#[trigger] q[i]) < s.len(),
    ensures
        forall|i: int|
            0 <= i < inner(s, q).len() ==> (#[trigger] inner(s, q)[i]) < s.len() && !s[inner(s, q)[i] as int].tip,
{
    let f = |i: usize| !s[i as int].tip;
    assert forall|i: int| 0 <= i < inner(s, q).len() implies (#[trigger] inner(s, q)[i]) < s.len()
        && !s[inner(s, q)[i] as int].tip by {
        q.lemma_filter_pred(f, i);
        let e = q.filter(f)[i];
        assert(q.filter(f).contains(e));
        q.lemma_filter_contains_rev(f, e);
        let j = choose|j: int| 0 <= j < q.len() && q[j] == e;
        assert(q[j] < s.len());
    }
}

impl Tree {
    /// Works the entries of the nodes of `sched` out anew, in its order.
    fn combine_along<T, F: Fn(&T, &T, usize, usize) -> T>(
        &self,
        sched: &Vec<&Node>,
        Ghost(ids): Ghost<Seq<usize>>,
        genetic_data: &mut Vec<T>,
        combine: F,
    )
        requires
            self.wf(),
            self.is_binary(),
            old(genetic_data)@.len() == self.nodes@.len(),
            pointees(sched@) == nodes_at(self.nodes@, ids),
            forall|i: int|
                0 <= i < ids.len() ==> (#[trigger] ids[i]) < self.nodes@.len() && !self.nodes@[ids[i] as int].tip,
            forall|a: &T, b: &T, l: usize, r: usize| call_requires(combine, (a, b, l, r)),
        ensures
            combined_along(self.nodes@, combine, ids, old(genetic_data)@, final(genetic_data)@),
    {
        let ghost s = self.nodes@;
        let ghost d0 = genetic_data@;
        let mut i: usize = 0;
        assert(ids.take(0) =~= Seq::empty());
        assert(sched@.len() == pointees(sched@).len());
        while i < sched.len()
            invariant
                self.wf(),
                self.is_binary(),
                s == self.nodes@,
                i <= sched@.len(),
                sched@.len() == ids.len(),
                genetic_data@.len() == s.len(),
                pointees(sched@) == nodes_at(s, ids),
                forall|i: int| 0 <= i < ids.len() ==> (#[trigger] ids[i]) < s.len() && !s[ids[i] as int].tip,
                forall|a: &T, b: &T, l: usize, r: usize| call_requires(combine, (a, b, l, r)),
                combined_along(s, combine, ids.take(i as int), d0, genetic_data@),
            decreases sched@.len() - i,
        {
            let elem = sched[i];
            proof {
                assert(pointees(sched@)[i as int] == *elem);
                assert(nodes_at(s, ids)[i as int] == s[ids[i as int] as int]);
                lemma_links(s, ids[i as int]);
                assert(s[ids[i as int] as int].children.0 is Some ==> s[ids[i as int] as int].children.1 is Some);
            }
            let x = elem.index;
            let l = elem.children.0.unwrap();
            let r = elem.children.1.unwrap();
            let ghost mid = genetic_data@;
            let val = combine(&genetic_data[l], &genetic_data[r], l, r);
            genetic_data[x] = val;
            proof {
                assert(ids.take(i + 1).drop_last() =~= ids.take(i as int));
                assert(ids.take(i + 1).last() == x);
                assert(combined_at(s, combine, x, mid, genetic_data@));
            }
            i += 1;
        }
        assert(ids.take(i as int) =~= ids);
    }

    /// Works out anew the entry of every inner node below and at `node`,
    /// children before parents: each entry from the entries of the node's
    /// two children, by `combine`, which is also told the children's ids.
    pub fn update_likelihood_postorder<'a, T, F: Fn(&T, &T, usize, usize) -> T>(
        &'a self,
        node: Option<&'a Node>,
        genetic_data: &mut Vec<T>,
        combine: F,
    )
        requires
            self.wf(),
            self.is_binary(),
            self.holds(node),
            old(genetic_data)@.len() == self.nodes@.len(),
            forall|a: &T, b: &T, l: usize, r: usize| call_requires(combine, (a, b, l, r)),
        ensures
            combined_along(
                self.nodes@,
                combine,
                inner(self.nodes@, postorder_of(self.nodes@, node->0.index)),
                old(genetic_data)@,
                final(genetic_data)@,
            ),
    {
        let sched = self.postorder_notips(node);
        let ghost walk = postorder_of(self.nodes@, node->0.index);
        proof {
            lemma_walk_in_range(self.nodes@, node->0.index);
            lemma_inner_members(self.nodes@, walk);
        }
        self.combine_along(&sched, Ghost(inner(self.nodes@, walk)), genetic_data, combine);
    }

    /// Works out anew the entry of every inner node on the way from `node`
    /// up to the root, `node` first. The entries of the children of `node`
    /// are taken as they stand.
    pub fn update_likelihood_rootward<'a, T, F: Fn(&T, &T, usize, usize) -> T>(
        &'a self,
        node: Option<&'a Node>,
        genetic_data: &mut Vec<T>,
        combine: F,
    )
        requires
            self.wf(),
            self.is_binary(),
            self.holds(node),
            old(genetic_data)@.len() == self.nodes@.len(),
            forall|a: &T, b: &T, l: usize, r: usize| call_requires(combine, (a, b, l, r)),
        ensures
            combined_along(
                self.nodes@,
                combine,
                inner(self.nodes@, rootward(self.nodes@, node->0.index)),
                old(genetic_data)@,
                final(genetic_data)@,
            ),
    {
        let sched = self.iter_notips(node);
        let ghost walk = rootward(self.nodes@, node->0.index);
        proof {
            lemma_rootward(self.nodes@, node->0.index);
            lemma_inner_members(self.nodes@, walk);
        }
        self.combine_along(&sched, Ghost(inner(self.nodes@, walk)), genetic_data, combine);
    }
}

} // verus!

use crate::codec::{decoded, valid_vector};
use crate::node::Node;
use crate::paths::{lemma_rootward_unfold, rootward, way_up};
use crate::phylo2vec::{decodes, phylo2vec};
use crate::sampler::{flip_coin, sample_positions};
use crate::seqs::{copy_of, count_up, lemma_filter_step, upto};
use crate::tree::Tree;
use vstd::prelude::*;

verus! {

/// What one step of the sampler works on: a topology, the rate matrix and
/// the likelihood that go with it, and the nodes that the last move reports
/// as changed. The library carries `mat` and `ll` through unread.
pub struct TreeState<R, L> {
    pub top: Tree,
    pub mat: R,
    pub ll: L,
    pub changed_nodes: Option<Vec<usize>>,
}

/// The smaller of two lengths.
pub open spec fn shorter(a: nat, b: nat) -> nat {
    if a <= b {
        a
    } else {
        b
    }
}

/// The ids, in rising order, of the nodes that both arrays hold and whose
/// ancestry differs between them: the way from the node up to the root does
/// not pass the same nodes in both.
pub open spec fn changed_ids(a: Seq<Node>, b: Seq<Node>) -> Seq<usize> {
    upto(shorter(a.len(), b.len())).filter(|i: usize| rootward(a, i) != rootward(b, i))
}

/// An array has no changed node against itself.
pub proof fn lemma_no_changes(a: Seq<Node>)
    ensures
        changed_ids(a, a) == Seq::<usize>::empty(),
{
    let f = |i: usize| rootward(a, i) != rootward(a, i);
    upto(a.len()).lemma_all_neg_filter_empty(f);
    assert(upto(a.len()).filter(f) =~= Seq::empty());
}

impl Tree {
    /// The parent of the node at `x`, where the link up to it can be
    /// followed: it points to a node that records a smaller depth.
    fn step_up(&self, x: usize) -> (r: Option<usize>)
        requires
            x < self.nodes@.len(),
        ensures
            r == way_up(self.nodes@, x),
    {
        match self.nodes[x].parent {
            Some(p) => {
                if p < self.nodes.len() && self.nodes[p].depth < self.nodes[x].depth {
                    Some(p)
                } else {
                    None
                }
            },
            None => None,
        }
    }

    /// Whether the way from the node at `i` up to the root passes the same
    /// nodes in this topology and in `other`.
    fn same_ancestry(&self, other: &Tree, i: usize) -> (r: bool)
        requires
            i < self.nodes@.len(),
            i < other.nodes@.len(),
        ensures
            r == (rootward(self.nodes@, i) == rootward(other.nodes@, i)),
    {
        let ghost a = self.nodes@;
        let ghost b = other.nodes@;
        let ghost target = rootward(a, i) == rootward(b, i);
        let mut x = i;
        let mut verdict: Option<bool> = None;
        while verdict.is_none()
            invariant
                a == self.nodes@,
                b == other.nodes@,
                x < a.len(),
                x < b.len(),
                verdict is None ==> (target <==> rootward(a, x) == rootward(b, x)),
                verdict matches Some(v) ==> v == target,
            decreases
                    (if verdict is None {
                        a[x as int].depth + 1
                    } else {
                        0
                    }),
        {
            proof {
                lemma_rootward_unfold(a, x);
                lemma_rootward_unfold(b, x);
            }
            let here = self.step_up(x);
            let there = other.step_up(x);
            match (here, there) {
                (None, None) => {
                    verdict = Some(true);
                },
                (Some(p), Some(q)) => {
                    proof {
                        lemma_rootward_unfold(a, p);
                        lemma_rootward_unfold(b, q);
                        assert(rootward(a, x)[1] == p);
                        assert(rootward(b, x)[1] == q);
                    }
                    if p == q {
                        x = p;
                    } else {
                        verdict = Some(false);
                    }
                },
                (Some(p), None) => {
                    proof {
                        lemma_rootward_unfold(a, p);
                        assert(rootward(a, x).len() >= 2);
                    }
                    verdict = Some(false);
                },
                (None, Some(q)) => {
                    proof {
                        lemma_rootward_unfold(b, q);
                        assert(rootward(b, x).len() >= 2);
                    }
                    verdict = Some(false);
                },
            }
        }
        verdict.unwrap()
    }

    /// The nodes whose ancestry differs between this topology and `other`,
    /// by rising id: from each of them the way up to the root is not the
    /// same in both.
    pub fn find_changes(&self, other: &Tree) -> (r: Option<Vec<usize>>)
        ensures
            r is Some,
            r->0@ == changed_ids(self.nodes@, other.nodes@),
    {
        let n = if self.nodes.len() <= other.nodes.len() {
            self.nodes.len()
        } else {
            other.nodes.len()
        };
        let ghost a = self.nodes@;
        let ghost b = other.nodes@;
        let ghost f = |i: usize| rootward(a, i) != rootward(b, i);
        let ghost ids = upto(n as nat);
        let mut out: Vec<usize> = Vec::new();
        let mut i: usize = 0;
        assert(ids.take(0).filter(f) =~= Seq::empty());
        while i < n
            invariant
                i <= n,
                n == shorter(a.len(), b.len()),
                a == self.nodes@,
                b == other.nodes@,
                ids == upto(n as nat),
                f == |i: usize| rootward(a, i) != rootward(b, i),
                out@ == ids.take(i as int).filter(f),
            decreases n - i,
        {
            proof {
                lemma_filter_step(ids, f, i as int);
            }
            if !self.same_ancestry(other, i) {
                out.push(i);
            }
            i += 1;
        }
        assert(ids.take(n as int) =~= ids);
        Some(out)
    }
}

/// One entry of the vector after one coin: heads raises the entry at `pos`
/// by one where it lies below `2 (pos - 1)`, tails lowers it by one where
/// it lies above zero. Entry zero, and a `pos` outside the vector, change
/// nothing.
pub open spec fn nudged(v: Seq<usize>, pos: usize, heads: bool) -> Seq<usize> {
    if pos == 0 || pos >= v.len() {
        v
    } else if heads {
        if v[pos as int] < 2 * (pos - 1) {
            v.update(pos as int, (v[pos as int] + 1) as usize)
        } else {
            v
        }
    } else {
        if v[pos as int] > 0 {
            v.update(pos as int, (v[pos as int] - 1) as usize)
        } else {
            v
        }
    }
}

/// The vector after the entries at `positions` were nudged one after the
/// other, each with the coin that stands at its place in `coins`.
pub open spec fn perturbed(v: Seq<usize>, positions: Seq<usize>, coins: Seq<bool>) -> Seq<usize>
    decreases positions.len(),
{
    if positions.len() == 0 {
        v
    } else {
        nudged(
            perturbed(v, positions.drop_last(), coins.drop_last()),
            positions.last(),
            coins.last(),
        )
    }
}

/// Perturbing keeps the length of the vector and its entry zero, never
/// raises an entry at `i` above `2 (i - 1)` that was not above it, and so
/// keeps a legal vector legal.
pub proof fn lemma_perturbed(v: Seq<usize>, positions: Seq<usize>, coins: Seq<bool>)
    requires
        positions.len() == coins.len(),
    ensures
        perturbed(v, positions, coins).len() == v.len(),
        v.len() > 0 ==> perturbed(v, positions, coins)[0] == v[0],
        forall|i: int|
            1 <= i < v.len() && v[i] <= 2 * (i - 1) ==> (#[trigger] perturbed(v, positions, coins)[i])
                <= 2 * (i - 1),
        forall|i: int|
            1 <= i < v.len() && v[i] > 2 * (i - 1) ==> (#[trigger] perturbed(v, positions, coins)[i])
                <= v[i],
        valid_vector(v) ==> valid_vector(perturbed(v, positions, coins)),
    decreases positions.len(),
{
    if positions.len() > 0 {
        lemma_perturbed(v, positions.drop_last(), coins.drop_last());
        let w = perturbed(v, positions.drop_last(), coins.drop_last());
        let r = perturbed(v, positions, coins);
        assert(r == nudged(w, positions.last(), coins.last()));
        assert forall|i: int| 0 <= i < v.len() implies (#[trigger] r[i]) <= w[i] || (i >= 1 && r[i] <= 2
            * (i - 1)) by {}
        if valid_vector(v) {
            assert forall|i: int| 0 <= i < r.len() implies #[trigger] r[i] <= 2 * i by {
                assert(w[i] <= 2 * i);
            }
        }
    }
}

/// Where no position occurs twice, every entry of the perturbed vector
/// differs from the one it came from by at most one.
pub proof fn lemma_perturbed_distinct(v: Seq<usize>, positions: Seq<usize>, coins: Seq<bool>)
    requires
        2 * v.len() + 1 <= usize::MAX,
        positions.len() == coins.len(),
        positions.no_duplicates(),
    ensures
        forall|i: int|
            0 <= i < v.len() ==> v[i] - 1 <= (#[trigger] perturbed(v, positions, coins)[i]) <= v[i] + 1,
        forall|i: int|
            0 <= i < v.len() && !positions.contains(i as usize) ==> (#[trigger] perturbed(
                v,
                positions,
                coins,
            )[i]) == v[i],
    decreases positions.len(),
{
    lemma_perturbed(v, positions, coins);
    if positions.len() > 0 {
        let front = positions.drop_last();
        lemma_perturbed_distinct(v, front, coins.drop_last());
        lemma_perturbed(v, front, coins.drop_last());
        let w = perturbed(v, front, coins.drop_last());
        let r = perturbed(v, positions, coins);
        let p = positions.last();
        assert(r == nudged(w, p, coins.last()));
        assert(!front.contains(p)) by {
            if front.contains(p) {
                let j = choose|j: int| 0 <= j < front.len() && front[j] == p;
                assert(positions[j] == p);
            }
        }
        assert forall|i: int| 0 <= i < v.len() && !positions.contains(i as usize) implies (#[trigger] r[i])
            == v[i] by {
            assert(positions[positions.len() - 1] == p);
            if front.contains(i as usize) {
                let j = choose|j: int| 0 <= j < front.len() && front[j] == i as usize;
                assert(positions[j] == i as usize);
            }
        }
        assert forall|i: int| 0 <= i < v.len() implies v[i] - 1 <= (#[trigger] r[i]) <= v[i] + 1 by {
            if i == p {
                assert(w[i] == v[i]);
            }
        }
    }
}

/// The vector with the entries at `positions` nudged, one coin each.
pub fn perturb_vector(v: &Vec<usize>, positions: &Vec<usize>, coins: &Vec<bool>) -> (r: Vec<usize>)
    requires
        2 * v@.len() + 1 <= usize::MAX,
        positions@.len() == coins@.len(),
    ensures
        r@ == perturbed(v@, positions@, coins@),
{
    let mut out = copy_of(v);
    let mut j: usize = 0;
    assert(positions@.take(0) =~= Seq::empty());
    while j < positions.len()
        invariant
            j <= positions@.len(),
            2 * v@.len() + 1 <= usize::MAX,
            positions@.len() == coins@.len(),
            out@ == perturbed(v@, positions@.take(j as int), coins@.take(j as int)),
        decreases positions@.len() - j,
    {
        proof {
            lemma_perturbed(v@, positions@.take(j as int), coins@.take(j as int));
            assert(positions@.take(j + 1).drop_last() =~= positions@.take(j as int));
            assert(coins@.take(j + 1).drop_last() =~= coins@.take(j as int));
        }
        let pos = positions[j];
        if pos != 0 && pos < out.len() {
            if coins[j] {
                if out[pos] < 2 * (pos - 1) {
                    out[pos] = out[pos] + 1;
                }
            } else {
                if out[pos] > 0 {
                    out[pos] = out[pos] - 1;
                }
            }
        }
        j += 1;
    }
    assert(positions@.take(j as int) =~= positions@);
    assert(coins@.take(j as int) =~= coins@);
    out
}

/// A proposal operator of the sampler: from a state it makes a new one and
/// leaves the old one as it was.
pub trait TreeMove<R: Copy, L: Copy> {
    /// The states on which the move can be made.
    spec fn applies(&self, ts: &TreeState<R, L>) -> bool;

    /// The state after the move. It keeps the rate matrix and the, now
    /// stale, likelihood, and names the nodes that changed.
    fn generate(&self, ts: &TreeState<R, L>) -> (r: TreeState<R, L>)
        requires
            self.applies(ts),
        ensures
            r.mat == ts.mat,
            r.ll == ts.ll,
            r.changed_nodes is Some,
            r.top.wf(),
            r.top.is_binary(),
            valid_vector(r.top.tree_vec@),
    ;
}

/// The move to the topology that a given vector encodes.
pub struct ExactMove {
    pub target_vector: Vec<usize>,
}

impl<R: Copy, L: Copy> TreeMove<R, L> for ExactMove {
    open spec fn applies(&self, ts: &TreeState<R, L>) -> bool {
        valid_vector(self.target_vector@) && 2 * self.target_vector@.len() + 1 <= usize::MAX
    }

    fn generate(&self, ts: &TreeState<R, L>) -> (r: TreeState<R, L>)
        ensures
            decodes(&r.top, self.target_vector@),
            r.changed_nodes->0@ == changed_ids(ts.top.nodes@, decoded(self.target_vector@)),
    {
        let new_topology = phylo2vec(copy_of(&self.target_vector));
        let changes = ts.top.find_changes(&new_topology);
        TreeState { top: new_topology, mat: ts.mat, ll: ts.ll, changed_nodes: changes }
    }
}

/// The move that nudges up to `n` entries of the vector by one.
pub struct PeturbVec {
    pub n: usize,
}

/// What a perturbation of `v` at `amount` places may give: the vector that
/// some `amount` different positions of `v`, with some coins, lead to.
pub open spec fn is_perturbation(v: Seq<usize>, amount: nat, w: Seq<usize>) -> bool {
    exists|positions: Seq<usize>, coins: Seq<bool>|
        #![trigger perturbed(v, positions, coins)]
        positions.len() == amount && coins.len() == amount && positions.no_duplicates() && (forall|
            i: int,
        |
            0 <= i < positions.len() ==> (#[trigger] positions[i]) < v.len()) && w == perturbed(
            v,
            positions,
            coins,
        )
}

impl<R: Copy, L: Copy> TreeMove<R, L> for PeturbVec {
    open spec fn applies(&self, ts: &TreeState<R, L>) -> bool {
        valid_vector(ts.top.tree_vec@) && 2 * ts.top.tree_vec@.len() + 1 <= usize::MAX
    }

    fn generate(&self, ts: &TreeState<R, L>) -> (r: TreeState<R, L>)
        ensures
            is_perturbation(
                ts.top.tree_vec@,
                shorter(self.n as nat, ts.top.tree_vec@.len()),
                r.top.tree_vec@,
            ),
            r.top.tree_vec@.len() == ts.top.tree_vec@.len(),
            ts.top.tree_vec@.len() > 0 ==> r.top.tree_vec@[0] == ts.top.tree_vec@[0],
            forall|i: int|
                1 <= i < ts.top.tree_vec@.len() && ts.top.tree_vec@[i] <= 2 * (i - 1) ==> (
                #[trigger] r.top.tree_vec@[i]) <= 2 * (i - 1),
            decodes(&r.top, r.top.tree_vec@),
            r.changed_nodes->0@ == changed_ids(ts.top.nodes@, r.top.nodes@),
    {
        let len = ts.top.tree_vec.len();
        let samp_n = if self.n > len {
            len
        } else {
            self.n
        };
        let inds = if samp_n == len {
            count_up(len)
        } else {
            sample_positions(len, samp_n)
        };
        let mut coins: Vec<bool> = Vec::new();
        let mut j: usize = 0;
        while j < samp_n
            invariant
                j <= samp_n,
                coins@.len() == j,
            decreases samp_n - j,
        {
            coins.push(flip_coin());
            j += 1;
        }
        let vout = perturb_vector(&ts.top.tree_vec, &inds, &coins);
        proof {
            lemma_perturbed(ts.top.tree_vec@, inds@, coins@);
            assert(inds@.no_duplicates());
            assert(is_perturbation(ts.top.tree_vec@, samp_n as nat, vout@));
        }
        let new_topology = phylo2vec(vout);
        let changes = ts.top.find_changes(&new_topology);
        TreeState { top: new_topology, mat: ts.mat, ll: ts.ll, changed_nodes: changes }
    }
}

} // verus!

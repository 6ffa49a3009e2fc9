use crate::codec::{
    active, attach, child_shaped, decoded, inner_id, lemma_attach_pointwise, lemma_join_facts,
    lemma_order, lemma_rank, lemma_shaped, links, node_shaped, order, replaced, target,
    valid_vector, Link,
};
use crate::encode_laws::{leafy, lemma_encoding_keeps_tree, same_tree};
use crate::node::Node;
use crate::tree::Tree;
use vstd::prelude::*;

verus! {

/// The links that a node array holds.
pub open spec fn links_of(s: Seq<Node>) -> Seq<Link> {
    Seq::new(s.len(), |x: int| Link { parent: s[x].parent, children: s[x].children })
}

/// The parent of `b` and the other child of that parent, where the links
/// name both and both are nodes.
pub open spec fn met_at(l: Seq<Link>, b: usize) -> Option<(usize, usize)> {
    if b < l.len() && l[b as int].parent is Some && l[b as int].parent->0 < l.len() {
        let q = l[b as int].parent->0;
        let c = l[q as int].children;
        let s = if c.0 == Some(b) {
            c.1
        } else {
            c.0
        };
        if s is Some && s->0 < l.len() {
            Some((q, s->0))
        } else {
            None
        }
    } else {
        None
    }
}

/// The links after leaf `b` left the tree: its sibling takes the place of
/// their parent, and the leaf and the parent keep no links. Where `b` has no
/// parent or no sibling nothing changes.
pub open spec fn detach(l: Seq<Link>, b: usize) -> Seq<Link> {
    match met_at(l, b) {
        Some((q, s)) => {
            let g = l[q as int].parent;
            let l1 = if g is Some && g->0 < l.len() {
                l.update(
                    g->0 as int,
                    Link {
                        parent: l[g->0 as int].parent,
                        children: replaced(l[g->0 as int].children, q, s),
                    },
                )
            } else {
                l
            };
            l1.update(s as int, Link { parent: g, children: l[s as int].children }).update(
                q as int,
                Link::spec_default(),
            ).update(b as int, Link::spec_default())
        },
        None => l,
    }
}

/// The links after the leaves `k`, `k - 1`, down to `n + 1` left the tree
/// one after the other.
pub open spec fn collapsed(l: Seq<Link>, k: nat, n: nat) -> Seq<Link>
    decreases k - n,
{
    if n >= k {
        l
    } else {
        detach(collapsed(l, k, n + 1), (n + 1) as usize)
    }
}

/// The parent and the sibling that leaf `m + 1` has when the leaves above it
/// have left.
pub open spec fn met(l: Seq<Link>, k: nat, m: nat) -> Option<(usize, usize)> {
    met_at(collapsed(l, k, m + 1), (m + 1) as usize)
}

/// The sibling that leaf `m + 1` has when the leaves above it have left.
pub open spec fn sibling_met(l: Seq<Link>, k: nat, m: nat) -> Option<usize> {
    match met(l, k, m) {
        Some((q, s)) => Some(s),
        None => None,
    }
}

/// The parent that leaf `m + 1` has when the leaves above it have left.
pub open spec fn parent_met(l: Seq<Link>, k: nat, m: nat) -> Option<usize> {
    match met(l, k, m) {
        Some((q, s)) => Some(q),
        None => None,
    }
}

/// The first entry from `from` on whose leaf has `x` as parent when it
/// leaves: the entry that creates the inner node `x`.
pub open spec fn home(l: Seq<Link>, k: nat, x: usize, from: nat) -> Option<usize>
    decreases k - from,
{
    if from >= k {
        None
    } else if parent_met(l, k, from) == Some(x) {
        Some(from as usize)
    } else {
        home(l, k, x, from + 1)
    }
}

/// The first place from `from` on at which `q` holds `x`; the length of `q`
/// where it holds `x` nowhere.
pub open spec fn place(q: Seq<usize>, x: usize, from: int) -> int
    decreases q.len() - from,
{
    if from < 0 || from >= q.len() {
        q.len() as int
    } else if q[from] == x {
        from
    } else {
        place(q, x, from + 1)
    }
}

/// Entry `m` of the encoding, given the order `oo` of the inner nodes of the
/// entries before it: the sibling of leaf `m + 1` where it is a leaf, else
/// the number of that inner node in the tree of the leaves `0..=m`. Zero
/// where the links give no such sibling.
pub open spec fn entry(l: Seq<Link>, k: nat, m: nat, oo: Seq<usize>) -> usize {
    match sibling_met(l, k, m) {
        Some(s) => {
            if s <= m {
                s
            } else if home(l, k, s, 0) is Some && place(oo, home(l, k, s, 0)->0, 0) < oo.len() {
                (m + 1 + place(oo, home(l, k, s, 0)->0, 0)) as usize
            } else {
                0
            }
        },
        None => 0,
    }
}

/// The first `n` entries of the encoding.
pub open spec fn encoded_prefix(l: Seq<Link>, k: nat, n: nat) -> Seq<usize>
    decreases n,
{
    if n == 0 {
        Seq::empty()
    } else {
        let w = encoded_prefix(l, k, (n - 1) as nat);
        w.push(entry(l, k, (n - 1) as nat, order(w, (n - 1) as nat)))
    }
}

/// The number of entries that the encoding of an array of `len` nodes has.
pub open spec fn entries_for(len: nat) -> nat {
    if len == 0 {
        0
    } else {
        ((len - 1) / 2) as nat
    }
}

/// The vector that encodes the tree that the links of the node array form.
pub open spec fn encoded(s: Seq<Node>) -> Seq<usize> {
    encoded_prefix(links_of(s), entries_for(s.len()), entries_for(s.len()))
}

/// The order of the first `n` entries depends on these entries only.
pub proof fn lemma_order_prefix(a: Seq<usize>, b: Seq<usize>, n: nat)
    requires
        n <= a.len(),
        n <= b.len(),
        forall|i: int| 0 <= i < n ==> a[i] == b[i],
    ensures
        order(a, n) == order(b, n),
    decreases n,
{
    if n > 0 {
        lemma_order_prefix(a, b, (n - 1) as nat);
    }
}

/// The first `n` entries of the encoding form a legal vector.
pub proof fn lemma_encoded_valid(l: Seq<Link>, k: nat, n: nat)
    requires
        2 * k + 1 <= usize::MAX,
        n <= k,
    ensures
        encoded_prefix(l, k, n).len() == n,
        valid_vector(encoded_prefix(l, k, n)),
    decreases n,
{
    if n > 0 {
        let m = (n - 1) as nat;
        lemma_encoded_valid(l, k, m);
        let w = encoded_prefix(l, k, m);
        lemma_order(w, m);
        let w2 = encoded_prefix(l, k, n);
        assert forall|i: int| 0 <= i < w2.len() implies #[trigger] w2[i] <= 2 * i by {
            if i < m {
                assert(w2[i] == w[i]);
            } else {
                assert(w2[i] == entry(l, k, m, order(w, m)));
                if sibling_met(l, k, m) is Some {
                    let s = sibling_met(l, k, m)->0;
                    if home(l, k, s, 0) is Some {
                        lemma_place_bound(order(w, m), home(l, k, s, 0)->0, 0);
                    }
                }
            }
        }
    }
}

/// Taking leaves away keeps the number of nodes.
pub proof fn lemma_collapsed_len(l: Seq<Link>, k: nat, n: nat)
    ensures
        collapsed(l, k, n).len() == l.len(),
    decreases k - n,
{
    if n < k {
        lemma_collapsed_len(l, k, n + 1);
    }
}

/// A search from `from` on ends at `from` or later, at the list's end at
/// the latest.
pub proof fn lemma_place_bound(q: Seq<usize>, x: usize, from: int)
    requires
        0 <= from <= q.len(),
    ensures
        from <= place(q, x, from) <= q.len(),
    decreases q.len() - from,
{
    if from < q.len() && q[from] != x {
        lemma_place_bound(q, x, from + 1);
    }
}

/// In a list without repetition an entry is first found where it stands.
pub proof fn lemma_place(q: Seq<usize>, i: int, from: int)
    requires
        q.no_duplicates(),
        0 <= from <= i < q.len(),
    ensures
        place(q, q[i], from) == i,
    decreases i - from,
{
    if from < i {
        lemma_place(q, i, from + 1);
    }
}

/// Taking the leaf away that joined last gives the links back that were
/// there before it joined, and the leaf leaves from the inner node that its
/// joining made, as sibling of the node that it joined.
pub proof fn lemma_detach_attach(v: Seq<usize>, n: nat)
    requires
        valid_vector(v),
        2 * v.len() + 1 <= usize::MAX,
        n < v.len(),
    ensures
        met_at(links(v, n + 1), (n + 1) as usize) == Some(
            (inner_id(v, n as usize), target(v, n as int)),
        ),
        detach(links(v, n + 1), (n + 1) as usize) == links(v, n),
{
    let k = v.len() as int;
    let l = links(v, n);
    let t = target(v, n as int);
    let i = inner_id(v, n as usize);
    let b = (n + 1) as usize;
    let l2 = links(v, n + 1);
    lemma_shaped(v, n);
    lemma_join_facts(v, n);
    lemma_attach_pointwise(l, t, i, b);
    lemma_order(v, v.len());
    lemma_rank(v, n as usize);
    assert(l2 == attach(l, t, i, b));
    assert(node_shaped(v, n, t as int));
    assert(node_shaped(v, n, i as int));
    assert(node_shaped(v, n, b as int));
    assert(order(v, v.len())[i - k - 1] == n);
    assert(!active(v, n, i as int));
    assert(!active(v, n, b as int));
    assert(met_at(l2, b) == Some((i, t)));
    let g = l[t as int].parent;
    if g is Some {
        let gg = g->0;
        assert(node_shaped(v, n, gg as int));
        let c = l[gg as int].children;
        assert(child_shaped(v, n, gg as int, c.0->0));
        assert(child_shaped(v, n, gg as int, c.1->0));
        assert(replaced(replaced(c, t, i), i, t) == c);
    }
    assert(detach(l2, b) =~= l);
}

/// Taking the leaves above `n` away from the decoded links gives the links
/// of the tree of the leaves `0..=n`.
pub proof fn lemma_collapsed(v: Seq<usize>, n: nat)
    requires
        valid_vector(v),
        2 * v.len() + 1 <= usize::MAX,
        n <= v.len(),
    ensures
        collapsed(links(v, v.len()), v.len(), n) == links(v, n),
    decreases v.len() - n,
{
    if n < v.len() {
        lemma_collapsed(v, n + 1);
        lemma_detach_attach(v, n);
    }
}

/// In the decoded links the entry that creates an inner node is found from
/// its id.
pub proof fn lemma_home(v: Seq<usize>, p: usize, from: nat)
    requires
        valid_vector(v),
        2 * v.len() + 1 <= usize::MAX,
        from <= p < v.len(),
    ensures
        home(links(v, v.len()), v.len(), inner_id(v, p), from) == Some(p),
    decreases p - from,
{
    lemma_collapsed(v, from + 1);
    lemma_detach_attach(v, from);
    lemma_rank(v, p);
    lemma_rank(v, from as usize);
    if from < p {
        lemma_home(v, p, from + 1);
    }
}

/// The encoding of the decoded links gives the vector back, entry by entry.
pub proof fn lemma_encoded_prefix(v: Seq<usize>, n: nat)
    requires
        valid_vector(v),
        2 * v.len() + 1 <= usize::MAX,
        n <= v.len(),
    ensures
        encoded_prefix(links(v, v.len()), v.len(), n) == v.take(n as int),
    decreases n,
{
    let l = links(v, v.len());
    let k = v.len();
    if n == 0 {
        assert(v.take(0) =~= Seq::empty());
    } else {
        let m = (n - 1) as nat;
        lemma_encoded_prefix(v, m);
        let w = v.take(m as int);
        lemma_order_prefix(w, v, m);
        let oo = order(v, m);
        lemma_order(v, m);
        lemma_collapsed(v, m + 1);
        lemma_detach_attach(v, m);
        assert(v[m as int] <= 2 * m);
        assert(sibling_met(l, k, m) == Some(target(v, m as int)));
        if v[m as int] > m {
            let idx = v[m as int] - m - 1;
            let pt = oo[idx];
            lemma_rank(v, pt);
            lemma_home(v, pt, 0);
            lemma_place(oo, idx, 0);
            assert(entry(l, k, m, oo) == v[m as int]);
        } else {
            assert(entry(l, k, m, oo) == v[m as int]);
        }
        assert(w.push(v[m as int]) =~= v.take(n as int));
    }
}

/// Encoding a decoded tree gives back the vector it was decoded from, so
/// decoding the encoding of a tree that the codec produced gives that tree
/// again.
pub proof fn lemma_round_trip(v: Seq<usize>)
    requires
        valid_vector(v),
        2 * v.len() + 1 <= usize::MAX,
    ensures
        encoded(decoded(v)) == v,
        decoded(encoded(decoded(v))) == decoded(v),
{
    lemma_shaped(v, v.len());
    assert(links_of(decoded(v)) =~= links(v, v.len()));
    assert(entries_for(decoded(v).len()) == v.len());
    lemma_encoded_prefix(v, v.len());
    assert(v.take(v.len() as int) =~= v);
}

/// The place at which `q` first holds `x`, or its length.
fn find_place(q: &Vec<usize>, x: usize) -> (j: usize)
    ensures
        j == place(q@, x, 0),
        j <= q@.len(),
{
    let mut j: usize = 0;
    while j < q.len() && q[j] != x
        invariant
            j <= q@.len(),
            place(q@, x, j as int) == place(q@, x, 0),
        decreases q@.len() - j,
    {
        j += 1;
    }
    j
}

/// Takes the leaves `k`, `k - 1`, down to `1` away from the links, and gives
/// for each entry the sibling that its leaf had when it left, and for each
/// node the entry whose leaf left from it.
fn take_leaves(lk: &mut Vec<Link>, k: usize) -> (r: (Vec<Option<usize>>, Vec<Option<usize>>))
    requires
        k < old(lk)@.len(),
    ensures
        r.0@.len() == k,
        r.1@.len() == old(lk)@.len(),
        forall|m: int| 0 <= m < k ==> #[trigger] r.0@[m] == sibling_met(old(lk)@, k as nat, m as nat),
        forall|x: int|
            0 <= x < old(lk)@.len() ==> #[trigger] r.1@[x] == home(old(lk)@, k as nat, x as usize, 0),
{
    let ghost l0 = lk@;
    let big = lk.len();
    let mut sib: Vec<Option<usize>> = Vec::new();
    let mut hm: Vec<Option<usize>> = Vec::new();
    let mut x: usize = 0;
    while x < big
        invariant
            x <= big,
            k < big,
            sib@.len() == if x < k { x } else { k },
            hm@.len() == x,
            forall|y: int| 0 <= y < x ==> #[trigger] hm@[y] == None::<usize>,
            forall|y: int| 0 <= y < sib@.len() ==> #[trigger] sib@[y] == None::<usize>,
        decreases big - x,
    {
        if x < k {
            sib.push(None);
        }
        hm.push(None);
        x += 1;
    }
    let mut n: usize = k;
    while n > 0
        invariant
            n <= k,
            k < big,
            big == l0.len(),
            lk@.len() == big,
            lk@ == collapsed(l0, k as nat, n as nat),
            sib@.len() == k,
            hm@.len() == big,
            forall|m: int| n <= m < k ==> #[trigger] sib@[m] == sibling_met(l0, k as nat, m as nat),
            forall|m: int| 0 <= m < n ==> #[trigger] sib@[m] == None::<usize>,
            forall|y: int| 0 <= y < big ==> #[trigger] hm@[y] == home(l0, k as nat, y as usize, n as nat),
        decreases n,
    {
        let m = n - 1;
        let b = n;
        let ghost before = lk@;
        assert(collapsed(l0, k as nat, m as nat) == detach(before, b));
        assert(met(l0, k as nat, m as nat) == met_at(before, b));
        let at_b = lk[b];
        let mut found: Option<(usize, usize)> = None;
        if let Some(q) = at_b.parent {
            if q < big {
                let c = lk[q].children;
                let s = if c.0 == Some(b) {
                    c.1
                } else {
                    c.0
                };
                if let Some(s) = s {
                    if s < big {
                        found = Some((q, s));
                    }
                }
            }
        }
        assert(found == met_at(before, b));
        match found {
            Some((q, s)) => {
                let g = lk[q].parent;
                let at_s = lk[s];
                if let Some(gg) = g {
                    if gg < big {
                        let at_g = lk[gg];
                        let c = at_g.children;
                        let c2 = if c.0 == Some(q) {
                            (Some(s), c.1)
                        } else {
                            (c.0, Some(s))
                        };
                        lk[gg] = Link { parent: at_g.parent, children: c2 };
                    }
                }
                lk[s] = Link { parent: g, children: at_s.children };
                lk[q] = Link { parent: None, children: (None, None) };
                lk[b] = Link { parent: None, children: (None, None) };
                sib[m] = Some(s);
                hm[q] = Some(m);
                assert(lk@ =~= detach(before, b));
            },
            None => {},
        }
        n -= 1;
    }
    (sib, hm)
}

impl Tree {
    /// The vector that encodes the tree as its node links stand, whatever
    /// `tree_vec` holds. For a well-formed tree whose inner nodes have two
    /// children each and whose leaves have the first ids, decoding the
    /// vector gives the same tree again, the inner nodes renamed.
    pub fn encode(&self) -> (r: Vec<usize>)
        ensures
            r@ == encoded(self.nodes@),
            valid_vector(r@),
            r@.len() == entries_for(self.nodes@.len()),
            leafy(self.nodes@, r@.len()) ==> same_tree(self.nodes@, decoded(r@), r@.len()),
    {
        proof {
            let k = entries_for(self.nodes@.len());
            if leafy(self.nodes@, k) {
                lemma_encoding_keeps_tree(self.nodes@, k);
            }
        }
        let big = self.nodes.len();
        let mut w: Vec<usize> = Vec::new();
        if big == 0 {
            return w;
        }
        let k = (big - 1) / 2;
        let mut lk: Vec<Link> = Vec::new();
        let mut x: usize = 0;
        while x < big
            invariant
                x <= big,
                big == self.nodes@.len(),
                lk@ == links_of(self.nodes@).take(x as int),
            decreases big - x,
        {
            let nd = self.nodes[x];
            lk.push(Link { parent: nd.parent, children: nd.children });
            x += 1;
            assert(lk@ =~= links_of(self.nodes@).take(x as int));
        }
        assert(lk@ =~= links_of(self.nodes@));
        let ghost l0 = lk@;
        let (sib, hm) = take_leaves(&mut lk, k);
        let mut ord: Vec<usize> = Vec::new();
        let mut m: usize = 0;
        while m < k
            invariant
                m <= k,
                2 * k + 1 <= big,
                big == l0.len(),
                sib@.len() == k,
                hm@.len() == big,
                forall|j: int| 0 <= j < k ==> #[trigger] sib@[j] == sibling_met(l0, k as nat, j as nat),
                forall|y: int| 0 <= y < big ==> #[trigger] hm@[y] == home(l0, k as nat, y as usize, 0),
                w@ == encoded_prefix(l0, k as nat, m as nat),
                ord@ == order(w@, m as nat),
            decreases k - m,
        {
            proof {
                lemma_encoded_valid(l0, k as nat, m as nat);
                lemma_order(w@, m as nat);
            }
            let ghost wb = w@;
            let mut e: usize = 0;
            if let Some(s) = sib[m] {
                if s <= m {
                    e = s;
                } else if s < big {
                    if let Some(p) = hm[s] {
                        let j = find_place(&ord, p);
                        if j < ord.len() {
                            e = m + 1 + j;
                        }
                    }
                }
            }
            assert(e == entry(l0, k as nat, m as nat, ord@)) by {
                if sib@[m as int] is Some {
                    let s = sib@[m as int]->0;
                    lemma_collapsed_len(l0, k as nat, (m + 1) as nat);
                    assert(met(l0, k as nat, m as nat) is Some);
                    assert(s < big);
                }
            }
            w.push(e);
            if e <= m {
                ord.insert(0, m);
            } else {
                ord.insert(e - m, m);
            }
            proof {
                lemma_order_prefix(wb, w@, m as nat);
            }
            m += 1;
        }
        proof {
            lemma_encoded_valid(l0, k as nat, k as nat);
        }
        w
    }
}

} // verus!

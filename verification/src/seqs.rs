use vstd::prelude::*;

verus! {

/// Filtering one entry more either appends that entry or changes nothing.
pub proof fn lemma_filter_step(ids: Seq<usize>, f: spec_fn(usize) -> bool, j: int)
    requires
        0 <= j < ids.len(),
    ensures
        ids.take(j + 1).filter(f) == if f(ids[j]) {
            ids.take(j).filter(f).push(ids[j])
        } else {
            ids.take(j).filter(f)
        },
{
    let pre = ids.take(j);
    assert(ids.take(j + 1) =~= pre + seq![ids[j]]);
    Seq::filter_distributes_over_add(pre, seq![ids[j]], f);
    reveal_with_fuel(Seq::filter, 2);
    assert(seq![ids[j]].filter(f) =~= if f(ids[j]) {
        seq![ids[j]]
    } else {
        Seq::empty()
    });
    assert(pre.filter(f) + seq![ids[j]] =~= pre.filter(f).push(ids[j]));
    assert(pre.filter(f) + Seq::<usize>::empty() =~= pre.filter(f));
}

/// The numbers `0..n` in order.
pub open spec fn upto(n: nat) -> Seq<usize> {
    Seq::new(n, |i: int| i as usize)
}

/// The numbers `0..n` in order.
pub fn count_up(n: usize) -> (r: Vec<usize>)
    ensures
        r@ == upto(n as nat),
{
    let mut out: Vec<usize> = Vec::new();
    let mut i: usize = 0;
    while i < n
        invariant
            i <= n,
            out@ == upto(i as nat),
        decreases n - i,
    {
        out.push(i);
        i += 1;
        assert(out@ =~= upto(i as nat));
    }
    out
}

/// A copy of the vector.
pub fn copy_of<T: Copy>(v: &Vec<T>) -> (r: Vec<T>)
    ensures
        r@ == v@,
{
    let mut out: Vec<T> = Vec::new();
    let mut i: usize = 0;
    while i < v.len()
        invariant
            i <= v@.len(),
            out@ == v@.take(i as int),
        decreases v@.len() - i,
    {
        out.push(v[i]);
        i += 1;
        assert(out@ =~= v@.take(i as int));
    }
    assert(v@.take(v@.len() as int) =~= v@);
    out
}

} // verus!

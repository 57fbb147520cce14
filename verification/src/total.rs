//! The sum of the counts held in a finite map, and the facts about it that
//! the counter's contracts rest on.

use vstd::prelude::*;

verus! {

/// The sum of all values of `m`. Meaningful for a finite map.
pub open spec fn total<K>(m: Map<K, u64>) -> nat
    decreases m.dom().len(),
    when m.dom().finite()
{
    if m.dom().len() == 0 {
        0
    } else {
        let k = m.dom().choose();
        m[k] as nat + total(m.remove(k))
    }
}

/// Any one entry can be split off the sum.
pub proof fn lemma_total_remove<K>(m: Map<K, u64>, k: K)
    requires
        m.dom().finite(),
        m.contains_key(k),
    ensures
        total(m) == m[k] + total(m.remove(k)),
    decreases m.dom().len(),
{
    let c = m.dom().choose();
    if m.dom().len() == 0 {
        assert(m.dom() =~= Set::empty());
    } else if c != k {
        lemma_total_remove(m.remove(c), k);
        lemma_total_remove(m.remove(k), c);
        assert(m.remove(c).remove(k) =~= m.remove(k).remove(c));
    }
}

/// The empty map sums to zero.
pub proof fn lemma_total_empty<K>()
    ensures
        total(Map::<K, u64>::empty()) == 0,
{
}

/// Writing `v` at `k` changes the sum by the difference to what stood there.
pub proof fn lemma_total_insert<K>(m: Map<K, u64>, k: K, v: u64)
    requires
        m.dom().finite(),
    ensures
        total(m.insert(k, v)) == total(m) + v - (if m.contains_key(k) {
            m[k] as int
        } else {
            0
        }),
{
    lemma_total_remove(m.insert(k, v), k);
    assert(m.insert(k, v).remove(k) =~= m.remove(k));
    if m.contains_key(k) {
        lemma_total_remove(m, k);
    } else {
        assert(m.remove(k) =~= m);
    }
}

/// A map that is pointwise below another, on a smaller domain, sums to no more.
pub proof fn lemma_total_mono<K>(a: Map<K, u64>, b: Map<K, u64>)
    requires
        a.dom().finite(),
        b.dom().finite(),
        forall|k: K| a.contains_key(k) ==> b.contains_key(k) && a[k] <= b[k],
    ensures
        total(a) <= total(b),
    decreases a.dom().len(),
{
    if a.dom().len() > 0 {
        let c = a.dom().choose();
        lemma_total_remove(b, c);
        lemma_total_mono(a.remove(c), b.remove(c));
    }
}

} // verus!

//! Maps whose values are seen through a function, and sums over them.

use vstd::prelude::*;

verus! {

/// The sum of `size` over the values of a finite map.
pub open spec fn total<K, V>(m: Map<K, V>, size: spec_fn(V) -> nat) -> nat
    decreases m.dom().len(),
{
    if m.dom().finite() && m.dom().len() > 0 {
        let k = m.dom().choose();
        size(m[k]) + total(m.remove(k), size)
    } else {
        0
    }
}

/// The empty map sums to nothing.
pub proof fn lemma_total_empty<K, V>(size: spec_fn(V) -> nat)
    ensures
        total(Map::<K, V>::empty(), size) == 0,
{
    assert(Map::<K, V>::empty().dom().len() == 0);
}

/// Any entry can be the one that is split off the sum.
pub proof fn lemma_total_remove<K, V>(m: Map<K, V>, k: K, size: spec_fn(V) -> nat)
    requires
        m.dom().finite(),
        m.contains_key(k),
    ensures
        total(m, size) == size(m[k]) + total(m.remove(k), size),
    decreases m.dom().len(),
{
    assert(m.dom().len() > 0) by {
        vstd::set_lib::lemma_set_empty_equivalency_len(m.dom());
    }
    let c = m.dom().choose();
    assert(m.dom().contains(c)) by {
        vstd::set_lib::lemma_set_empty_equivalency_len(m.dom());
    }
    if c != k {
        assert(m.remove(c).contains_key(k));
        assert(m.remove(k).contains_key(c));
        lemma_total_remove(m.remove(c), k, size);
        lemma_total_remove(m.remove(k), c, size);
        assert(m.remove(c).remove(k) =~= m.remove(k).remove(c));
        assert(m.remove(c)[k] == m[k]);
        assert(m.remove(k)[c] == m[c]);
    }
}

/// A new entry adds its own size.
pub proof fn lemma_total_insert<K, V>(m: Map<K, V>, k: K, v: V, size: spec_fn(V) -> nat)
    requires
        m.dom().finite(),
        !m.contains_key(k),
    ensures
        total(m.insert(k, v), size) == total(m, size) + size(v),
{
    lemma_total_remove(m.insert(k, v), k, size);
    assert(m.insert(k, v).remove(k) =~= m);
}

/// Setting an entry and then looking at every value, or the other way around.
pub proof fn lemma_map_values_insert<K, V, W>(m: Map<K, V>, k: K, v: V, f: spec_fn(V) -> W)
    ensures
        m.insert(k, v).map_values(f) == m.map_values(f).insert(k, f(v)),
{
    assert(m.insert(k, v).map_values(f) =~= m.map_values(f).insert(k, f(v)));
}

/// Removing an entry and then looking at every value, or the other way around.
pub proof fn lemma_map_values_remove<K, V, W>(m: Map<K, V>, k: K, f: spec_fn(V) -> W)
    ensures
        m.remove(k).map_values(f) == m.map_values(f).remove(k),
{
    assert(m.remove(k).map_values(f) =~= m.map_values(f).remove(k));
}

/// What a longer list contains.
pub proof fn lemma_push_contains(s: Seq<u32>, k: u32)
    ensures
        forall|x: u32| #[trigger] s.push(k).contains(x) <==> s.contains(x) || x == k,
{
    assert forall|x: u32| #[trigger] s.push(k).contains(x) <==> s.contains(x) || x == k by {
        if s.contains(x) {
            let j = s.index_of(x);
            assert(s.push(k)[j] == x);
        }
        assert(s.push(k)[s.len() as int] == k);
        if s.push(k).contains(x) && x != k {
            let j = s.push(k).index_of(x);
            assert(s[j] == x);
        }
    }
}

} // verus!

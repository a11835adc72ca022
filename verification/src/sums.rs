//! Sums over the values of a finite map.
use vstd::prelude::*;

verus! {

/// The sum of what `cost` says of every value of a map.
pub open spec fn map_sum<K, V>(m: Map<K, V>, cost: spec_fn(V) -> int) -> int
    decreases m.dom().len(),
    when m.dom().finite()
{
    if m.dom().len() == 0 {
        0
    } else {
        let k = m.dom().choose();
        cost(m[k]) + map_sum(m.remove(k), cost)
    }
}

/// Any value may be taken out first.
pub proof fn lemma_map_sum_remove<K, V>(m: Map<K, V>, cost: spec_fn(V) -> int, k: K)
    requires
        m.dom().finite(),
        m.contains_key(k),
    ensures
        map_sum(m, cost) == cost(m[k]) + map_sum(m.remove(k), cost),
    decreases m.dom().len(),
{
    let c = m.dom().choose();
    assert(m.dom().contains(k));
    assert(m.dom().len() > 0) by {
        if m.dom().len() == 0 {
            vstd::set_lib::lemma_set_empty_equivalency_len(m.dom());
        }
    }
    assert(m.dom().contains(c));
    if c != k {
        let n = m.remove(c);
        assert(n.dom() =~= m.dom().remove(c));
        lemma_map_sum_remove(n, cost, k);
        let o = m.remove(k);
        assert(o.dom() =~= m.dom().remove(k));
        lemma_map_sum_remove(o, cost, c);
        assert(n.remove(k) =~= o.remove(c));
    }
}

/// The sum of an empty map, and after a value has been put in.
pub proof fn lemma_map_sum_insert<K, V>(m: Map<K, V>, cost: spec_fn(V) -> int, k: K, v: V)
    requires
        m.dom().finite(),
    ensures
        map_sum(m.insert(k, v), cost) == map_sum(m, cost) + cost(v) - (if m.contains_key(k) {
            cost(m[k])
        } else {
            0
        }),
{
    let n = m.insert(k, v);
    assert(n.dom() =~= m.dom().insert(k));
    lemma_map_sum_remove(n, cost, k);
    if m.contains_key(k) {
        lemma_map_sum_remove(m, cost, k);
        assert(n.remove(k) =~= m.remove(k));
    } else {
        assert(n.remove(k) =~= m);
    }
}

/// A sum of costs that are not negative is not negative, and no less than any of
/// them.
pub proof fn lemma_map_sum_bounds<K, V>(m: Map<K, V>, cost: spec_fn(V) -> int)
    requires
        m.dom().finite(),
        forall|v: V| #[trigger] cost(v) >= 0,
    ensures
        map_sum(m, cost) >= 0,
        forall|k: K| #[trigger] m.contains_key(k) ==> cost(m[k]) <= map_sum(m, cost),
    decreases m.dom().len(),
{
    if m.dom().len() > 0 {
        let c = m.dom().choose();
        let n = m.remove(c);
        assert(m.dom().contains(c)) by {
            if !(exists|k: K| m.dom().contains(k)) {
                assert(m.dom() =~= Set::<K>::empty());
            }
        }
        assert(n.dom() =~= m.dom().remove(c));
        lemma_map_sum_bounds(n, cost);
        assert forall|k: K| #[trigger] m.contains_key(k) implies cost(m[k]) <= map_sum(
            m,
            cost,
        ) by {
            lemma_map_sum_remove(m, cost, k);
            let o = m.remove(k);
            assert(o.dom() =~= m.dom().remove(k));
            lemma_map_sum_bounds(o, cost);
        }
    } else {
        assert(m.dom() =~= Set::<K>::empty()) by {
            vstd::set_lib::lemma_set_empty_equivalency_len(m.dom());
        }
    }
}

} // verus!

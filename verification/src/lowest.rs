//! What it means for a sample to hold the lowest keys of everything that
//! was fed, and why inserting and then evicting the greatest key keeps it so.

use crate::heap::WsworEntry;
use vstd::multiset::Multiset;
use vstd::prelude::*;

verus! {

/// The smaller of a count and a capacity.
pub open spec fn at_most(n: nat, k: nat) -> nat {
    if n <= k {
        n
    } else {
        k
    }
}

/// `kept` is a choice of the `k` lowest-keyed entries of `seen`, or all of
/// `seen` where it has fewer than `k`: it is part of `seen`, has that many
/// entries, and no entry left out has a key below one that was kept.
pub open spec fn retains_lowest<T>(
    kept: Multiset<WsworEntry<T>>,
    seen: Multiset<WsworEntry<T>>,
    k: nat,
) -> bool {
    &&& kept.subset_of(seen)
    &&& kept.len() == at_most(seen.len(), k)
    &&& forall|a: WsworEntry<T>, b: WsworEntry<T>|
        #![trigger kept.count(a), seen.sub(kept).count(b)]
        kept.count(a) > 0 && seen.sub(kept).count(b) > 0 ==> a.key <= b.key
}

/// `vals` are the values of a choice of the `k` lowest-keyed entries of
/// `entries`, in some order.
pub open spec fn lowest_values<T>(vals: Seq<T>, entries: Seq<WsworEntry<T>>, k: nat) -> bool {
    exists|kept: Seq<WsworEntry<T>>|
        #![trigger kept.to_multiset()]
        vals == kept.map_values(|e: WsworEntry<T>| e.val) && retains_lowest(
            kept.to_multiset(),
            entries.to_multiset(),
            k,
        )
}

/// Nothing fed yet: the empty sample holds the lowest of nothing.
pub proof fn lemma_empty_retains_lowest<T>(k: nat)
    ensures
        retains_lowest(Multiset::<WsworEntry<T>>::empty(), Multiset::<WsworEntry<T>>::empty(), k),
{
    broadcast use vstd::multiset::group_multiset_axioms;

}

/// A sample below capacity holds everything that was fed.
pub proof fn lemma_below_capacity_holds_all<T>(
    kept: Multiset<WsworEntry<T>>,
    seen: Multiset<WsworEntry<T>>,
    k: nat,
)
    requires
        retains_lowest(kept, seen, k),
        kept.len() < k,
    ensures
        kept == seen,
{
    broadcast use vstd::multiset::group_multiset_axioms;

    assert(seen.sub(kept).len() == 0);
    assert forall|e: WsworEntry<T>| kept.count(e) == seen.count(e) by {
        assert(seen.sub(kept).count(e) <= seen.sub(kept).len());
    }
    assert(kept =~= seen);
}

/// Below capacity, the new entry is simply added.
pub proof fn lemma_insert_below_capacity<T>(
    kept: Multiset<WsworEntry<T>>,
    seen: Multiset<WsworEntry<T>>,
    k: nat,
    e: WsworEntry<T>,
)
    requires
        retains_lowest(kept, seen, k),
        kept.len() < k,
    ensures
        retains_lowest(kept.insert(e), seen.insert(e), k),
{
    broadcast use vstd::multiset::group_multiset_axioms;

    lemma_below_capacity_holds_all(kept, seen, k);
    assert(seen.insert(e).sub(kept.insert(e)).len() == 0);
    assert forall|a: WsworEntry<T>, b: WsworEntry<T>|
        #![trigger kept.insert(e).count(a), seen.insert(e).sub(kept.insert(e)).count(b)]
        kept.insert(e).count(a) > 0 && seen.insert(e).sub(kept.insert(e)).count(b)
            > 0 implies a.key <= b.key by {
        assert(seen.insert(e).sub(kept.insert(e)).count(b) <= seen.insert(e).sub(
            kept.insert(e),
        ).len());
    }
}

/// At capacity, adding the new entry and then removing an entry of
/// greatest key leaves the lowest keys of everything fed.
pub proof fn lemma_insert_then_evict<T>(
    kept: Multiset<WsworEntry<T>>,
    seen: Multiset<WsworEntry<T>>,
    k: nat,
    e: WsworEntry<T>,
    top: WsworEntry<T>,
)
    requires
        retains_lowest(kept, seen, k),
        kept.len() == k,
        kept.insert(e).count(top) > 0,
        forall|a: WsworEntry<T>| #[trigger] kept.insert(e).count(a) > 0 ==> a.key <= top.key,
    ensures
        retains_lowest(kept.insert(e).remove(top), seen.insert(e), k),
{
    broadcast use vstd::multiset::group_multiset_axioms;

    let grown = kept.insert(e);
    let kept2 = grown.remove(top);
    let seen2 = seen.insert(e);
    assert(kept2.subset_of(seen2));
    assert(kept2.len() == k);
    assert(seen.len() >= k);
    assert forall|a: WsworEntry<T>, b: WsworEntry<T>|
        #![trigger kept2.count(a), seen2.sub(kept2).count(b)]
        kept2.count(a) > 0 && seen2.sub(kept2).count(b) > 0 implies a.key <= b.key by {
        assert(grown.count(a) > 0);
        if b == top {
        } else {
            assert(seen.sub(kept).count(b) > 0);
            if kept.count(a) > 0 {
            } else {
                assert(a == e);
                if kept.count(top) > 0 {
                } else {
                    assert(top == e);
                    assert(kept2.count(a) == kept.count(a));
                }
            }
        }
    }
}

/// The entries whose key is below `bound`.
pub open spec fn key_below<T>(bound: u64) -> spec_fn(WsworEntry<T>) -> bool {
    |e: WsworEntry<T>| e.key < bound
}

/// The entries whose key is `key`.
pub open spec fn key_is<T>(key: u64) -> spec_fn(WsworEntry<T>) -> bool {
    |e: WsworEntry<T>| e.key == key
}

/// The entries whose key is above `bound`.
pub open spec fn key_above<T>(bound: u64) -> spec_fn(WsworEntry<T>) -> bool {
    |e: WsworEntry<T>| e.key > bound
}

/// No two entries have the same key.
pub open spec fn keys_distinct<T>(seen: Multiset<WsworEntry<T>>) -> bool {
    &&& forall|a: WsworEntry<T>| #[trigger] seen.count(a) <= 1
    &&& forall|a: WsworEntry<T>, b: WsworEntry<T>|
        #![trigger seen.count(a), seen.count(b)]
        seen.count(a) > 0 && seen.count(b) > 0 && a.key == b.key ==> a == b
}

/// A part is no larger than the whole.
pub proof fn lemma_part_is_no_larger<V>(part: Multiset<V>, whole: Multiset<V>)
    requires
        part.subset_of(whole),
    ensures
        part.len() <= whole.len(),
{
    broadcast use vstd::multiset::group_multiset_axioms;

    assert(whole.sub(part).len() == whole.len() - part.len());
}

/// A multiset splits by key into what is below a key, at it, and above it.
pub proof fn lemma_split_by_key<T>(m: Multiset<WsworEntry<T>>, key: u64)
    ensures
        m.len() == m.filter(key_below(key)).len() + m.filter(key_is(key)).len() + m.filter(
            key_above(key),
        ).len(),
{
    broadcast use vstd::multiset::group_multiset_axioms;

    let below = m.filter(key_below(key));
    let at = m.filter(key_is(key));
    let above = m.filter(key_above(key));
    assert(m =~= below.add(at).add(above));
}

/// Where at least `k` of the entries fed have a key below `bound`, every
/// entry held has a key below `bound`.
pub proof fn lemma_held_below_bound<T>(
    kept: Multiset<WsworEntry<T>>,
    seen: Multiset<WsworEntry<T>>,
    k: nat,
    bound: u64,
    a: WsworEntry<T>,
)
    requires
        retains_lowest(kept, seen, k),
        seen.filter(key_below(bound)).len() >= k,
        kept.count(a) > 0,
    ensures
        a.key < bound,
{
    broadcast use vstd::multiset::group_multiset_axioms;

    if a.key >= bound {
        let low = seen.filter(key_below(bound));
        let held_low = kept.filter(key_below(bound));
        assert(held_low.subset_of(kept.remove(a)));
        lemma_part_is_no_larger(held_low, kept.remove(a));
        assert(held_low.len() < low.len());
        if low.subset_of(held_low) {
            lemma_part_is_no_larger(low, held_low);
        }
        let b = choose|b: WsworEntry<T>| low.count(b) > held_low.count(b);
        assert(seen.sub(kept).count(b) > 0);
    }
}

/// Of two choices of the lowest-keyed entries, the first holds no more
/// entries of any one key than the second.
proof fn lemma_lowest_key_count_le<T>(
    kept1: Multiset<WsworEntry<T>>,
    kept2: Multiset<WsworEntry<T>>,
    seen: Multiset<WsworEntry<T>>,
    k: nat,
    key: u64,
)
    requires
        retains_lowest(kept1, seen, k),
        retains_lowest(kept2, seen, k),
    ensures
        kept1.filter(key_is(key)).len() <= kept2.filter(key_is(key)).len(),
{
    broadcast use vstd::multiset::group_multiset_axioms;

    let at1 = kept1.filter(key_is(key));
    let at2 = kept2.filter(key_is(key));
    if at1.len() > at2.len() {
        if at1.subset_of(at2) {
            lemma_part_is_no_larger(at1, at2);
        }
        let b = choose|b: WsworEntry<T>| at1.count(b) > at2.count(b);
        assert(b.key == key);
        assert(kept1.count(b) > 0);
        assert(seen.sub(kept2).count(b) > 0);
        let below1 = kept1.filter(key_below(key));
        let below2 = kept2.filter(key_below(key));
        let above2 = kept2.filter(key_above(key));
        assert forall|e: WsworEntry<T>| below2.count(e) <= below1.count(e) by {
            if e.key < key && kept2.count(e) > kept1.count(e) {
                assert(seen.sub(kept1).count(e) > 0);
            }
        }
        assert(below2.subset_of(below1));
        lemma_part_is_no_larger(below2, below1);
        assert forall|e: WsworEntry<T>| above2.count(e) == 0 by {
            if e.key > key && kept2.count(e) > 0 {
                assert(seen.sub(kept2).count(b) > 0);
            }
        }
        assert(above2 =~= Multiset::<WsworEntry<T>>::empty());
        lemma_split_by_key(kept1, key);
        lemma_split_by_key(kept2, key);
    }
}

/// Any two choices of the lowest-keyed entries hold the same number of
/// entries of every key: they differ at most in which of several entries of
/// one key they hold.
pub proof fn lemma_lowest_keys_agree<T>(
    kept1: Multiset<WsworEntry<T>>,
    kept2: Multiset<WsworEntry<T>>,
    seen: Multiset<WsworEntry<T>>,
    k: nat,
    key: u64,
)
    requires
        retains_lowest(kept1, seen, k),
        retains_lowest(kept2, seen, k),
    ensures
        kept1.filter(key_is(key)).len() == kept2.filter(key_is(key)).len(),
{
    lemma_lowest_key_count_le(kept1, kept2, seen, k, key);
    lemma_lowest_key_count_le(kept2, kept1, seen, k, key);
}

/// Among entries of distinct keys, the entries of one key that a part
/// holds are as many as it holds of one entry of that key.
proof fn lemma_count_by_distinct_key<T>(
    kept: Multiset<WsworEntry<T>>,
    seen: Multiset<WsworEntry<T>>,
    e: WsworEntry<T>,
)
    requires
        kept.subset_of(seen),
        keys_distinct(seen),
        seen.count(e) > 0,
    ensures
        kept.filter(key_is(e.key)).len() == kept.count(e),
{
    broadcast use vstd::multiset::group_multiset_axioms;

    let at = kept.filter(key_is(e.key));
    assert forall|v: WsworEntry<T>| v != e implies at.count(v) == 0 by {
        if at.count(v) > 0 {
            assert(seen.count(v) > 0 && seen.count(e) > 0);
        }
    }
    assert(seen.count(e) <= 1);
    if kept.count(e) == 0 {
        assert(at =~= Multiset::<WsworEntry<T>>::empty());
    } else {
        assert(at =~= Multiset::singleton(e));
    }
}

/// Where no two entries fed have the same key, the choice of the
/// lowest-keyed entries is unique.
pub proof fn lemma_lowest_is_unique<T>(
    kept1: Multiset<WsworEntry<T>>,
    kept2: Multiset<WsworEntry<T>>,
    seen: Multiset<WsworEntry<T>>,
    k: nat,
)
    requires
        retains_lowest(kept1, seen, k),
        retains_lowest(kept2, seen, k),
        keys_distinct(seen),
    ensures
        kept1 == kept2,
{
    broadcast use vstd::multiset::group_multiset_axioms;

    assert forall|e: WsworEntry<T>| kept1.count(e) == kept2.count(e) by {
        if seen.count(e) > 0 {
            lemma_lowest_keys_agree(kept1, kept2, seen, k, e.key);
            lemma_count_by_distinct_key(kept1, seen, e);
            lemma_count_by_distinct_key(kept2, seen, e);
        }
    }
    assert(kept1 =~= kept2);
}

} // verus!

//! What holds of the samplers whatever they are fed.

use crate::batch::{batch_ranked, keyed, questions, rankings, stop_fault, stops_at};
use crate::heap::WsworEntry;
use crate::lowest::{
    at_most,
    key_below,
    key_is,
    keys_distinct,
    lemma_held_below_bound,
    lemma_lowest_is_unique,
    lemma_lowest_keys_agree,
    retains_lowest,
};
use crate::reservoir::StreamingWswor;
use crate::single::{preferred_of, SingleStreamingWs};
use crate::source::KeySource;
use crate::weight::SENTINEL_KEY;
use vstd::multiset::Multiset;
use vstd::prelude::*;

verus! {

/// After a stream of `n` accepted items a reservoir of capacity `k` holds
/// exactly the smaller of `n` and `k` entries.
pub proof fn lemma_holds_smaller_of_stream_and_capacity<T>(
    sampler: StreamingWswor<T>,
    stream: Seq<WsworEntry<T>>,
)
    requires
        sampler.wf(),
        sampler.seen() == stream.to_multiset(),
    ensures
        sampler@.len() == at_most(stream.len(), sampler.capacity()),
{
    broadcast use vstd::seq_lib::group_to_multiset_ensures;

}

/// A reservoir of capacity zero holds nothing, whatever it was fed.
pub proof fn lemma_zero_capacity_holds_nothing<T>(sampler: StreamingWswor<T>)
    requires
        sampler.wf(),
        sampler.capacity() == 0,
    ensures
        sampler@ == Seq::<WsworEntry<T>>::empty(),
{
    broadcast use vstd::seq_lib::group_to_multiset_ensures;

    assert(sampler@.len() == 0);
    assert(sampler@ =~= Seq::<WsworEntry<T>>::empty());
}

/// A batch that stops after `n` items went exactly as the batch of its
/// first `n` items alone goes: the same entries come of it and the same
/// questions are asked, so nothing from the rejected item on has any part
/// in it.
pub proof fn lemma_batch_is_that_of_its_prefix<T, D: FnMut(u64) -> u64>(
    before: KeySource<D>,
    after: KeySource<D>,
    items: Seq<(u64, T)>,
    keys: Seq<u64>,
)
    requires
        stops_at(items, keys.len() as int),
    ensures
        stops_at(items.take(keys.len() as int), keys.len() as int),
        stop_fault(items.take(keys.len() as int), keys.len() as int) is None,
        keyed(items.take(keys.len() as int), keys) == keyed(items, keys),
        questions(items.take(keys.len() as int), keys) == questions(items, keys),
        batch_ranked(before, after, items.take(keys.len() as int), keys) == batch_ranked(
            before,
            after,
            items,
            keys,
        ),
{
    let n = keys.len() as int;
    let prefix = items.take(n);
    assert forall|i: int| 0 <= i < n implies prefix[i] == items[i] by {}
    assert(keyed(prefix, keys) =~= keyed(items, keys));
    assert(rankings(prefix, keys) =~= rankings(items, keys));
}

/// The single-item sampler holds nothing only while it was offered nothing,
/// and otherwise holds the first of the entries of lowest key.
pub proof fn lemma_single_holds_first_lowest<T>(entries: Seq<WsworEntry<T>>)
    ensures
        entries.len() == 0 ==> preferred_of(None, entries) is None,
        entries.len() > 0 ==> exists|i: int|
            0 <= i < entries.len() && preferred_of(None, entries) == Some(#[trigger] entries[i])
                && (forall|j: int| 0 <= j < entries.len() ==> entries[i].key <= entries[j].key)
                && (forall|j: int| 0 <= j < i ==> entries[i].key < entries[j].key),
    decreases entries.len(),
{
    if entries.len() > 0 {
        let front = entries.drop_last();
        lemma_single_holds_first_lowest(front);
        if front.len() == 0 {
            assert(preferred_of(None, entries) == Some(entries[0]));
        } else {
            let i = choose|i: int|
                0 <= i < front.len() && preferred_of(None, front) == Some(#[trigger] front[i]) && (
                forall|j: int| 0 <= j < front.len() ==> front[i].key <= front[j].key) && (forall|
                    j: int,
                | 0 <= j < i ==> front[i].key < front[j].key);
            let last = entries.len() - 1;
            if entries.last().key < front[i].key {
                assert(preferred_of(None, entries) == Some(entries[last]));
                assert forall|j: int| 0 <= j < last implies entries[last].key
                    < entries[j].key by {
                    assert(front[i].key <= front[j].key);
                }
            } else {
                assert(preferred_of(None, entries) == Some(entries[i]));
                assert forall|j: int| 0 <= j < entries.len() implies entries[i].key
                    <= entries[j].key by {
                    if j < last {
                        assert(front[i].key <= front[j].key);
                    }
                }
                assert forall|j: int| 0 <= j < i implies entries[i].key < entries[j].key by {
                    assert(front[i].key < front[j].key);
                }
            }
        }
    }
}

/// What a sampler that holds `held` holds, as a multiset.
pub open spec fn held_entries<T>(held: Option<WsworEntry<T>>) -> Multiset<WsworEntry<T>> {
    match held {
        Some(e) => Multiset::singleton(e),
        None => Multiset::empty(),
    }
}

/// The single-item sampler is a reservoir of capacity one: what it holds
/// after a stream of entries is a choice of the one lowest-keyed entry of
/// that stream.
pub proof fn lemma_single_is_reservoir_of_one<T>(entries: Seq<WsworEntry<T>>)
    ensures
        retains_lowest(
            held_entries(preferred_of(None, entries)),
            entries.to_multiset(),
            1,
        ),
{
    broadcast use vstd::multiset::group_multiset_axioms;
    broadcast use vstd::seq_lib::group_to_multiset_ensures;

    lemma_single_holds_first_lowest(entries);
    let kept = held_entries(preferred_of(None, entries));
    let seen = entries.to_multiset();
    if entries.len() == 0 {
        assert(kept =~= Multiset::<WsworEntry<T>>::empty());
    } else {
        let i = choose|i: int|
            0 <= i < entries.len() && preferred_of(None, entries) == Some(#[trigger] entries[i])
                && (forall|j: int| 0 <= j < entries.len() ==> entries[i].key <= entries[j].key)
                && (forall|j: int| 0 <= j < i ==> entries[i].key < entries[j].key);
        assert(entries.contains(entries[i]));
        assert(kept.subset_of(seen));
        assert forall|a: WsworEntry<T>, b: WsworEntry<T>|
            #![trigger kept.count(a), seen.sub(kept).count(b)]
            kept.count(a) > 0 && seen.sub(kept).count(b) > 0 implies a.key <= b.key by {
            assert(a == entries[i]);
            assert(seen.count(b) > 0);
            assert(entries.contains(b));
            let j = choose|j: int| 0 <= j < entries.len() && entries[j] == b;
            assert(entries[i].key <= entries[j].key);
        }
    }
}

/// A zero-weight item is held only while fewer items of lower key than the
/// capacity were fed: once at least as many entries with a key below the
/// sentinel were fed as the reservoir has room for, no entry held has the
/// sentinel for its key.
pub proof fn lemma_sentinel_held_only_below_saturation<T>(sampler: StreamingWswor<T>, i: int)
    requires
        sampler.wf(),
        sampler.seen().filter(key_below(SENTINEL_KEY)).len() >= sampler.capacity(),
        0 <= i < sampler@.len(),
    ensures
        sampler@[i].key < SENTINEL_KEY,
{
    broadcast use vstd::seq_lib::group_to_multiset_ensures;

    assert(sampler@.contains(sampler@[i]));
    lemma_held_below_bound(
        sampler.kept(),
        sampler.seen(),
        sampler.capacity(),
        SENTINEL_KEY,
        sampler@[i],
    );
}

/// The order of feeding does not matter to the keys held: two reservoirs of
/// one capacity that were fed the same entries, in whatever order, hold the
/// same number of entries of every key, and the very same entries where no
/// two entries fed have the same key.
pub proof fn lemma_order_does_not_matter<T>(
    one: StreamingWswor<T>,
    other: StreamingWswor<T>,
    first: Seq<WsworEntry<T>>,
    second: Seq<WsworEntry<T>>,
    key: u64,
)
    requires
        one.wf(),
        other.wf(),
        one.capacity() == other.capacity(),
        one.seen() == first.to_multiset(),
        other.seen() == second.to_multiset(),
        first.to_multiset() == second.to_multiset(),
    ensures
        one.kept().filter(key_is(key)).len() == other.kept().filter(key_is(key)).len(),
        keys_distinct(first.to_multiset()) ==> one.kept() == other.kept(),
{
    lemma_lowest_keys_agree(one.kept(), other.kept(), one.seen(), one.capacity(), key);
    if keys_distinct(first.to_multiset()) {
        lemma_lowest_is_unique(one.kept(), other.kept(), one.seen(), one.capacity());
    }
}

/// For a sample of one, the single-item sampler and the reservoir of
/// capacity one agree: after the same stream of entries both hold nothing,
/// or both hold one entry, of the same key, and the very same entry where
/// no two entries of the stream have the same key.
pub proof fn lemma_single_agrees_with_capacity_one<T>(
    sampler: StreamingWswor<T>,
    single: SingleStreamingWs<T>,
    stream: Seq<WsworEntry<T>>,
)
    requires
        sampler.wf(),
        sampler.capacity() == 1,
        sampler.seen() == stream.to_multiset(),
        single@ == preferred_of(None, stream),
    ensures
        match single@ {
            None => sampler@.len() == 0,
            Some(held) => sampler@.len() == 1 && sampler@[0].key == held.key && (keys_distinct(
                stream.to_multiset(),
            ) ==> sampler@[0] == held),
        },
{
    broadcast use vstd::multiset::group_multiset_axioms;
    broadcast use vstd::seq_lib::group_to_multiset_ensures;

    lemma_single_holds_first_lowest(stream);
    lemma_single_is_reservoir_of_one(stream);
    let alone = held_entries(single@);
    if stream.len() > 0 {
        let held = single@->0;
        let top = sampler@[0];
        assert(sampler@.contains(top));
        lemma_lowest_keys_agree(sampler.kept(), alone, sampler.seen(), 1, top.key);
        assert(sampler.kept().filter(key_is(top.key)).count(top) > 0);
        assert(alone.filter(key_is(top.key)).len() > 0);
        if held.key != top.key {
            assert(alone.filter(key_is(top.key)) =~= Multiset::<WsworEntry<T>>::empty());
        }
        if keys_distinct(stream.to_multiset()) {
            lemma_lowest_is_unique(sampler.kept(), alone, sampler.seen(), 1);
        }
    }
}

} // verus!

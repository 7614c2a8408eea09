//! Feeding a sequence of `(weight, value)` pairs: how far it gets, what it
//! asks of the randomness source, and which entries come of it.

use crate::heap::WsworEntry;
use crate::source::KeySource;
use crate::weight::{draw_ready, weight_fault, HasInvalidWeights, SENTINEL_KEY};
use vstd::prelude::*;

verus! {

/// The entry that ranks `val` by `key`.
pub open spec fn entry_of<T>(key: u64, val: T) -> WsworEntry<T> {
    WsworEntry { key, val }
}

/// Feeding `items` in order consumes exactly the first `n` of them: those
/// are accepted, and the next one, if there is one, is rejected.
pub open spec fn stops_at<T>(items: Seq<(u64, T)>, n: int) -> bool {
    &&& 0 <= n <= items.len()
    &&& forall|i: int| 0 <= i < n ==> weight_fault((#[trigger] items[i]).0) is None
    &&& n < items.len() ==> weight_fault(items[n].0) is Some
}

/// The defect that stops the feeding of `items` after `n` of them, if one
/// does.
pub open spec fn stop_fault<T>(items: Seq<(u64, T)>, n: int) -> Option<HasInvalidWeights> {
    if 0 <= n < items.len() {
        weight_fault(items[n].0)
    } else {
        None
    }
}

/// What feeding `items` reports when it consumes `n` of them: the defect of
/// the item it stopped at, or success when it consumed them all.
pub open spec fn batch_outcome<T>(items: Seq<(u64, T)>, n: int) -> Result<(), HasInvalidWeights> {
    match stop_fault(items, n) {
        Some(fault) => Err(fault),
        None => Ok(()),
    }
}

/// The entries made of the first `keys.len()` items, each value ranked by
/// the key of the same position.
pub open spec fn keyed<T>(items: Seq<(u64, T)>, keys: Seq<u64>) -> Seq<WsworEntry<T>> {
    Seq::new(keys.len(), |i: int| entry_of(keys[i], items[i].1))
}

/// The first `keys.len()` weights, each with its key.
pub open spec fn rankings<T>(items: Seq<(u64, T)>, keys: Seq<u64>) -> Seq<(u64, u64)> {
    Seq::new(keys.len(), |i: int| (items[i].0, keys[i]))
}

/// What the source is asked while the first `keys.len()` items are ranked
/// by `keys`: one question for each non-zero weight, in the items' order.
pub open spec fn questions<T>(items: Seq<(u64, T)>, keys: Seq<u64>) -> Seq<(u64, u64)> {
    rankings(items, keys).filter(|q: (u64, u64)| q.0 != 0)
}

/// The source can be asked about every weight of `items` that calls for a
/// key.
pub open spec fn batch_ready<T, D: FnMut(u64) -> u64>(
    source: KeySource<D>,
    items: Seq<(u64, T)>,
) -> bool {
    forall|i: int| 0 <= i < items.len() ==> draw_ready(source, (#[trigger] items[i]).0)
}

/// The first `keys.len()` items were ranked by `keys`, which took the
/// source from `before` to `after`: zero weights got the sentinel, the
/// others the answers of the source, asked in the items' order and about
/// nothing else.
pub open spec fn batch_ranked<T, D: FnMut(u64) -> u64>(
    before: KeySource<D>,
    after: KeySource<D>,
    items: Seq<(u64, T)>,
    keys: Seq<u64>,
) -> bool {
    &&& keys.len() <= items.len()
    &&& forall|i: int|
        0 <= i < keys.len() && items[i].0 == 0 ==> #[trigger] keys[i] == SENTINEL_KEY
    &&& forall|i: int|
        0 <= i < keys.len() && items[i].0 != 0 ==> before.may_answer(
            items[i].0,
            #[trigger] keys[i],
        )
    &&& after.rule() == before.rule()
    &&& after.answered() == before.answered() + questions(items, keys)
}

/// Ranking one more item adds its entry at the end, and its question too
/// unless its weight is zero.
pub proof fn lemma_rank_one_more<T>(items: Seq<(u64, T)>, keys: Seq<u64>, key: u64)
    requires
        keys.len() < items.len(),
    ensures
        keyed(items, keys.push(key)) == keyed(items, keys).push(
            entry_of(key, items[keys.len() as int].1),
        ),
        questions(items, keys.push(key)) == if items[keys.len() as int].0 == 0 {
            questions(items, keys)
        } else {
            questions(items, keys).push((items[keys.len() as int].0, key))
        },
{
    reveal(Seq::filter);
    let n = keys.len() as int;
    assert(keyed(items, keys.push(key)) =~= keyed(items, keys).push(entry_of(key, items[n].1)));
    assert(rankings(items, keys.push(key)).drop_last() =~= rankings(items, keys));
}

/// Before any item is ranked there are no entries and no questions.
pub proof fn lemma_rank_none<T>(items: Seq<(u64, T)>)
    ensures
        keyed(items, Seq::<u64>::empty()) == Seq::<WsworEntry<T>>::empty(),
        questions(items, Seq::<u64>::empty()) == Seq::<(u64, u64)>::empty(),
{
    reveal(Seq::filter);
    assert(keyed(items, Seq::<u64>::empty()) =~= Seq::<WsworEntry<T>>::empty());
    assert(rankings(items, Seq::<u64>::empty()) =~= Seq::<(u64, u64)>::empty());
}

} // verus!

//! The bounded reservoir: a sample of at most `k` values, kept as the `k`
//! lowest-keyed entries of everything fed so far.

use crate::batch::{
    batch_outcome,
    batch_ranked,
    batch_ready,
    entry_of,
    keyed,
    lemma_rank_none,
    lemma_rank_one_more,
    questions,
    stop_fault,
    stops_at,
};
use crate::heap::{EntryHeap, WsworEntry};
use crate::lowest::{
    at_most,
    lemma_empty_retains_lowest,
    lemma_insert_below_capacity,
    lemma_insert_then_evict,
    lowest_values,
    retains_lowest,
};
use crate::source::KeySource;
use crate::weight::{draw_ready, priority_key, ranked, weight_fault, HasInvalidWeights};
use vstd::multiset::Multiset;
use vstd::prelude::*;
use vstd::seq_lib::to_multiset_build;

verus! {

/// One-pass weighted random sampler without replacement, for a sample of
/// any size.
pub struct StreamingWswor<T> {
    count: usize,
    heap: EntryHeap<T>,
    seen: Ghost<Multiset<WsworEntry<T>>>,
}

impl<T> View for StreamingWswor<T> {
    type V = Seq<WsworEntry<T>>;

    /// The entries held, in the order in which they are handed out.
    closed spec fn view(&self) -> Seq<WsworEntry<T>> {
        self.heap@
    }
}

impl<T> StreamingWswor<T> {
    /// The size of the sample asked for.
    pub closed spec fn capacity(&self) -> nat {
        self.count as nat
    }

    /// Every entry fed so far, held or evicted.
    pub closed spec fn seen(&self) -> Multiset<WsworEntry<T>> {
        self.seen@
    }

    /// The entries are stored so that one of greatest key is found first.
    pub closed spec fn heap_ordered(&self) -> bool {
        self.heap.wf()
    }

    /// The entries held, without their order.
    pub open spec fn kept(&self) -> Multiset<WsworEntry<T>> {
        self@.to_multiset()
    }

    /// The reservoir holds the lowest-keyed entries of all that it was fed,
    /// as many as its capacity allows.
    pub open spec fn wf(&self) -> bool {
        &&& self.heap_ordered()
        &&& retains_lowest(self.kept(), self.seen(), self.capacity())
    }

    /// `self` is what `before` may become by being fed `entries`: its
    /// capacity is the same, it has seen `entries` as well, and it holds
    /// nothing but what `before` held and `entries`.
    pub open spec fn fed(&self, before: &Self, entries: Multiset<WsworEntry<T>>) -> bool {
        &&& self.wf()
        &&& self.capacity() == before.capacity()
        &&& self.seen() == before.seen().add(entries)
        &&& self.kept().subset_of(before.kept().add(entries))
    }

    /// An empty reservoir for a sample of `count` values.
    pub fn new(count: usize) -> (sampler: StreamingWswor<T>)
        ensures
            sampler.wf(),
            sampler.capacity() == count,
            sampler@ == Seq::<WsworEntry<T>>::empty(),
            sampler.seen() == Multiset::<WsworEntry<T>>::empty(),
    {
        proof {
            lemma_empty_retains_lowest::<T>(count as nat);
        }
        let sampler = StreamingWswor { count, heap: EntryHeap::new(), seen: Ghost(Multiset::empty()) };
        assert(sampler@.to_multiset() =~= Multiset::<WsworEntry<T>>::empty()) by {
            broadcast use vstd::seq_lib::group_to_multiset_ensures;
            broadcast use vstd::multiset::group_multiset_axioms;

        }
        sampler
    }

    /// Adds the value under the given key, and then, if that made one entry
    /// too many, evicts an entry of greatest key.
    pub fn insert(&mut self, key: u64, val: T)
        requires
            old(self).wf(),
        ensures
            final(self).fed(old(self), Multiset::singleton(entry_of(key, val))),
            final(self)@.len() == at_most(old(self)@.len() + 1, old(self).capacity()),
    {
        broadcast use vstd::multiset::group_multiset_axioms;
        broadcast use vstd::seq_lib::group_to_multiset_ensures;

        let ghost e = entry_of(key, val);
        let ghost kept = self.kept();
        self.heap.push(WsworEntry { key, val });
        proof {
            self.seen@ = self.seen@.insert(e);
        }
        if self.heap.len() > self.count {
            let ghost grown = self.heap.entries();
            let top = self.heap.pop();
            proof {
                assert forall|a: WsworEntry<T>| #[trigger]
                    kept.insert(e).count(a) > 0 implies a.key <= (top->0).key by {
                    assert(grown.contains(a));
                }
                lemma_insert_then_evict(kept, old(self).seen(), self.capacity(), e, top->0);
            }
        } else {
            proof {
                lemma_insert_below_capacity(kept, old(self).seen(), self.capacity(), e);
            }
        }
        assert(old(self).seen().insert(e) =~= old(self).seen().add(Multiset::singleton(e)));
    }

    /// Feeds one value with its weight. A rejected weight changes nothing,
    /// and the source is not asked. An accepted weight is ranked, the source
    /// being asked once unless the weight is zero, and the value inserted
    /// under that key.
    pub fn feed<D: FnMut(u64) -> u64>(
        &mut self,
        val: T,
        weight: u64,
        source: &mut KeySource<D>,
    ) -> (r: Result<(), HasInvalidWeights>)
        requires
            old(self).wf(),
            draw_ready(*old(source), weight),
        ensures
            match weight_fault(weight) {
                Some(fault) => r == Err::<(), HasInvalidWeights>(fault) && *final(self) == *old(
                    self,
                ) && *final(source) == *old(source),
                None => r is Ok && exists|key: u64|
                    ranked(*old(source), *final(source), weight, key) && final(self).fed(
                        old(self),
                        Multiset::singleton(#[trigger] entry_of(key, val)),
                    ),
            },
            r is Ok ==> final(self)@.len() == at_most(old(self)@.len() + 1, old(self).capacity()),
    {
        match priority_key(weight, source) {
            Err(fault) => Err(fault),
            Ok(key) => {
                self.insert(key, val);
                Ok(())
            },
        }
    }

    /// Feeds the pairs of weight and value in order and stops at the first
    /// rejected weight, whose defect it reports. The items before it have
    /// been fed; the source is not asked about it, nor about any item
    /// after it.
    pub fn feed_iter<D: FnMut(u64) -> u64>(
        &mut self,
        items: Vec<(u64, T)>,
        source: &mut KeySource<D>,
    ) -> (r: Result<(), HasInvalidWeights>)
        requires
            old(self).wf(),
            batch_ready(*old(source), items@),
        ensures
            exists|keys: Seq<u64>|
                stops_at(items@, keys.len() as int) && r == batch_outcome(
                    items@,
                    keys.len() as int,
                ) && batch_ranked(*old(source), *final(source), items@, keys) && final(self).fed(
                    old(self),
                    (#[trigger] keyed(items@, keys)).to_multiset(),
                ),
            r is Ok ==> final(self)@.len() == at_most(
                old(self)@.len() + items@.len(),
                old(self).capacity(),
            ),
    {
        broadcast use vstd::multiset::group_multiset_axioms;
        broadcast use vstd::seq_lib::group_to_multiset_ensures;

        let ghost start = *self;
        let ghost asked = *source;
        let ghost all = items@;
        let ghost mut keys: Seq<u64> = Seq::empty();
        proof {
            lemma_rank_none(all);
            assert(start.seen().add(keyed(all, keys).to_multiset()) =~= start.seen());
            assert(asked.answered() + questions(all, keys) =~= asked.answered());
        }
        for item in it: items
            invariant
                start == *old(self),
                asked == *old(source),
                it.seq() == all,
                keys.len() == it.index(),
                batch_ready(asked, all),
                forall|i: int| 0 <= i < keys.len() ==> weight_fault((#[trigger] all[i]).0) is None,
                batch_ranked(asked, *source, all, keys),
                self.fed(&start, keyed(all, keys).to_multiset()),
                self@.len() == at_most(start@.len() + keys.len(), start.capacity()),
        {
            let ghost prev = *self;
            let ghost prev_source = *source;
            let ghost n = keys.len() as int;
            let (weight, val) = item;
            assert(draw_ready(asked, all[n].0));
            match self.feed(val, weight, source) {
                Err(fault) => {
                    proof {
                        assert(stops_at(all, n));
                        assert(self.fed(&start, keyed(all, keys).to_multiset()));
                    }
                    return Err(fault);
                },
                Ok(()) => {
                    proof {
                        let key = choose|key: u64|
                            ranked(prev_source, *source, weight, key) && self.fed(
                                &prev,
                                Multiset::singleton(#[trigger] entry_of(key, val)),
                            );
                        lemma_rank_one_more(all, keys, key);
                        let more = keys.push(key);
                        let e = entry_of(key, val);
                        to_multiset_build(keyed(all, keys), e);
                        assert(start.seen().add(keyed(all, more).to_multiset()) =~= prev.seen().add(
                            Multiset::singleton(e),
                        ));
                        if weight != 0 {
                            assert(asked.answered() + questions(all, more) =~= (asked.answered()
                                + questions(all, keys)).push((weight, key)));
                        }
                        keys = more;
                    }
                },
            }
        }
        proof {
            assert(stops_at(all, keys.len() as int));
            assert(self.fed(&start, keyed(all, keys).to_multiset()));
        }
        Ok(())
    }

    /// The values held, in an order of the reservoir's choosing.
    pub fn iter(&self) -> (vals: Vec<&T>)
        ensures
            vals@.len() == self@.len(),
            forall|i: int| 0 <= i < self@.len() ==> *vals@[i] == self@[i].val,
    {
        self.heap.values()
    }

    /// Gives up the values held, in the order in which `iter` shows them.
    pub fn take(self) -> (vals: Vec<T>)
        ensures
            vals@ == self@.map_values(|e: WsworEntry<T>| e.val),
    {
        self.heap.into_values()
    }
}

/// Quick and easy weighted random sampling without replacement: feeds the
/// pairs of weight and value to a fresh reservoir of capacity `count` and
/// hands out what it holds at the end. Nothing is handed out where a weight
/// is rejected.
pub fn wswor<T, D: FnMut(u64) -> u64>(
    items: Vec<(u64, T)>,
    source: &mut KeySource<D>,
    count: usize,
) -> (r: Result<Vec<T>, HasInvalidWeights>)
    requires
        batch_ready(*old(source), items@),
    ensures
        exists|keys: Seq<u64>|
            stops_at(items@, keys.len() as int) && batch_ranked(
                *old(source),
                *final(source),
                items@,
                keys,
            ) && match stop_fault(items@, keys.len() as int) {
                Some(fault) => r == Err::<Vec<T>, HasInvalidWeights>(fault),
                None => r is Ok && lowest_values(
                    (r->Ok_0)@,
                    #[trigger] keyed(items@, keys),
                    count as nat,
                ),
            },
        r is Ok ==> (r->Ok_0)@.len() == at_most(items@.len(), count as nat),
{
    broadcast use vstd::multiset::group_multiset_axioms;

    let mut sampler: StreamingWswor<T> = StreamingWswor::new(count);
    let ghost fresh = sampler;
    match sampler.feed_iter(items, source) {
        Err(fault) => {
            proof {
                let keys = choose|keys: Seq<u64>|
                    stops_at(items@, keys.len() as int) && Err::<(), HasInvalidWeights>(fault)
                        == batch_outcome(items@, keys.len() as int) && batch_ranked(
                        *old(source),
                        *source,
                        items@,
                        keys,
                    ) && sampler.fed(&fresh, (#[trigger] keyed(items@, keys)).to_multiset());
                assert(stop_fault(items@, keys.len() as int) == Some(fault));
            }
            Err(fault)
        },
        Ok(()) => {
            proof {
                let keys = choose|keys: Seq<u64>|
                    stops_at(items@, keys.len() as int) && Ok::<(), HasInvalidWeights>(())
                        == batch_outcome(items@, keys.len() as int) && batch_ranked(
                        *old(source),
                        *source,
                        items@,
                        keys,
                    ) && sampler.fed(&fresh, (#[trigger] keyed(items@, keys)).to_multiset());
                assert(sampler.seen() =~= keyed(items@, keys).to_multiset());
                assert(retains_lowest(
                    sampler@.to_multiset(),
                    keyed(items@, keys).to_multiset(),
                    count as nat,
                ));
                assert(stop_fault(items@, keys.len() as int) is None);
            }
            Ok(sampler.take())
        },
    }
}

} // verus!

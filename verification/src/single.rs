//! The sample of one: the reservoir of capacity one without a heap.

use crate::batch::{
    batch_outcome,
    batch_ranked,
    batch_ready,
    entry_of,
    keyed,
    lemma_rank_none,
    lemma_rank_one_more,
    questions,
    stops_at,
};
use crate::heap::WsworEntry;
use crate::source::KeySource;
use crate::weight::{draw_ready, priority_key, ranked, weight_fault, HasInvalidWeights};
use vstd::prelude::*;

verus! {

/// The entry to hold once `e` has been offered to a holder of `held`: the
/// new entry where nothing is held or its key is strictly lower, and the
/// held entry otherwise.
pub open spec fn preferred<T>(held: Option<WsworEntry<T>>, e: WsworEntry<T>) -> Option<
    WsworEntry<T>,
> {
    match held {
        Some(h) => if e.key < h.key {
            Some(e)
        } else {
            Some(h)
        },
        None => Some(e),
    }
}

/// The entry to hold once `entries` have been offered in order.
pub open spec fn preferred_of<T>(
    held: Option<WsworEntry<T>>,
    entries: Seq<WsworEntry<T>>,
) -> Option<WsworEntry<T>>
    decreases entries.len(),
{
    if entries.len() == 0 {
        held
    } else {
        preferred(preferred_of(held, entries.drop_last()), entries.last())
    }
}

/// One-pass weighted random sampler for a sample of exactly one value.
pub struct SingleStreamingWs<T> {
    value: Option<T>,
    exp_value_weight: u64,
}

impl<T> View for SingleStreamingWs<T> {
    type V = Option<WsworEntry<T>>;

    /// The entry held, if any.
    closed spec fn view(&self) -> Option<WsworEntry<T>> {
        match self.value {
            Some(val) => Some(entry_of(self.exp_value_weight, val)),
            None => None,
        }
    }
}

impl<T> SingleStreamingWs<T> {
    /// A sampler that holds nothing.
    pub fn new() -> (sampler: SingleStreamingWs<T>)
        ensures
            sampler@ is None,
    {
        SingleStreamingWs { value: None, exp_value_weight: 0 }
    }

    /// Offers the value under the given key: it is taken where nothing is
    /// held yet or the key is strictly below the one held.
    pub fn offer(&mut self, key: u64, val: T)
        ensures
            final(self)@ == preferred(old(self)@, entry_of(key, val)),
    {
        if self.value.is_none() || key < self.exp_value_weight {
            self.value = Some(val);
            self.exp_value_weight = key;
        }
    }

    /// Feeds one value with its weight. A rejected weight changes nothing,
    /// and the source is not asked. An accepted weight is ranked, the source
    /// being asked once unless the weight is zero, and the value offered
    /// under that key.
    pub fn feed<D: FnMut(u64) -> u64>(
        &mut self,
        val: T,
        weight: u64,
        source: &mut KeySource<D>,
    ) -> (r: Result<(), HasInvalidWeights>)
        requires
            draw_ready(*old(source), weight),
        ensures
            match weight_fault(weight) {
                Some(fault) => r == Err::<(), HasInvalidWeights>(fault) && *final(self) == *old(
                    self,
                ) && *final(source) == *old(source),
                None => r is Ok && exists|key: u64|
                    ranked(*old(source), *final(source), weight, key) && final(self)@ == preferred(
                        old(self)@,
                        #[trigger] entry_of(key, val),
                    ),
            },
    {
        match priority_key(weight, source) {
            Err(fault) => Err(fault),
            Ok(key) => {
                self.offer(key, val);
                Ok(())
            },
        }
    }

    /// Feeds the pairs of weight and value in order and stops at the first
    /// rejected weight, whose defect it reports. The items before it have
    /// been fed; the source is not asked about it, nor about any item
    /// after it.
    pub fn feed_iter<D: FnMut(u64) -> u64>(
        &mut self,
        items: Vec<(u64, T)>,
        source: &mut KeySource<D>,
    ) -> (r: Result<(), HasInvalidWeights>)
        requires
            batch_ready(*old(source), items@),
        ensures
            exists|keys: Seq<u64>|
                stops_at(items@, keys.len() as int) && r == batch_outcome(
                    items@,
                    keys.len() as int,
                ) && batch_ranked(*old(source), *final(source), items@, keys) && final(self)@
                    == preferred_of(old(self)@, #[trigger] keyed(items@, keys)),
    {
        let ghost start = *self;
        let ghost asked = *source;
        let ghost all = items@;
        let ghost mut keys: Seq<u64> = Seq::empty();
        proof {
            lemma_rank_none(all);
            assert(asked.answered() + questions(all, keys) =~= asked.answered());
        }
        for item in it: items
            invariant
                start == *old(self),
                asked == *old(source),
                it.seq() == all,
                keys.len() == it.index(),
                batch_ready(asked, all),
                forall|i: int| 0 <= i < keys.len() ==> weight_fault((#[trigger] all[i]).0) is None,
                batch_ranked(asked, *source, all, keys),
                self@ == preferred_of(start@, keyed(all, keys)),
        {
            let ghost prev = *self;
            let ghost prev_source = *source;
            let ghost n = keys.len() as int;
            let (weight, val) = item;
            assert(draw_ready(asked, all[n].0));
            match self.feed(val, weight, source) {
                Err(fault) => {
                    proof {
                        assert(stops_at(all, n));
                        assert(self@ == preferred_of(start@, keyed(all, keys)));
                    }
                    return Err(fault);
                },
                Ok(()) => {
                    proof {
                        let key = choose|key: u64|
                            ranked(prev_source, *source, weight, key) && self@ == preferred(
                                prev@,
                                #[trigger] entry_of(key, val),
                            );
                        lemma_rank_one_more(all, keys, key);
                        let more = keys.push(key);
                        assert(keyed(all, more).drop_last() =~= keyed(all, keys));
                        if weight != 0 {
                            assert(asked.answered() + questions(all, more) =~= (asked.answered()
                                + questions(all, keys)).push((weight, key)));
                        }
                        keys = more;
                    }
                },
            }
        }
        proof {
            assert(stops_at(all, keys.len() as int));
            assert(self@ == preferred_of(start@, keyed(all, keys)));
        }
        Ok(())
    }

    /// The value held, if any.
    pub fn get(&self) -> (val: Option<&T>)
        ensures
            match val {
                Some(v) => self@ is Some && *v == (self@->0).val,
                None => self@ is None,
            },
    {
        self.value.as_ref()
    }

    /// Gives up the value held, if any.
    pub fn take(self) -> (val: Option<T>)
        ensures
            val == match self@ {
                Some(e) => Some(e.val),
                None => None,
            },
    {
        self.value
    }
}

} // verus!

//! The caller's randomness source, with a record of what it was asked.

use vstd::prelude::*;

verus! {

/// A randomness source: a rule that answers a weight with a priority key,
/// the bit pattern of a fresh Exponential(1) variate divided by the weight.
/// The source keeps, as ghost state, every question it was asked together
/// with its answer, so that a contract can say when it was consulted.
pub struct KeySource<D> {
    rule: D,
    answered: Ghost<Seq<(u64, u64)>>,
}

impl<D: FnMut(u64) -> u64> KeySource<D> {
    /// The rule that answers.
    pub closed spec fn rule(&self) -> D {
        self.rule
    }

    /// The weights asked about so far, each with the key answered, oldest
    /// first.
    pub closed spec fn answered(&self) -> Seq<(u64, u64)> {
        self.answered@
    }

    /// The source may be asked about `weight`.
    pub open spec fn ready_for(&self, weight: u64) -> bool {
        call_requires(self.rule(), (weight,))
    }

    /// `key` is among the answers that the source may give for `weight`.
    pub open spec fn may_answer(&self, weight: u64, key: u64) -> bool {
        call_ensures(self.rule(), (weight,), key)
    }

    /// `self` is `before` after one more question: it was asked about
    /// `weight`, and answered `key`.
    pub open spec fn asked_once(&self, before: &Self, weight: u64, key: u64) -> bool {
        &&& self.rule() == before.rule()
        &&& self.answered() == before.answered().push((weight, key))
        &&& before.may_answer(weight, key)
    }

    /// A source that has not been asked anything yet.
    pub fn new(rule: D) -> (source: Self)
        ensures
            source.rule() == rule,
            source.answered() == Seq::<(u64, u64)>::empty(),
    {
        KeySource { rule, answered: Ghost(Seq::empty()) }
    }

    /// Asks the source for the key of `weight`.
    pub fn next_key(&mut self, weight: u64) -> (key: u64)
        requires
            old(self).ready_for(weight),
        ensures
            final(self).asked_once(old(self), weight, key),
    {
        broadcast use vstd::function::group_function_axioms;

        let key = (self.rule)(weight);
        proof {
            self.answered@ = self.answered@.push((weight, key));
        }
        key
    }
}

} // verus!

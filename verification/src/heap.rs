//! An array-backed binary max-heap of keyed entries. The entry with the
//! greatest key sits at the root, where eviction finds it in constant time;
//! insertion and removal of the root cost a logarithmic number of exchanges.

use vstd::multiset::Multiset;
use vstd::prelude::*;
use vstd::seq_lib::to_multiset_update;

verus! {

/// A value together with the priority key it is ranked by. Entries are
/// ordered by key alone.
pub struct WsworEntry<T> {
    pub key: u64,
    pub val: T,
}

/// Index of the slot above slot `i` in the implicit tree.
pub open spec fn parent(i: int) -> int {
    (i - 1) / 2
}

/// The entry in slot `i` does not outrank the entry above it.
pub open spec fn dominated<T>(s: Seq<WsworEntry<T>>, i: int) -> bool {
    s[parent(i)].key >= s[i].key
}

/// The entry in slot `a` has a key no lower than the entry in slot `b`.
pub open spec fn outranks<T>(s: Seq<WsworEntry<T>>, a: int, b: int) -> bool {
    s[a].key >= s[b].key
}

/// Every slot but the root is dominated by the slot above it.
pub open spec fn heap_ordered<T>(s: Seq<WsworEntry<T>>) -> bool {
    forall|i: int| 0 < i < s.len() ==> #[trigger] dominated(s, i)
}

/// `s` with the contents of slots `i` and `j` exchanged.
pub open spec fn exchanged<T>(s: Seq<WsworEntry<T>>, i: int, j: int) -> Seq<WsworEntry<T>> {
    s.update(i, s[j]).update(j, s[i])
}

/// In a heap-ordered sequence no entry outranks the root.
pub proof fn lemma_root_is_greatest<T>(s: Seq<WsworEntry<T>>, i: int)
    requires
        heap_ordered(s),
        0 <= i < s.len(),
    ensures
        s[0].key >= s[i].key,
    decreases i,
{
    if i > 0 {
        assert(dominated(s, i));
        lemma_root_is_greatest(s, parent(i));
    }
}

/// Exchanging two slots keeps the entries the same as a multiset.
pub proof fn lemma_exchange_keeps_entries<T>(s: Seq<WsworEntry<T>>, i: int, j: int)
    requires
        0 <= i < s.len(),
        0 <= j < s.len(),
    ensures
        exchanged(s, i, j).to_multiset() == s.to_multiset(),
{
    broadcast use vstd::multiset::group_multiset_axioms;
    broadcast use vstd::seq_lib::group_to_multiset_ensures;

    let mid = s.update(i, s[j]);
    to_multiset_update(s, i, s[j]);
    to_multiset_update(mid, j, s[i]);
    assert(s.to_multiset().count(s[i]) > 0) by {
        assert(s.contains(s[i]));
    }
    assert(s.to_multiset().count(s[j]) > 0) by {
        assert(s.contains(s[j]));
    }
    assert(exchanged(s, i, j).to_multiset() =~= s.to_multiset());
}

/// Exchanges the contents of two slots, the lower index first.
fn exchange<T>(slots: &mut Vec<WsworEntry<T>>, i: usize, j: usize)
    requires
        i < j < old(slots).len(),
    ensures
        final(slots)@ == exchanged(old(slots)@, i as int, j as int),
        final(slots)@.to_multiset() == old(slots)@.to_multiset(),
{
    let ghost before = slots@;
    let (lower, upper) = slots.as_mut_slice().split_at_mut(j);
    core::mem::swap(&mut lower[i], &mut upper[0]);
    proof {
        assert(slots@ =~= exchanged(before, i as int, j as int));
        lemma_exchange_keeps_entries(before, i as int, j as int);
    }
}

/// Moves the entry in slot `start` towards the root until the slot above
/// it holds a key that is no lower.
fn sift_up<T>(slots: &mut Vec<WsworEntry<T>>, start: usize)
    requires
        start < old(slots).len(),
        forall|j: int| 0 < j < old(slots).len() && j != start ==> #[trigger] dominated(old(slots)@, j),
        forall|j: int|
            0 < j < old(slots).len() && parent(j) == start && start > 0 ==> #[trigger] outranks(
                old(slots)@,
                parent(start as int),
                j,
            ),
    ensures
        heap_ordered(final(slots)@),
        final(slots)@.to_multiset() == old(slots)@.to_multiset(),
        final(slots)@.len() == old(slots)@.len(),
{
    let mut pos: usize = start;
    while pos > 0
        invariant
            pos < slots.len(),
            slots@.len() == old(slots)@.len(),
            slots@.to_multiset() == old(slots)@.to_multiset(),
            forall|j: int| 0 < j < slots.len() && j != pos ==> #[trigger] dominated(slots@, j),
            forall|j: int|
                0 < j < slots.len() && parent(j) == pos && pos > 0 ==> #[trigger] outranks(
                    slots@,
                    parent(pos as int),
                    j,
                ),
        ensures
            heap_ordered(slots@),
        decreases pos,
    {
        let above: usize = (pos - 1) / 2;
        if slots[above].key >= slots[pos].key {
            assert(dominated(slots@, pos as int));
            break ;
        }
        let ghost before = slots@;
        exchange(slots, above, pos);
        proof {
            let after = slots@;
            assert forall|j: int| 0 < j < after.len() && j != above implies #[trigger] dominated(
                after,
                j,
            ) by {
                if j == pos {
                } else if parent(j) == pos {
                    assert(outranks(before, parent(pos as int), j));
                } else {
                    assert(dominated(before, j));
                }
            }
            assert forall|j: int|
                0 < j < after.len() && parent(j) == above && above > 0 implies #[trigger] outranks(
                after,
                parent(above as int),
                j,
            ) by {
                assert(dominated(before, above as int));
                if j != pos {
                    assert(dominated(before, j));
                }
            }
        }
        pos = above;
    }
}

/// Moves the entry at the root away from it until neither slot below it
/// holds a greater key.
fn sift_down<T>(slots: &mut Vec<WsworEntry<T>>)
    requires
        forall|j: int| 0 < j < old(slots).len() && parent(j) != 0 ==> #[trigger] dominated(old(slots)@, j),
    ensures
        heap_ordered(final(slots)@),
        final(slots)@.to_multiset() == old(slots)@.to_multiset(),
        final(slots)@.len() == old(slots)@.len(),
{
    let len: usize = slots.len();
    let mut pos: usize = 0;
    while pos < len / 2
        invariant
            len == slots.len(),
            slots@.len() == old(slots)@.len(),
            slots@.to_multiset() == old(slots)@.to_multiset(),
            forall|j: int| 0 < j < slots.len() && parent(j) != pos ==> #[trigger] dominated(slots@, j),
            forall|j: int|
                0 < j < slots.len() && parent(j) == pos && pos > 0 ==> #[trigger] outranks(
                    slots@,
                    parent(pos as int),
                    j,
                ),
        ensures
            heap_ordered(slots@),
        decreases len - pos,
    {
        let left: usize = 2 * pos + 1;
        let right: usize = left + 1;
        let child: usize = if right < len && slots[right].key > slots[left].key {
            right
        } else {
            left
        };
        if slots[pos].key >= slots[child].key {
            assert forall|j: int| 0 < j < slots.len() implies #[trigger] dominated(slots@, j) by {
                if parent(j) == pos {
                    assert(j == left || j == right);
                }
            }
            break ;
        }
        let ghost before = slots@;
        exchange(slots, pos, child);
        proof {
            let after = slots@;
            assert forall|j: int| 0 < j < after.len() && parent(j) != child implies #[trigger] dominated(
                after,
                j,
            ) by {
                if j == child {
                } else if parent(j) == pos {
                    assert(j == left || j == right);
                } else if j == pos {
                    assert(outranks(before, parent(pos as int), child as int));
                } else {
                    assert(dominated(before, j));
                }
            }
            assert forall|j: int|
                0 < j < after.len() && parent(j) == child && child > 0 implies #[trigger] outranks(
                after,
                parent(child as int),
                j,
            ) by {
                assert(dominated(before, j));
            }
        }
        pos = child;
    }
    proof {
        if pos >= len / 2 {
            assert forall|j: int| 0 < j < slots.len() implies #[trigger] dominated(slots@, j) by {}
        }
    }
}

/// A max-heap of entries, in the order of its backing array.
pub struct EntryHeap<T> {
    slots: Vec<WsworEntry<T>>,
}

impl<T> View for EntryHeap<T> {
    type V = Seq<WsworEntry<T>>;

    closed spec fn view(&self) -> Seq<WsworEntry<T>> {
        self.slots@
    }
}

impl<T> EntryHeap<T> {
    /// The backing array is heap-ordered.
    pub open spec fn wf(&self) -> bool {
        heap_ordered(self@)
    }

    /// The entries, without their order.
    pub open spec fn entries(&self) -> Multiset<WsworEntry<T>> {
        self@.to_multiset()
    }

    /// A heap without entries.
    pub fn new() -> (heap: Self)
        ensures
            heap.wf(),
            heap@ == Seq::<WsworEntry<T>>::empty(),
    {
        EntryHeap { slots: Vec::new() }
    }

    /// The number of entries.
    pub fn len(&self) -> (n: usize)
        ensures
            n == self@.len(),
    {
        self.slots.len()
    }

    /// Adds an entry.
    pub fn push(&mut self, entry: WsworEntry<T>)
        requires
            old(self).wf(),
        ensures
            final(self).wf(),
            final(self).entries() == old(self).entries().insert(entry),
            final(self)@.len() == old(self)@.len() + 1,
    {
        broadcast use vstd::seq_lib::group_to_multiset_ensures;

        let ghost before = self.slots@;
        self.slots.push(entry);
        let last: usize = self.slots.len() - 1;
        proof {
            let grown = self.slots@;
            assert forall|j: int| 0 < j < grown.len() && j != last implies #[trigger] dominated(
                grown,
                j,
            ) by {
                assert(dominated(before, j));
            }
        }
        sift_up(&mut self.slots, last);
    }

    /// Removes an entry whose key no other entry exceeds, if there is any
    /// entry at all.
    pub fn pop(&mut self) -> (top: Option<WsworEntry<T>>)
        requires
            old(self).wf(),
        ensures
            final(self).wf(),
            old(self)@.len() == 0 ==> top is None && final(self)@ == old(self)@,
            old(self)@.len() > 0 ==> top is Some && old(self).entries().contains(top->0)
                && final(self).entries() == old(self).entries().remove(top->0)
                && final(self)@.len() == old(self)@.len() - 1
                && forall|e: WsworEntry<T>| #[trigger]
                    old(self).entries().contains(e) ==> e.key <= (top->0).key,
    {
        broadcast use vstd::seq_lib::group_to_multiset_ensures;

        let len: usize = self.slots.len();
        if len == 0 {
            return None;
        }
        let ghost before = self.slots@;
        if len > 1 {
            exchange(&mut self.slots, 0, len - 1);
        }
        let ghost turned = self.slots@;
        let top = self.slots.pop();
        proof {
            let rest = self.slots@;
            assert(turned.to_multiset() == before.to_multiset());
            assert(turned.last() == before[0]);
            assert(turned =~= rest.push(before[0]));
            assert(rest.to_multiset() =~= before.to_multiset().remove(before[0]));
            assert forall|j: int| 0 < j < rest.len() && parent(j) != 0 implies #[trigger] dominated(
                rest,
                j,
            ) by {
                assert(dominated(before, j));
            }
            assert forall|e: WsworEntry<T>| #[trigger]
                before.to_multiset().contains(e) implies e.key <= before[0].key by {
                assert(before.contains(e));
                let i = choose|i: int| 0 <= i < before.len() && before[i] == e;
                lemma_root_is_greatest(before, i);
            }
            assert(before.contains(before[0]));
        }
        sift_down(&mut self.slots);
        top
    }

    /// The values, in the order of the backing array.
    pub fn values(&self) -> (vals: Vec<&T>)
        ensures
            vals@.len() == self@.len(),
            forall|i: int| 0 <= i < self@.len() ==> *vals@[i] == self@[i].val,
    {
        let mut vals: Vec<&T> = Vec::new();
        let mut i: usize = 0;
        while i < self.slots.len()
            invariant
                i <= self.slots.len(),
                vals@.len() == i,
                forall|j: int| 0 <= j < i ==> *vals@[j] == self.slots@[j].val,
            decreases self.slots.len() - i,
        {
            vals.push(&self.slots[i].val);
            i += 1;
        }
        vals
    }

    /// Gives up the values, in the order of the backing array.
    pub fn into_values(self) -> (vals: Vec<T>)
        ensures
            vals@ == self@.map_values(|e: WsworEntry<T>| e.val),
    {
        let mut vals: Vec<T> = Vec::new();
        for entry in it: self.slots
            invariant
                vals@ == it.seq().take(it.index() as int).map_values(|e: WsworEntry<T>| e.val),
        {
            vals.push(entry.val);
        }
        vals
    }
}

} // verus!

//! Iterators over a cache, in the order in which the keys were inserted.
use crate::order::SlotOrder;
use crate::entry::{key_at, live, pairs_of, value_at, CacheEntry};
use crate::index::{nth, Index, NULL_IDX};
use core::iter::FusedIterator;
use vstd::prelude::*;
use vstd::std_specs::iter::{DoubleEndedIteratorSpecImpl, IteratorSpecImpl};

verus! {

/// References to keys and values.
pub open spec fn borrowed<'a, K, V>(pairs: Seq<(K, V)>) -> Seq<(&'a K, &'a V)> {
    Seq::new(pairs.len(), |i: int| (&pairs[i].0, &pairs[i].1))
}

/// References to keys.
pub open spec fn borrowed_keys<'a, K, V>(pairs: Seq<(K, V)>) -> Seq<&'a K> {
    Seq::new(pairs.len(), |i: int| &pairs[i].0)
}

/// References to values.
pub open spec fn borrowed_values<'a, K, V>(pairs: Seq<(K, V)>) -> Seq<&'a V> {
    Seq::new(pairs.len(), |i: int| &pairs[i].1)
}

/// What is left to visit: the positions from `from` up to, but not including, `to`.
pub struct Cursor {
    front: Index,
    back: Index,
    remaining: usize,
    from: Ghost<int>,
    to: Ghost<int>,
}

/// Iterator used for iterating over key-value pairs within the cache
pub struct Iter<'a, K, V> {
    entries: &'a Vec<Option<CacheEntry<K, V>>>,
    arrivals: &'a SlotOrder,
    cursor: Cursor,
}

impl<'a, K, V> Iter<'a, K, V> {
    /// The ends of the cursor are the slots at its positions, and all slots in the order are filled.
    #[verifier::type_invariant]
    spec fn inv(self) -> bool {
        let order = self.arrivals.order();
        let from = self.cursor.from@;
        let to = self.cursor.to@;
        &&& self.arrivals.wf()
        &&& forall|p: int| 0 <= p < order.len() ==> live(self.entries@, #[trigger] order[p])
        &&& 0 <= from <= to <= order.len()
        &&& self.cursor.remaining == to - from
        &&& from < to ==> self.cursor.front == order[from] && self.cursor.back == order[to - 1]
    }

    /// The keys and values that are left to visit.
    pub closed spec fn pairs(self) -> Seq<(K, V)> {
        pairs_of(self.entries@, self.arrivals.order()).subrange(
            self.cursor.from@,
            self.cursor.to@,
        )
    }

    /// An iterator over all entries.
    pub(crate) fn over(
        entries: &'a Vec<Option<CacheEntry<K, V>>>,
        arrivals: &'a SlotOrder,
        len: usize,
    ) -> (iter: Self)
        requires
            arrivals.wf(),
            forall|p: int|
                0 <= p < arrivals.order().len() ==> live(
                    entries@,
                    #[trigger] arrivals.order()[p],
                ),
            len == arrivals.order().len(),
        ensures
            iter.pairs() == pairs_of(entries@, arrivals.order()),
    {
        let iter = Iter {
            entries,
            arrivals,
            cursor: Cursor {
                front: arrivals.oldest(),
                back: arrivals.newest(),
                remaining: len,
                from: Ghost(0),
                to: Ghost(arrivals.order().len() as int),
            },
        };
        assert(iter.pairs() =~= pairs_of(entries@, arrivals.order()));
        iter
    }
}

impl<'a, K, V> Iterator for Iter<'a, K, V> {
    type Item = (&'a K, &'a V);

    fn next(&mut self) -> (item: Option<Self::Item>)
        ensures
            final(self).pairs() == if old(self).pairs().len() > 0 {
                old(self).pairs().drop_first()
            } else {
                old(self).pairs()
            },
            old(self).pairs().len() > 0 ==> {
                &&& item matches Some(item)
                &&& *item.0 == old(self).pairs()[0].0
                &&& *item.1 == old(self).pairs()[0].1
            },
            old(self).pairs().len() == 0 ==> item is None,
    {
        proof {
            use_type_invariant(&*self);
        }
        if self.cursor.remaining == 0 {
            return None;
        }
        let ghost from = self.cursor.from@;
        let idx = self.cursor.front;
        let entry = self.entries[idx as usize].as_ref().expect("slot is present");
        let next = self.arrivals.newer(idx, Ghost(from));
        self.cursor = Cursor {
            front: next,
            back: self.cursor.back,
            remaining: self.cursor.remaining - 1,
            from: Ghost(from + 1),
            to: self.cursor.to,
        };
        Some((&entry.key, &entry.value))
    }

    fn size_hint(&self) -> (hint: (usize, Option<usize>))
        ensures
            hint.0 == self.pairs().len(),
            hint.1 == Some(hint.0),
    {
        proof {
            use_type_invariant(self);
        }
        (self.cursor.remaining, Some(self.cursor.remaining))
    }
}

impl<'a, K, V> IteratorSpecImpl for Iter<'a, K, V> {
    open spec fn obeys_prophetic_iter_laws(&self) -> bool {
        true
    }

    open spec fn remaining(&self) -> Seq<Self::Item> {
        borrowed(self.pairs())
    }

    open spec fn will_return_none(&self) -> bool {
        true
    }

    open spec fn decrease(&self) -> Option<nat> {
        Some(self.pairs().len())
    }

    open spec fn initial_value_relation(&self, init: &Self) -> bool {
        self.pairs() == init.pairs()
    }

    open spec fn peek(&self, index: int) -> Option<Self::Item> {
        if 0 <= index < self.pairs().len() {
            Some((&self.pairs()[index].0, &self.pairs()[index].1))
        } else {
            None
        }
    }
}

impl<'a, K, V> DoubleEndedIterator for Iter<'a, K, V> {
    fn next_back(&mut self) -> (item: Option<Self::Item>)
        ensures
            final(self).pairs() == if old(self).pairs().len() > 0 {
                old(self).pairs().drop_last()
            } else {
                old(self).pairs()
            },
            old(self).pairs().len() > 0 ==> {
                &&& item matches Some(item)
                &&& *item.0 == old(self).pairs().last().0
                &&& *item.1 == old(self).pairs().last().1
            },
            old(self).pairs().len() == 0 ==> item is None,
    {
        proof {
            use_type_invariant(&*self);
        }
        if self.cursor.remaining == 0 {
            return None;
        }
        let ghost to = self.cursor.to@;
        let idx = self.cursor.back;
        let entry = self.entries[idx as usize].as_ref().expect("slot is present");
        let previous = self.arrivals.older(idx, Ghost(to - 1));
        self.cursor = Cursor {
            front: self.cursor.front,
            back: previous,
            remaining: self.cursor.remaining - 1,
            from: self.cursor.from,
            to: Ghost(to - 1),
        };
        Some((&entry.key, &entry.value))
    }
}

impl<'a, K, V> DoubleEndedIteratorSpecImpl for Iter<'a, K, V> {
    open spec fn peek_back(&self, index: int) -> Option<Self::Item> {
        let len = self.pairs().len();
        if 0 <= index < len {
            Some((&self.pairs()[len - 1 - index].0, &self.pairs()[len - 1 - index].1))
        } else {
            None
        }
    }
}

impl<K, V> ExactSizeIterator for Iter<'_, K, V> {

}

impl<K, V> FusedIterator for Iter<'_, K, V> {

}

/// References to the entries of all filled slots, by slot.
fn slots_mut<'a, K, V>(entries: &'a mut Vec<Option<CacheEntry<K, V>>>) -> (slots: Vec<
    Option<&'a mut CacheEntry<K, V>>,
>)
    ensures
        slots@.len() == old(entries)@.len(),
        final(entries)@.len() == old(entries)@.len(),
        forall|i: int|
            0 <= i < old(entries)@.len() && (#[trigger] old(entries)@[i]) is None
                ==> slots@[i] is None && final(entries)@[i] is None,
        forall|i: int|
            0 <= i < old(entries)@.len() && (#[trigger] old(entries)@[i]) is Some
                ==> slots@[i] is Some && *slots@[i]->0 == old(entries)@[i]->0 && final(entries)@[i]
                == Some(*final(slots@[i]->0)),
{
    let ghost start = entries@;
    let ghost end = final(entries)@;
    let len = entries.len();
    let mut slots: Vec<Option<&'a mut CacheEntry<K, V>>> = Vec::with_capacity(len);
    let mut rest = entries.as_mut_slice();
    let mut i: usize = 0;
    while i < len
        invariant
            i <= len,
            start.len() == len,
            slots@.len() == i,
            rest@.len() == len - i,
            end.len() == i + final(rest)@.len(),
            forall|j: int| 0 <= j < rest@.len() ==> #[trigger] rest@[j] == start[i + j],
            forall|j: int|
                0 <= j < final(rest)@.len() ==> #[trigger] final(rest)@[j] == end[i + j],
            forall|j: int|
                0 <= j < i && (#[trigger] start[j]) is None ==> slots@[j] is None && end[j] is None,
            forall|j: int|
                0 <= j < i && (#[trigger] start[j]) is Some ==> slots@[j] is Some && *slots@[j]->0
                    == start[j]->0 && end[j] == Some(*final(slots@[j]->0)),
        decreases len - i,
    {
        let ghost rest_end = final(rest)@;
        let ghost rest_start = rest@;
        let (head, tail) = rest.split_at_mut(1);
        let ghost head_end = final(head)@;
        let ghost tail_end = final(tail)@;
        let ghost cell_start = head@[0];
        let cell = &mut head[0];
        proof {
            assert(rest_end == head_end + tail_end);
            assert(cell_start == rest_start[0]);
            assert forall|j: int| 0 <= j < tail_end.len() implies #[trigger] tail_end[j] == end[i
                + 1 + j] by {
                assert(rest_end[j + 1] == tail_end[j]);
            }
            assert forall|j: int| 0 <= j < tail@.len() implies #[trigger] tail@[j] == start[i + 1
                + j] by {
                assert(rest_start[j + 1] == tail@[j]);
            }
            assert(rest_end[0] == head_end[0]);
        }
        slots.push(cell.as_mut());
        rest = tail;
        i = i + 1;
    }
    slots
}

/// References to all entries, the one inserted first in front.
fn entries_mut<'a, K, V>(
    entries: &'a mut Vec<Option<CacheEntry<K, V>>>,
    arrivals: &SlotOrder,
) -> (found: Vec<&'a mut CacheEntry<K, V>>)
    requires
        arrivals.wf(),
        forall|i: Index| #[trigger] live(old(entries)@, i) <==> arrivals.order().contains(i),
    ensures
        found@.len() == arrivals.order().len(),
        final(entries)@.len() == old(entries)@.len(),
        forall|i: int|
            0 <= i < old(entries)@.len() ==> ((#[trigger] final(entries)@[i]) is Some <==> old(
                entries,
            )@[i] is Some),
        forall|p: int|
            0 <= p < arrivals.order().len() ==> Some(*(#[trigger] found@[p])) == old(
                entries,
            )@[arrivals.order()[p] as int] && final(entries)@[arrivals.order()[p] as int] == Some(
                *final(found@[p]),
            ),
{
    let ghost order = arrivals.order();
    let ghost start = entries@;
    let ghost end = final(entries)@;
    proof {
        arrivals.lemma_order();
        assert forall|p: int| 0 <= p < order.len() implies live(start, #[trigger] order[p]) by {
            assert(order.contains(order[p]));
        }
    }
    let mut slots = slots_mut(entries);
    let ghost all = slots@;
    let mut found: Vec<&'a mut CacheEntry<K, V>> = Vec::new();
    let mut idx = arrivals.oldest();
    while idx != NULL_IDX
        invariant
            arrivals.wf(),
            order == arrivals.order(),
            order.no_duplicates(),
            found@.len() <= order.len(),
            idx == nth(order, found@.len() as int),
            slots@.len() == start.len(),
            all.len() == start.len(),
            forall|p: int| 0 <= p < order.len() ==> live(start, #[trigger] order[p]),
            forall|p: int| 0 <= p < order.len() ==> (#[trigger] all[order[p] as int]) is Some,
            forall|p: int|
                found@.len() <= p < order.len() ==> slots@[(#[trigger] order[p]) as int]
                    == all[order[p] as int],
            forall|p: int|
                0 <= p < found@.len() ==> *(#[trigger] found@[p]) == *all[order[p] as int]->0
                    && *final(found@[p]) == *final(all[order[p] as int]->0),
        decreases order.len() - found@.len(),
    {
        let ghost p = found@.len() as int;
        assert(order[p] == idx);
        let entry = slots[idx as usize].take().expect("slot is present");
        found.push(entry);
        idx = arrivals.newer(idx, Ghost(p));
    }
    proof {
        arrivals.lemma_order();
        assert forall|i: int| 0 <= i < start.len() implies ((#[trigger] end[i]) is Some
            <==> start[i] is Some) by {
            let cell = start[i];
        }
        assert forall|p: int| 0 <= p < order.len() implies Some(*(#[trigger] found@[p]))
            == start[order[p] as int] && end[order[p] as int] == Some(*final(found@[p])) by {
            assert(live(start, order[p]));
            assert(start[order[p] as int] is Some);
        }
    }
    found
}

/// Mutable iterator for iterating over key-value pairs in the cache
pub struct IterMut<'a, K, V> {
    /// What is left to visit, the last first.
    items: Vec<(&'a K, &'a mut V)>,
}

impl<'a, K, V> IterMut<'a, K, V> {
    /// The references that are left to hand out.
    pub closed spec fn items(self) -> Seq<(&'a K, &'a mut V)> {
        self.items@.reverse()
    }

    /// Values whose references are never handed out stay as they are.
    pub proof fn lemma_not_handed_out(self)
        requires
            has_resolved(self),
        ensures
            forall|i: int|
                0 <= i < self.items().len() ==> *(#[trigger] self.items()[i]).1 == *final(self.items()[i].1),
    {
        assert forall|i: int| 0 <= i < self.items().len() implies *(#[trigger] self.items()[i]).1
            == *final(self.items()[i].1) by {
            assert(has_resolved(self.items));
            assert(has_resolved(self.items@[self.items@.len() - 1 - i]));
        }
    }

    /// An iterator over all entries.
    pub(crate) fn over(
        entries: &'a mut Vec<Option<CacheEntry<K, V>>>,
        arrivals: &SlotOrder,
    ) -> (iter: Self)
        requires
            arrivals.wf(),
            forall|i: Index| #[trigger] live(old(entries)@, i) <==> arrivals.order().contains(i),
        ensures
            iter.items().len() == arrivals.order().len(),
            final(entries)@.len() == old(entries)@.len(),
            forall|i: int|
                0 <= i < old(entries)@.len() ==> ((#[trigger] final(entries)@[i]) is Some <==> old(
                    entries,
                )@[i] is Some),
            forall|p: int|
                0 <= p < arrivals.order().len() ==> *(#[trigger] iter.items()[p]).0 == key_at(
                    old(entries)@,
                    arrivals.order()[p],
                ) && *iter.items()[p].1 == value_at(old(entries)@, arrivals.order()[p])
                    && final(entries)@[arrivals.order()[p] as int] == Some(
                    CacheEntry {
                        value: *final(iter.items()[p].1),
                        ..old(entries)@[arrivals.order()[p] as int]->0
                    },
                ),
    {
        let ghost order = arrivals.order();
        let mut found = entries_mut(entries, arrivals);
        let ghost all = found@;
        let mut items: Vec<(&'a K, &'a mut V)> = Vec::with_capacity(found.len());
        while found.len() > 0
            invariant
                found@.len() + items@.len() == all.len(),
                forall|p: int| 0 <= p < found@.len() ==> #[trigger] found@[p] == all[p],
                forall|j: int|
                    0 <= j < items@.len() ==> {
                        let entry = all[all.len() - 1 - j];
                        &&& *(#[trigger] items@[j]).0 == (*entry).key
                        &&& *items@[j].1 == (*entry).value
                        &&& *final(entry) == (CacheEntry { value: *final(items@[j].1), ..*entry })
                    },
            decreases found@.len(),
        {
            let entry = found.pop().expect("entry is present");
            items.push((&entry.key, &mut entry.value));
        }
        let iter = IterMut { items };
        proof {
            assert forall|p: int| 0 <= p < order.len() implies #[trigger] iter.items()[p]
                == items@[order.len() - 1 - p] by {}
        }
        iter
    }
}

impl<'a, K, V> Iterator for IterMut<'a, K, V> {
    type Item = (&'a K, &'a mut V);

    fn next(&mut self) -> (item: Option<Self::Item>)
        ensures
            old(self).items().len() > 0 ==> item == Some(old(self).items()[0]) && final(self).items()
                == old(self).items().drop_first(),
            old(self).items().len() == 0 ==> item is None && final(self).items() == old(self).items(),
    {
        let item = self.items.pop();
        proof {
            if old(self).items@.len() > 0 {
                assert(self.items() =~= old(self).items().drop_first());
            }
        }
        item
    }

    fn size_hint(&self) -> (hint: (usize, Option<usize>))
        ensures
            hint.0 == self.items().len(),
            hint.1 == Some(hint.0),
    {
        (self.items.len(), Some(self.items.len()))
    }
}

impl<'a, K, V> IteratorSpecImpl for IterMut<'a, K, V> {
    open spec fn obeys_prophetic_iter_laws(&self) -> bool {
        true
    }

    open spec fn remaining(&self) -> Seq<Self::Item> {
        self.items()
    }

    open spec fn will_return_none(&self) -> bool {
        true
    }

    open spec fn decrease(&self) -> Option<nat> {
        Some(self.items().len())
    }

    open spec fn initial_value_relation(&self, init: &Self) -> bool {
        self.items() == init.items()
    }

    open spec fn peek(&self, index: int) -> Option<Self::Item> {
        if 0 <= index < self.items().len() {
            Some(self.items()[index])
        } else {
            None
        }
    }
}

impl<K, V> ExactSizeIterator for IterMut<'_, K, V> {

}

impl<K, V> FusedIterator for IterMut<'_, K, V> {

}

/// Wrapper for implementing [`IntoIterator`]
pub struct IntoIter<K, V> {
    /// What is left to visit, the last first.
    items: Vec<(K, V)>,
}

impl<K, V> IntoIter<K, V> {
    /// The keys and values that are left to hand out.
    pub closed spec fn pairs(self) -> Seq<(K, V)> {
        self.items@.reverse()
    }

    /// An iterator over all entries.
    pub(crate) fn over(
        entries: Vec<Option<CacheEntry<K, V>>>,
        arrivals: &SlotOrder,
    ) -> (iter: Self)
        requires
            arrivals.wf(),
            forall|p: int|
                0 <= p < arrivals.order().len() ==> live(
                    entries@,
                    #[trigger] arrivals.order()[p],
                ),
        ensures
            iter.pairs() == pairs_of(entries@, arrivals.order()),
    {
        let ghost order = arrivals.order();
        let ghost start = entries@;
        proof {
            arrivals.lemma_order();
        }
        let mut slots = entries;
        let mut items: Vec<(K, V)> = Vec::new();
        let mut idx = arrivals.newest();
        let ghost mut left = order.len() as int;
        while idx != NULL_IDX
            invariant
                arrivals.wf(),
                order == arrivals.order(),
                order.no_duplicates(),
                0 <= left <= order.len(),
                idx == nth(order, left - 1),
                slots@.len() == start.len(),
                items@.len() == order.len() - left,
                forall|p: int| 0 <= p < order.len() ==> live(start, #[trigger] order[p]),
                forall|p: int|
                    0 <= p < left ==> slots@[(#[trigger] order[p]) as int]
                        == start[order[p] as int],
                forall|j: int|
                    0 <= j < items@.len() ==> #[trigger] items@[j] == pairs_of(
                        start,
                        order,
                    )[order.len() - 1 - j],
            decreases left,
        {
            let ghost p = left - 1;
            assert(order[p] == idx);
            let entry = slots[idx as usize].take().expect("slot is present");
            items.push((entry.key, entry.value));
            idx = arrivals.older(idx, Ghost(p));
            proof {
                left = p;
            }
        }
        let iter = IntoIter { items };
        proof {
            arrivals.lemma_order();
            assert(left == 0);
            assert(iter.pairs() =~= pairs_of(start, order));
        }
        iter
    }
}

impl<K, V> Iterator for IntoIter<K, V> {
    type Item = (K, V);

    fn next(&mut self) -> (item: Option<Self::Item>)
        ensures
            old(self).pairs().len() > 0 ==> item == Some(old(self).pairs()[0]) && final(self).pairs()
                == old(self).pairs().drop_first(),
            old(self).pairs().len() == 0 ==> item is None && final(self).pairs() == old(self).pairs(),
    {
        let item = self.items.pop();
        proof {
            if old(self).items@.len() > 0 {
                assert(self.pairs() =~= old(self).pairs().drop_first());
            }
        }
        item
    }

    fn size_hint(&self) -> (hint: (usize, Option<usize>))
        ensures
            hint.0 == self.pairs().len(),
            hint.1 == Some(hint.0),
    {
        (self.items.len(), Some(self.items.len()))
    }
}

impl<K, V> IteratorSpecImpl for IntoIter<K, V> {
    open spec fn obeys_prophetic_iter_laws(&self) -> bool {
        true
    }

    open spec fn remaining(&self) -> Seq<Self::Item> {
        self.pairs()
    }

    open spec fn will_return_none(&self) -> bool {
        true
    }

    open spec fn decrease(&self) -> Option<nat> {
        Some(self.pairs().len())
    }

    open spec fn initial_value_relation(&self, init: &Self) -> bool {
        self.pairs() == init.pairs()
    }

    open spec fn peek(&self, index: int) -> Option<Self::Item> {
        if 0 <= index < self.pairs().len() {
            Some(self.pairs()[index])
        } else {
            None
        }
    }
}

impl<K, V> ExactSizeIterator for IntoIter<K, V> {

}

impl<K, V> FusedIterator for IntoIter<K, V> {

}

/// An iterator over keys alone
pub struct Keys<'a, K, V> {
    iter: Iter<'a, K, V>,
}

impl<'a, K, V> Keys<'a, K, V> {
    /// The keys and values that are left to visit.
    pub closed spec fn pairs(self) -> Seq<(K, V)> {
        self.iter.pairs()
    }

    /// The keys that another iterator has left to visit.
    pub(crate) fn over(iter: Iter<'a, K, V>) -> (keys: Self)
        ensures
            keys.pairs() == iter.pairs(),
    {
        Keys { iter }
    }
}

impl<'a, K, V> Iterator for Keys<'a, K, V> {
    type Item = &'a K;

    fn next(&mut self) -> (item: Option<Self::Item>)
        ensures
            old(self).pairs().len() > 0 ==> {
                &&& item matches Some(item)
                &&& *item == old(self).pairs()[0].0
                &&& final(self).pairs() == old(self).pairs().drop_first()
            },
            old(self).pairs().len() == 0 ==> item is None && final(self).pairs() == old(
                self,
            ).pairs(),
    {
        let item = self.iter.next();
        proof {
            if old(self).pairs().len() > 0 {
                assert(borrowed_keys(self.pairs()) =~= borrowed_keys(old(self).pairs()).drop_first());
            }
        }
        match item {
            Some((key, _)) => Some(key),
            None => None,
        }
    }

    fn size_hint(&self) -> (hint: (usize, Option<usize>))
        ensures
            hint.0 == self.pairs().len(),
            hint.1 == Some(hint.0),
    {
        self.iter.size_hint()
    }
}

impl<'a, K, V> IteratorSpecImpl for Keys<'a, K, V> {
    open spec fn obeys_prophetic_iter_laws(&self) -> bool {
        true
    }

    open spec fn remaining(&self) -> Seq<Self::Item> {
        borrowed_keys(self.pairs())
    }

    open spec fn will_return_none(&self) -> bool {
        true
    }

    open spec fn decrease(&self) -> Option<nat> {
        Some(self.pairs().len())
    }

    open spec fn initial_value_relation(&self, init: &Self) -> bool {
        self.pairs() == init.pairs()
    }

    open spec fn peek(&self, index: int) -> Option<Self::Item> {
        if 0 <= index < self.pairs().len() {
            Some(&self.pairs()[index].0)
        } else {
            None
        }
    }
}

impl<K, V> ExactSizeIterator for Keys<'_, K, V> {

}

/// An iterator over values alone
pub struct Values<'a, K, V> {
    iter: Iter<'a, K, V>,
}

impl<'a, K, V> Values<'a, K, V> {
    /// The keys and values that are left to visit.
    pub closed spec fn pairs(self) -> Seq<(K, V)> {
        self.iter.pairs()
    }

    /// The values that another iterator has left to visit.
    pub(crate) fn over(iter: Iter<'a, K, V>) -> (values: Self)
        ensures
            values.pairs() == iter.pairs(),
    {
        Values { iter }
    }
}

impl<'a, K, V> Iterator for Values<'a, K, V> {
    type Item = &'a V;

    fn next(&mut self) -> (item: Option<Self::Item>)
        ensures
            old(self).pairs().len() > 0 ==> {
                &&& item matches Some(item)
                &&& *item == old(self).pairs()[0].1
                &&& final(self).pairs() == old(self).pairs().drop_first()
            },
            old(self).pairs().len() == 0 ==> item is None && final(self).pairs() == old(
                self,
            ).pairs(),
    {
        let item = self.iter.next();
        proof {
            if old(self).pairs().len() > 0 {
                assert(borrowed_values(self.pairs()) =~= borrowed_values(old(self).pairs()).drop_first());
            }
        }
        match item {
            Some((_, value)) => Some(value),
            None => None,
        }
    }

    fn size_hint(&self) -> (hint: (usize, Option<usize>))
        ensures
            hint.0 == self.pairs().len(),
            hint.1 == Some(hint.0),
    {
        self.iter.size_hint()
    }
}

impl<'a, K, V> IteratorSpecImpl for Values<'a, K, V> {
    open spec fn obeys_prophetic_iter_laws(&self) -> bool {
        true
    }

    open spec fn remaining(&self) -> Seq<Self::Item> {
        borrowed_values(self.pairs())
    }

    open spec fn will_return_none(&self) -> bool {
        true
    }

    open spec fn decrease(&self) -> Option<nat> {
        Some(self.pairs().len())
    }

    open spec fn initial_value_relation(&self, init: &Self) -> bool {
        self.pairs() == init.pairs()
    }

    open spec fn peek(&self, index: int) -> Option<Self::Item> {
        if 0 <= index < self.pairs().len() {
            Some(&self.pairs()[index].1)
        } else {
            None
        }
    }
}

impl<K, V> ExactSizeIterator for Values<'_, K, V> {

}

/// A mutable iterator over values alone
pub struct ValuesMut<'a, V> {
    /// What is left to visit, the last first.
    items: Vec<&'a mut V>,
}

impl<'a, V> ValuesMut<'a, V> {
    /// The references that are left to hand out.
    pub closed spec fn items(self) -> Seq<&'a mut V> {
        self.items@.reverse()
    }

    /// Values whose references are never handed out stay as they are.
    pub proof fn lemma_not_handed_out(self)
        requires
            has_resolved(self),
        ensures
            forall|i: int|
                0 <= i < self.items().len() ==> *(#[trigger] self.items()[i]) == *final(self.items()[i]),
    {
        assert forall|i: int| 0 <= i < self.items().len() implies *(#[trigger] self.items()[i])
            == *final(self.items()[i]) by {
            assert(has_resolved(self.items));
            assert(has_resolved(self.items@[self.items@.len() - 1 - i]));
        }
    }

    /// An iterator over all entries.
    pub(crate) fn over<K>(
        entries: &'a mut Vec<Option<CacheEntry<K, V>>>,
        arrivals: &SlotOrder,
    ) -> (values: Self)
        requires
            arrivals.wf(),
            forall|i: Index| #[trigger] live(old(entries)@, i) <==> arrivals.order().contains(i),
        ensures
            values.items().len() == arrivals.order().len(),
            final(entries)@.len() == old(entries)@.len(),
            forall|i: int|
                0 <= i < old(entries)@.len() ==> ((#[trigger] final(entries)@[i]) is Some <==> old(
                    entries,
                )@[i] is Some),
            forall|p: int|
                0 <= p < arrivals.order().len() ==> *(#[trigger] values.items()[p]) == value_at(
                    old(entries)@,
                    arrivals.order()[p],
                ) && final(entries)@[arrivals.order()[p] as int] == Some(
                    CacheEntry {
                        value: *final(values.items()[p]),
                        ..old(entries)@[arrivals.order()[p] as int]->0
                    },
                ),
    {
        let ghost order = arrivals.order();
        let mut found = entries_mut(entries, arrivals);
        let ghost all = found@;
        let mut items: Vec<&'a mut V> = Vec::with_capacity(found.len());
        while found.len() > 0
            invariant
                found@.len() + items@.len() == all.len(),
                forall|p: int| 0 <= p < found@.len() ==> #[trigger] found@[p] == all[p],
                forall|j: int|
                    0 <= j < items@.len() ==> {
                        let entry = all[all.len() - 1 - j];
                        &&& *(#[trigger] items@[j]) == (*entry).value
                        &&& *final(entry) == (CacheEntry { value: *final(items@[j]), ..*entry })
                    },
            decreases found@.len(),
        {
            let entry = found.pop().expect("entry is present");
            items.push(&mut entry.value);
        }
        let values = ValuesMut { items };
        proof {
            assert forall|p: int| 0 <= p < order.len() implies #[trigger] values.items()[p]
                == items@[order.len() - 1 - p] by {}
        }
        values
    }
}

impl<'a, V> Iterator for ValuesMut<'a, V> {
    type Item = &'a mut V;

    fn next(&mut self) -> (item: Option<Self::Item>)
        ensures
            old(self).items().len() > 0 ==> item == Some(old(self).items()[0]) && final(self).items()
                == old(self).items().drop_first(),
            old(self).items().len() == 0 ==> item is None && final(self).items() == old(self).items(),
    {
        let item = self.items.pop();
        proof {
            if old(self).items@.len() > 0 {
                assert(self.items() =~= old(self).items().drop_first());
            }
        }
        item
    }

    fn size_hint(&self) -> (hint: (usize, Option<usize>))
        ensures
            hint.0 == self.items().len(),
            hint.1 == Some(hint.0),
    {
        (self.items.len(), Some(self.items.len()))
    }
}

impl<'a, V> IteratorSpecImpl for ValuesMut<'a, V> {
    open spec fn obeys_prophetic_iter_laws(&self) -> bool {
        true
    }

    open spec fn remaining(&self) -> Seq<Self::Item> {
        self.items()
    }

    open spec fn will_return_none(&self) -> bool {
        true
    }

    open spec fn decrease(&self) -> Option<nat> {
        Some(self.items().len())
    }

    open spec fn initial_value_relation(&self, init: &Self) -> bool {
        self.items() == init.items()
    }

    open spec fn peek(&self, index: int) -> Option<Self::Item> {
        if 0 <= index < self.items().len() {
            Some(self.items()[index])
        } else {
            None
        }
    }
}

impl<V> ExactSizeIterator for ValuesMut<'_, V> {

}

} // verus!

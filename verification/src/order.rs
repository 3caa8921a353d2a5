//! Slots in a row, such as the order in which they were filled or last used.
//!
//! A doubly linked list over slot numbers: a slot is added at the end and taken out anywhere.
use crate::index::{nth, Index, NULL_IDX};
use vstd::prelude::*;

verus! {

/// The place of a slot in the list.
#[derive(Clone, Copy)]
pub struct Neighbours {
    /// The slot just before.
    pub older: Index,
    /// The slot just after.
    pub newer: Index,
}

/// The slot at position `p` points to its neighbours.
pub open spec fn placed(links: Seq<Neighbours>, order: Seq<Index>, p: int) -> bool {
    &&& order[p] < links.len()
    &&& links[order[p] as int].older == nth(order, p - 1)
    &&& links[order[p] as int].newer == nth(order, p + 1)
}

/// Slots in a row.
pub struct SlotOrder {
    links: Vec<Neighbours>,
    oldest: Index,
    newest: Index,
    order: Ghost<Seq<Index>>,
}

impl SlotOrder {
    /// The slots, the one added first in front.
    pub closed spec fn order(&self) -> Seq<Index> {
        self.order@
    }

    /// How many slots there are, in the row or not.
    pub closed spec fn slots(&self) -> nat {
        self.links@.len()
    }

    /// The invariant: all links agree with the order.
    pub closed spec fn wf(&self) -> bool {
        &&& self.links@.len() < NULL_IDX
        &&& self.oldest == nth(self.order@, 0)
        &&& self.newest == nth(self.order@, self.order@.len() - 1)
        &&& self.order@.no_duplicates()
        &&& forall|p: int|
            0 <= p < self.order@.len() ==> #[trigger] placed(self.links@, self.order@, p)
    }

    /// What every order is: without duplicates, made of slots that exist.
    pub proof fn lemma_order(&self)
        requires
            self.wf(),
        ensures
            self.order().no_duplicates(),
            self.slots() < NULL_IDX,
            forall|p: int| 0 <= p < self.order().len() ==> #[trigger] self.order()[p] < self.slots(),
    {
        assert forall|p: int| 0 <= p < self.order().len() implies #[trigger] self.order()[p]
            < self.slots() by {
            assert(placed(self.links@, self.order@, p));
        }
    }

    /// A list without slots.
    pub fn new() -> (list: Self)
        ensures
            list.wf(),
            list.slots() == 0,
            list.order() == Seq::<Index>::empty(),
    {
        SlotOrder {
            links: Vec::new(),
            oldest: NULL_IDX,
            newest: NULL_IDX,
            order: Ghost(Seq::empty()),
        }
    }

    /// Drops all slots.
    pub fn clear(&mut self)
        ensures
            final(self).wf(),
            final(self).slots() == 0,
            final(self).order() == Seq::<Index>::empty(),
    {
        self.links.clear();
        self.oldest = NULL_IDX;
        self.newest = NULL_IDX;
        proof {
            self.order@ = Seq::empty();
        }
    }

    /// Makes room for one more slot, which is not in the row yet.
    pub fn grow(&mut self)
        requires
            old(self).wf(),
            old(self).slots() + 1 < NULL_IDX,
        ensures
            final(self).wf(),
            final(self).slots() == old(self).slots() + 1,
            final(self).order() == old(self).order(),
    {
        let ghost links0 = self.links@;
        self.links.push(Neighbours { older: NULL_IDX, newer: NULL_IDX });
        proof {
            assert forall|p: int| 0 <= p < self.order@.len() implies #[trigger] placed(
                self.links@,
                self.order@,
                p,
            ) by {
                assert(placed(links0, self.order@, p));
            }
        }
    }

    /// Adds a slot at the end.
    pub fn push(&mut self, idx: Index)
        requires
            old(self).wf(),
            idx < old(self).slots(),
            !old(self).order().contains(idx),
        ensures
            final(self).wf(),
            final(self).slots() == old(self).slots(),
            final(self).order() == old(self).order().push(idx),
    {
        let ghost links0 = self.links@;
        let ghost order0 = self.order@;
        let last = self.newest;
        proof {
            if order0.len() > 0 {
                assert(placed(links0, order0, order0.len() - 1));
            }
        }
        self.links[idx as usize] = Neighbours { older: last, newer: NULL_IDX };
        if last != NULL_IDX {
            self.links[last as usize].newer = idx;
        } else {
            self.oldest = idx;
        }
        self.newest = idx;
        proof {
            let order1 = order0.push(idx);
            self.order@ = order1;
            assert forall|p: int| 0 <= p < order1.len() implies #[trigger] placed(
                self.links@,
                order1,
                p,
            ) by {
                if p < order0.len() {
                    assert(placed(links0, order0, p));
                    assert(order0.contains(order0[p]));
                }
            }
            assert forall|p: int, q: int|
                0 <= p < order1.len() && 0 <= q < order1.len() && p != q implies order1[p]
                != order1[q] by {
                if p < order0.len() {
                    assert(order0.contains(order0[p]));
                }
                if q < order0.len() {
                    assert(order0.contains(order0[q]));
                }
            }
        }
    }

    /// Takes a slot out of the order.
    pub fn unlink(&mut self, idx: Index)
        requires
            old(self).wf(),
            old(self).order().contains(idx),
        ensures
            final(self).wf(),
            final(self).slots() == old(self).slots(),
            forall|p: int|
                0 <= p < old(self).order().len() && #[trigger] old(self).order()[p] == idx
                    ==> final(self).order() == old(self).order().remove(p),
    {
        let ghost links0 = self.links@;
        let ghost order0 = self.order@;
        let ghost p = order0.index_of(idx);
        proof {
            assert(placed(links0, order0, p));
            if p > 0 {
                assert(placed(links0, order0, p - 1));
            }
            if p + 1 < order0.len() {
                assert(placed(links0, order0, p + 1));
            }
        }
        let older = self.links[idx as usize].older;
        let newer = self.links[idx as usize].newer;
        if older != NULL_IDX {
            self.links[older as usize].newer = newer;
        } else {
            self.oldest = newer;
        }
        if newer != NULL_IDX {
            self.links[newer as usize].older = older;
        } else {
            self.newest = older;
        }
        proof {
            let order1 = order0.remove(p);
            self.order@ = order1;
            assert forall|q: int| 0 <= q < order1.len() implies #[trigger] placed(
                self.links@,
                order1,
                q,
            ) by {
                let q0 = if q < p {
                    q
                } else {
                    q + 1
                };
                assert(placed(links0, order0, q0));
                assert(order1[q] == order0[q0]);
            }
        }
    }

    /// The slot added first, or the null index where there is none.
    pub fn oldest(&self) -> (idx: Index)
        requires
            self.wf(),
        ensures
            idx == nth(self.order(), 0),
    {
        self.oldest
    }

    /// The slot added last, or the null index where there is none.
    pub fn newest(&self) -> (idx: Index)
        requires
            self.wf(),
        ensures
            idx == nth(self.order(), self.order().len() - 1),
    {
        self.newest
    }

    /// The slot just after another, or the null index where there is none.
    pub fn newer(&self, idx: Index, Ghost(p): Ghost<int>) -> (next: Index)
        requires
            self.wf(),
            0 <= p < self.order().len(),
            self.order()[p] == idx,
        ensures
            next == nth(self.order(), p + 1),
    {
        assert(placed(self.links@, self.order@, p));
        self.links[idx as usize].newer
    }

    /// The slot just before another, or the null index where there is none.
    pub fn older(&self, idx: Index, Ghost(p): Ghost<int>) -> (previous: Index)
        requires
            self.wf(),
            0 <= p < self.order().len(),
            self.order()[p] == idx,
        ensures
            previous == nth(self.order(), p - 1),
    {
        assert(placed(self.links@, self.order@, p));
        self.links[idx as usize].older
    }
}

impl Clone for SlotOrder {
    /// A list of the same slots in the same order.
    fn clone(&self) -> (copy: Self)
        ensures
            self.wf() ==> copy.wf(),
            copy.slots() == self.slots(),
            copy.order() == self.order(),
    {
        let copy = SlotOrder {
            links: self.links.clone(),
            oldest: self.oldest,
            newest: self.newest,
            order: self.order,
        };
        assert(copy.links@ =~= self.links@);
        copy
    }
}

} // verus!

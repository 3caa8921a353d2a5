//! Slots sorted by how often they have been used.
//!
//! Slots used equally often share a shelf, a doubly linked list with the latest use at its head. The
//! shelves form a doubly linked list of their own, by rising count. Beside them all slots stand in the
//! order of their last use, by which slots are sorted whose counts meet when they age.
use crate::index::{nth, Index, NULL_IDX};
use crate::order::SlotOrder;
use crate::ranking::{
    aged, distinct, filed, halved, lemma_aged_distinct, lemma_aged_rising, lemma_filed_distinct,
    lemma_filed_removed, lemma_filed_rising, lemma_filed_sorted, lemma_filed_to,
    lemma_pushed_distinct, lemma_removed_distinct, lemma_used_at_most_add, lemma_used_at_most_all,
    lemma_used_at_most_none, place, ranked, reused, used_at_most, Rank,
};
use vstd::prelude::*;

verus! {

/// The head of a shelf: the slots that have been used `count` times.
#[derive(Clone, Copy)]
pub struct FreqSlot {
    pub count: u64,
    /// The slot used last.
    pub head: Index,
    /// The slot whose last use lies furthest back.
    pub tail: Index,
    /// The shelf with the next lower count.
    pub prev_slot: Index,
    /// The shelf with the next higher count, or the next free shelf.
    pub next_slot: Index,
}

impl FreqSlot {
    /// An empty shelf, linked to no other.
    pub fn new(count: u64) -> (slot: Self)
        ensures
            slot.count == count,
            slot.head == NULL_IDX,
            slot.tail == NULL_IDX,
            slot.prev_slot == NULL_IDX,
            slot.next_slot == NULL_IDX,
            NULL_IDX == 0xffff_ffff,
    {
        FreqSlot {
            count,
            head: NULL_IDX,
            tail: NULL_IDX,
            prev_slot: NULL_IDX,
            next_slot: NULL_IDX,
        }
    }
}

/// The place of a slot on its shelf.
#[derive(Clone, Copy)]
pub struct Link {
    /// The neighbour towards the head.
    pub prev: Index,
    /// The neighbour towards the tail.
    pub next: Index,
    /// The shelf itself.
    pub slot_index: Index,
}

/// What a shelf holds, from its head to its tail.
pub struct Shelf {
    pub slot: Index,
    pub count: u64,
    pub items: Seq<Index>,
}

/// The slots of one shelf in the order in which they would be evicted.
pub open spec fn shelf_ranks(shelf: Shelf) -> Seq<Rank<Index>> {
    Seq::new(
        shelf.items.len(),
        |i: int|
            Rank { item: shelf.items[shelf.items.len() - 1 - i], count: shelf.count as nat },
    )
}

/// The slots of all shelves in the order in which they would be evicted.
pub open spec fn flat(shelves: Seq<Shelf>) -> Seq<Rank<Index>>
    decreases shelves.len(),
{
    if shelves.len() == 0 {
        Seq::empty()
    } else {
        flat(shelves.drop_last()) + shelf_ranks(shelves.last())
    }
}

/// The number of the shelf at position `b`, or the null index outside the list of shelves.
pub open spec fn slot_at(shelves: Seq<Shelf>, b: int) -> Index {
    if 0 <= b < shelves.len() {
        shelves[b].slot
    } else {
        NULL_IDX
    }
}

/// The head of shelf `b` points to its ends and its neighbours.
pub open spec fn slot_linked(freq: Seq<FreqSlot>, shelves: Seq<Shelf>, b: int) -> bool {
    let shelf = shelves[b];
    &&& shelf.slot < freq.len()
    &&& freq[shelf.slot as int].count == shelf.count
    &&& freq[shelf.slot as int].head == nth(shelf.items, 0)
    &&& freq[shelf.slot as int].tail == nth(shelf.items, shelf.items.len() - 1)
    &&& freq[shelf.slot as int].prev_slot == slot_at(shelves, b - 1)
    &&& freq[shelf.slot as int].next_slot == slot_at(shelves, b + 1)
}

/// The slot at position `p` of a shelf points to its neighbours and to the shelf.
pub open spec fn item_linked(links: Seq<Link>, shelf: Shelf, p: int) -> bool {
    let idx = shelf.items[p];
    &&& idx < links.len()
    &&& links[idx as int].prev == nth(shelf.items, p - 1)
    &&& links[idx as int].next == nth(shelf.items, p + 1)
    &&& links[idx as int].slot_index == shelf.slot
}

/// All slots of a shelf point to their neighbours, and none stands on it twice.
pub open spec fn shelf_linked(links: Seq<Link>, shelf: Shelf) -> bool {
    &&& shelf.items.no_duplicates()
    &&& forall|p: int| 0 <= p < shelf.items.len() ==> #[trigger] item_linked(links, shelf, p)
}

/// No two shelves share a number.
pub open spec fn slots_distinct(shelves: Seq<Shelf>) -> bool {
    forall|b: int, c: int|
        0 <= b < shelves.len() && 0 <= c < shelves.len() && b != c ==> (#[trigger] shelves[b]).slot
            != (#[trigger] shelves[c]).slot
}

/// The free shelf at position `i` points to the next one.
pub open spec fn spare_linked(freq: Seq<FreqSlot>, spare: Seq<Index>, i: int) -> bool {
    &&& spare[i] < freq.len()
    &&& freq[spare[i] as int].next_slot == nth(spare, i + 1)
}

/// A slot stands on one of the shelves.
pub open spec fn shelved(shelves: Seq<Shelf>, idx: Index) -> bool {
    exists|b: int, p: int|
        0 <= b < shelves.len() && 0 <= p < shelves[b].items.len() && #[trigger] shelves[b].items[p]
            == idx
}

/// The shelves stand in the order of their counts.
pub open spec fn shelves_rise(shelves: Seq<Shelf>) -> bool {
    forall|b: int, c: int|
        0 <= b < c < shelves.len() ==> (#[trigger] shelves[b]).count < (
        #[trigger] shelves[c]).count
}

/// A shelf with other slots on it.
pub open spec fn with_items(shelf: Shelf, items: Seq<Index>) -> Shelf {
    Shelf { slot: shelf.slot, count: shelf.count, items }
}

/// The shelves once shelf `b` has been emptied onto the head of shelf `a`.
pub open spec fn merged(shelves: Seq<Shelf>, a: int, b: int) -> Seq<Shelf> {
    shelves.update(a, with_items(shelves[a], shelves[b].items + shelves[a].items)).update(
        b,
        with_items(shelves[b], Seq::empty()),
    )
}

/// The ranking of two runs of shelves is the ranking of the first, then that of the second.
proof fn lemma_flat_add(a: Seq<Shelf>, b: Seq<Shelf>)
    ensures
        flat(a + b) == flat(a) + flat(b),
    decreases b.len(),
{
    if b.len() == 0 {
        assert(a + b =~= a);
        assert(flat(a) + flat(b) =~= flat(a));
    } else {
        assert((a + b).drop_last() =~= a + b.drop_last());
        lemma_flat_add(a, b.drop_last());
        assert(flat(a + b) =~= flat(a) + flat(b));
    }
}

/// The ranking falls into what stands before shelf `b`, on it and behind it.
proof fn lemma_flat_split(shelves: Seq<Shelf>, b: int)
    requires
        0 <= b < shelves.len(),
    ensures
        flat(shelves) == flat(shelves.take(b)) + shelf_ranks(shelves[b]) + flat(
            shelves.skip(b + 1),
        ),
{
    let one = seq![shelves[b]];
    assert(shelves =~= shelves.take(b) + one + shelves.skip(b + 1));
    lemma_flat_add(shelves.take(b) + one, shelves.skip(b + 1));
    lemma_flat_add(shelves.take(b), one);
    reveal_with_fuel(flat, 2);
    assert(flat(one) =~= shelf_ranks(shelves[b]));
}

/// Where a slot of shelf `b` stands in the ranking.
spec fn position(shelves: Seq<Shelf>, b: int, p: int) -> int {
    flat(shelves.take(b)).len() + shelves[b].items.len() - 1 - p
}

/// A slot of shelf `b` stands in the ranking where `position` says.
proof fn lemma_position(shelves: Seq<Shelf>, b: int, p: int)
    requires
        0 <= b < shelves.len(),
        0 <= p < shelves[b].items.len(),
    ensures
        0 <= position(shelves, b, p) < flat(shelves).len(),
        flat(shelves)[position(shelves, b, p)].item == shelves[b].items[p],
        flat(shelves)[position(shelves, b, p)].count == shelves[b].count,
{
    lemma_flat_split(shelves, b);
}

/// Every place in the ranking is one on a shelf.
proof fn lemma_position_inverse(shelves: Seq<Shelf>, i: int) -> (bp: (int, int))
    requires
        0 <= i < flat(shelves).len(),
    ensures
        0 <= bp.0 < shelves.len(),
        0 <= bp.1 < shelves[bp.0].items.len(),
        position(shelves, bp.0, bp.1) == i,
    decreases shelves.len(),
{
    let last = shelves.len() - 1;
    let front = shelves.drop_last();
    assert(shelves.take(last) =~= front);
    if i < flat(front).len() {
        let (b, p) = lemma_position_inverse(front, i);
        assert(front.take(b) =~= shelves.take(b));
        (b, p)
    } else {
        (last, flat(shelves).len() - 1 - i)
    }
}

/// Every slot in the ranking stands on a shelf, and the other way round.
proof fn lemma_shelved(shelves: Seq<Shelf>, idx: Index)
    ensures
        shelved(shelves, idx) <==> ranked(flat(shelves), idx),
{
    if shelved(shelves, idx) {
        let (b, p) = choose|b: int, p: int|
            0 <= b < shelves.len() && 0 <= p < shelves[b].items.len()
                && #[trigger] shelves[b].items[p] == idx;
        lemma_position(shelves, b, p);
        assert(flat(shelves)[position(shelves, b, p)].item == idx);
    }
    if ranked(flat(shelves), idx) {
        let i = choose|i: int|
            0 <= i < flat(shelves).len() && (#[trigger] flat(shelves)[i]).item == idx;
        let (b, p) = lemma_position_inverse(shelves, i);
        lemma_position(shelves, b, p);
        assert(shelves[b].items[p] == idx);
    }
}

/// Shelves that are not empty are no more than the slots on them.
proof fn lemma_shelves_bound(shelves: Seq<Shelf>)
    requires
        forall|b: int| 0 <= b < shelves.len() ==> (#[trigger] shelves[b]).items.len() > 0,
    ensures
        shelves.len() <= flat(shelves).len(),
    decreases shelves.len(),
{
    if shelves.len() > 0 {
        let front = shelves.drop_last();
        assert forall|b: int| 0 <= b < front.len() implies (#[trigger] front[b]).items.len()
            > 0 by {
            assert(front[b] == shelves[b]);
        }
        assert(shelves[shelves.len() - 1].items.len() > 0);
        lemma_shelves_bound(front);
    }
}

/// Taking a slot off a shelf takes it out of the ranking.
proof fn lemma_flat_sever(shelves: Seq<Shelf>, b: int, p: int)
    requires
        0 <= b < shelves.len(),
        0 <= p < shelves[b].items.len(),
    ensures
        flat(shelves.update(b, with_items(shelves[b], shelves[b].items.remove(p)))) == flat(
            shelves,
        ).remove(position(shelves, b, p)),
{
    let shelf = with_items(shelves[b], shelves[b].items.remove(p));
    let after = shelves.update(b, shelf);
    lemma_flat_split(shelves, b);
    lemma_flat_split(after, b);
    assert(after.take(b) =~= shelves.take(b));
    assert(after.skip(b + 1) =~= shelves.skip(b + 1));
    assert(shelf_ranks(shelf) =~= shelf_ranks(shelves[b]).remove(shelves[b].items.len() - 1 - p));
    assert(flat(after) =~= flat(shelves).remove(position(shelves, b, p)));
}

/// Putting a slot at the head of a shelf places it in the ranking by the shelf's count.
proof fn lemma_flat_front(shelves: Seq<Shelf>, b: int, idx: Index)
    requires
        0 <= b < shelves.len(),
        shelves_rise(shelves),
    ensures
        flat(shelves.update(b, with_items(shelves[b], seq![idx] + shelves[b].items))) == place(
            flat(shelves),
            idx,
            shelves[b].count as nat,
        ),
{
    let count = shelves[b].count as nat;
    let shelf = with_items(shelves[b], seq![idx] + shelves[b].items);
    let after = shelves.update(b, shelf);
    lemma_flat_split(shelves, b);
    lemma_flat_split(after, b);
    assert(after.take(b) =~= shelves.take(b));
    assert(after.skip(b + 1) =~= shelves.skip(b + 1));
    assert(shelf_ranks(shelf) =~= shelf_ranks(shelves[b]).push(Rank { item: idx, count }));
    let low = flat(shelves.take(b));
    let mid = shelf_ranks(shelves[b]);
    let high = flat(shelves.skip(b + 1));
    assert forall|i: int| 0 <= i < low.len() implies (#[trigger] low[i]).count <= count by {
        let (c, q) = lemma_position_inverse(shelves.take(b), i);
        lemma_position(shelves.take(b), c, q);
        assert(shelves.take(b)[c] == shelves[c]);
        assert(shelves[c].count < shelves[b].count);
    }
    lemma_used_at_most_all(low, count);
    lemma_used_at_most_all(mid, count);
    assert forall|i: int| 0 <= i < high.len() implies (#[trigger] high[i]).count > count by {
        let (c, q) = lemma_position_inverse(shelves.skip(b + 1), i);
        lemma_position(shelves.skip(b + 1), c, q);
        assert(shelves.skip(b + 1)[c] == shelves[c + b + 1]);
        assert(shelves[b].count < shelves[c + b + 1].count);
    }
    lemma_used_at_most_none(high, count);
    lemma_used_at_most_add(low, mid, count);
    lemma_used_at_most_add(low + mid, high, count);
    assert(used_at_most(flat(shelves), count) == low.len() + mid.len());
    assert(flat(after) =~= place(flat(shelves), idx, count));
}

/// An empty shelf adds nothing to the ranking.
proof fn lemma_flat_empty(shelves: Seq<Shelf>, b: int)
    requires
        0 <= b < shelves.len(),
        shelves[b].items.len() == 0,
    ensures
        flat(shelves.remove(b)) == flat(shelves),
{
    lemma_flat_split(shelves, b);
    assert(shelves.remove(b) =~= shelves.take(b) + shelves.skip(b + 1));
    lemma_flat_add(shelves.take(b), shelves.skip(b + 1));
    assert(shelf_ranks(shelves[b]) =~= Seq::<Rank<Index>>::empty());
    assert(flat(shelves.remove(b)) =~= flat(shelves));
}

/// One more shelf comes last in the ranking.
proof fn lemma_flat_push(shelves: Seq<Shelf>, shelf: Shelf)
    ensures
        flat(shelves.push(shelf)) == flat(shelves) + shelf_ranks(shelf),
{
    assert(shelves.push(shelf).drop_last() =~= shelves);
}

/// Aging works shelf by shelf.
proof fn lemma_aged_push(shelves: Seq<Shelf>, shelf: Shelf)
    ensures
        forall|half: u64|
            half == halved(shelf.count as nat) ==> aged(flat(shelves.push(shelf))) == aged(
                flat(shelves),
            ) + #[trigger] shelf_ranks(Shelf { slot: shelf.slot, count: half, items: shelf.items }),
{
    lemma_flat_push(shelves, shelf);
    assert forall|half: u64| half == halved(shelf.count as nat) implies aged(
        flat(shelves.push(shelf)),
    ) == aged(flat(shelves)) + #[trigger] shelf_ranks(
        Shelf { slot: shelf.slot, count: half, items: shelf.items },
    ) by {
        assert(aged(flat(shelves.push(shelf))) =~= aged(flat(shelves)) + shelf_ranks(
            Shelf { slot: shelf.slot, count: half, items: shelf.items },
        ));
    }
}

/// Slots put in front of others on a shelf come behind them in the ranking.
proof fn lemma_flat_merged(shelves: Seq<Shelf>, shelf: Shelf, items: Seq<Index>)
    ensures
        flat(shelves.push(with_items(shelf, items + shelf.items))) == flat(shelves.push(shelf))
            + shelf_ranks(with_items(shelf, items)),
{
    lemma_flat_push(shelves, shelf);
    lemma_flat_push(shelves, with_items(shelf, items + shelf.items));
    assert(shelf_ranks(with_items(shelf, items + shelf.items)) =~= shelf_ranks(shelf)
        + shelf_ranks(with_items(shelf, items)));
    assert(flat(shelves.push(with_items(shelf, items + shelf.items))) =~= flat(shelves.push(shelf))
        + shelf_ranks(with_items(shelf, items)));
}

/// A new, empty shelf whose count fits between its neighbours' leaves the order and the ranking as
/// they are.
proof fn lemma_shelf_inserted(shelves: Seq<Shelf>, b: int, shelf: Shelf)
    requires
        0 <= b <= shelves.len(),
        shelves_rise(shelves),
        shelf.items.len() == 0,
        b > 0 ==> shelves[b - 1].count < shelf.count,
        b < shelves.len() ==> shelf.count < shelves[b].count,
    ensures
        shelves_rise(shelves.insert(b, shelf)),
        flat(shelves.insert(b, shelf)) == flat(shelves),
{
    let after = shelves.insert(b, shelf);
    assert(after.remove(b) =~= shelves);
    lemma_flat_empty(after, b);
    assert forall|c: int, d: int| 0 <= c < d < after.len() implies (#[trigger] after[c]).count < (
    #[trigger] after[d]).count by {
        if c != b {
            assert(after[c] == shelves[if c < b { c } else { c - 1 }]);
        }
        if d != b {
            assert(after[d] == shelves[if d < b { d } else { d - 1 }]);
        }
        if c == b {
            assert(shelves[b].count <= shelves[d - 1].count);
        } else if d == b {
            assert(shelves[c].count <= shelves[b - 1].count);
        }
    }
}

/// The rank occurs somewhere.
spec fn holds(ranks: Seq<Rank<Index>>, rank: Rank<Index>) -> bool {
    exists|i: int| 0 <= i < ranks.len() && ranks[i] == rank
}

/// The slots alone, without their counts.
pub open spec fn items_of(uses: Seq<Rank<Index>>) -> Seq<Index> {
    Seq::new(uses.len(), |i: int| uses[i].item)
}

/// Slots sorted by how often they have been used.
pub struct FreqList {
    links: Vec<Link>,
    freq_slots: Vec<FreqSlot>,
    free_freq_slot: Index,
    frequency_head: Index,
    recency: SlotOrder,
    shelves: Ghost<Seq<Shelf>>,
    spare: Ghost<Seq<Index>>,
    uses: Ghost<Seq<Rank<Index>>>,
}

impl FreqList {
    /// All links agree with the shelves, some of which may be empty and out of order.
    #[verifier::opaque]
    spec fn linked(&self) -> bool {
        let links = self.links@;
        let freq = self.freq_slots@;
        let shelves = self.shelves@;
        let spare = self.spare@;
        &&& links.len() < NULL_IDX
        &&& freq.len() == shelves.len() + spare.len()
        &&& freq.len() <= NULL_IDX
        &&& self.frequency_head == slot_at(shelves, 0)
        &&& self.free_freq_slot == nth(spare, 0)
        &&& slots_distinct(shelves)
        &&& spare.no_duplicates()
        &&& forall|b: int, i: int|
            0 <= b < shelves.len() && 0 <= i < spare.len() ==> (#[trigger] shelves[b]).slot
                != #[trigger] spare[i]
        &&& forall|b: int|
            0 <= b < shelves.len() ==> #[trigger] slot_linked(freq, shelves, b)
        &&& forall|b: int|
            0 <= b < shelves.len() ==> shelf_linked(links, #[trigger] shelves[b])
        &&& forall|i: int|
            0 <= i < spare.len() ==> #[trigger] spare_linked(freq, spare, i)
    }

    /// Takes a slot off its shelf, which may be left empty.
    #[verifier::spinoff_prover]
    #[verifier::rlimit(60)]
    fn sever_link(&mut self, idx: Index, Ghost(b): Ghost<int>, Ghost(p): Ghost<int>)
        requires
            old(self).linked(),
            0 <= b < old(self).shelves@.len(),
            0 <= p < old(self).shelves@[b].items.len(),
            old(self).shelves@[b].items[p] == idx,
        ensures
            final(self).recency == old(self).recency,
            final(self).freq_slots@.len() == old(self).freq_slots@.len(),
            final(self).uses == old(self).uses,
            final(self).linked(),
            final(self).spare@ == old(self).spare@,
            final(self).links@.len() == old(self).links@.len(),
            final(self).shelves@ == old(self).shelves@.update(
                b,
                with_items(old(self).shelves@[b], old(self).shelves@[b].items.remove(p)),
            ),
    {
        let ghost links0 = self.links@;
        let ghost freq0 = self.freq_slots@;
        let ghost shelves0 = self.shelves@;
        let ghost shelf0 = shelves0[b];
        let ghost items0 = shelf0.items;
        proof {
            reveal(FreqList::linked);
            assert(shelf_linked(links0, shelves0[b]));
            assert(item_linked(links0, shelf0, p));
            assert(slot_linked(freq0, shelves0, b));
            if p > 0 {
                assert(item_linked(links0, shelf0, p - 1));
            }
            if p + 1 < items0.len() {
                assert(item_linked(links0, shelf0, p + 1));
            }
        }
        let link = self.links[idx as usize];
        let prev = link.prev;
        let slot = link.slot_index;
        let next = link.next;
        if prev != NULL_IDX {
            self.links[prev as usize].next = next;
        } else {
            self.freq_slots[slot as usize].head = next;
        }
        if next != NULL_IDX {
            self.links[next as usize].prev = prev;
        } else {
            self.freq_slots[slot as usize].tail = prev;
        }
        proof {
            let shelf1 = with_items(shelf0, items0.remove(p));
            let items1 = shelf1.items;
            self.shelves@ = shelves0.update(b, shelf1);
            let shelves1 = self.shelves@;
            let links1 = self.links@;
            let freq1 = self.freq_slots@;
            assert forall|c: int| 0 <= c < shelves1.len() implies #[trigger] slot_linked(
                freq1,
                shelves1,
                c,
            ) by {
                assert(slot_linked(freq0, shelves0, c));
            }
            assert forall|c: int| 0 <= c < shelves1.len() implies shelf_linked(
                links1,
                #[trigger] shelves1[c],
            ) by {
                assert(shelf_linked(links0, shelves0[c]));
                if c == b {
                    assert forall|q: int| 0 <= q < items1.len() implies #[trigger] item_linked(
                        links1,
                        shelf1,
                        q,
                    ) by {
                        let q0 = if q < p {
                            q
                        } else {
                            q + 1
                        };
                        assert(item_linked(links0, shelf0, q0));
                        assert(items1[q] == items0[q0]);
                    }
                } else {
                    assert forall|q: int| 0 <= q < shelves1[c].items.len() implies
                        #[trigger] item_linked(links1, shelves1[c], q) by {
                        assert(item_linked(links0, shelves0[c], q));
                    }
                }
            }
            assert forall|i: int| 0 <= i < self.spare@.len() implies #[trigger] spare_linked(
                freq1,
                self.spare@,
                i,
            ) by {
                assert(spare_linked(freq0, self.spare@, i));
                assert(shelves0[b].slot != self.spare@[i]);
            }
        }
    }

    /// Puts a slot that stands on no shelf at the head of shelf `b`.
    #[verifier::spinoff_prover]
    #[verifier::rlimit(60)]
    fn link_front(&mut self, idx: Index, slot_idx: Index, Ghost(b): Ghost<int>)
        requires
            old(self).linked(),
            idx < old(self).links@.len(),
            !shelved(old(self).shelves@, idx),
            0 <= b < old(self).shelves@.len(),
            old(self).shelves@[b].slot == slot_idx,
        ensures
            final(self).recency == old(self).recency,
            final(self).freq_slots@.len() == old(self).freq_slots@.len(),
            final(self).uses == old(self).uses,
            final(self).linked(),
            final(self).spare@ == old(self).spare@,
            final(self).links@.len() == old(self).links@.len(),
            final(self).shelves@ == old(self).shelves@.update(
                b,
                with_items(old(self).shelves@[b], seq![idx] + old(self).shelves@[b].items),
            ),
    {
        let ghost links0 = self.links@;
        let ghost freq0 = self.freq_slots@;
        let ghost shelves0 = self.shelves@;
        let ghost shelf0 = shelves0[b];
        let ghost items0 = shelf0.items;
        proof {
            reveal(FreqList::linked);
            assert(shelf_linked(links0, shelves0[b]));
            assert(slot_linked(freq0, shelves0, b));
            if items0.len() > 0 {
                assert(item_linked(links0, shelf0, 0));
            }
        }
        let head = self.freq_slots[slot_idx as usize].head;
        self.links[idx as usize] = Link { prev: NULL_IDX, next: head, slot_index: slot_idx };
        if head != NULL_IDX {
            self.links[head as usize].prev = idx;
        } else {
            self.freq_slots[slot_idx as usize].tail = idx;
        }
        self.freq_slots[slot_idx as usize].head = idx;
        proof {
            let shelf1 = with_items(shelf0, seq![idx] + items0);
            let items1 = shelf1.items;
            self.shelves@ = shelves0.update(b, shelf1);
            let shelves1 = self.shelves@;
            let links1 = self.links@;
            let freq1 = self.freq_slots@;
            assert forall|c: int| 0 <= c < shelves1.len() implies #[trigger] slot_linked(
                freq1,
                shelves1,
                c,
            ) by {
                assert(slot_linked(freq0, shelves0, c));
            }
            assert forall|c: int| 0 <= c < shelves1.len() implies shelf_linked(
                links1,
                #[trigger] shelves1[c],
            ) by {
                assert(shelf_linked(links0, shelves0[c]));
                if c == b {
                    assert forall|q: int, r: int|
                        0 <= q < items1.len() && 0 <= r < items1.len() && q != r implies items1[q]
                        != items1[r] by {
                        if q > 0 {
                            assert(items1[q] == shelves0[b].items[q - 1]);
                        }
                        if r > 0 {
                            assert(items1[r] == shelves0[b].items[r - 1]);
                        }
                    }
                    assert forall|q: int| 0 <= q < items1.len() implies #[trigger] item_linked(
                        links1,
                        shelf1,
                        q,
                    ) by {
                        if q > 0 {
                            assert(item_linked(links0, shelf0, q - 1));
                            assert(items1[q] == shelves0[b].items[q - 1]);
                        }
                    }
                } else {
                    assert forall|q: int| 0 <= q < shelves1[c].items.len() implies
                        #[trigger] item_linked(links1, shelves1[c], q) by {
                        assert(item_linked(links0, shelves0[c], q));
                        assert(shelves0[c].items[q] != idx);
                    }
                }
            }
            assert forall|i: int| 0 <= i < self.spare@.len() implies #[trigger] spare_linked(
                freq1,
                self.spare@,
                i,
            ) by {
                assert(spare_linked(freq0, self.spare@, i));
                assert(shelves0[b].slot != self.spare@[i]);
            }
        }
    }

    /// Hands out a shelf that is in no list: a free one, or else a new one.
    #[verifier::spinoff_prover]
    #[verifier::rlimit(60)]
    fn alloc_freq_slot(&mut self, count: u64) -> (slot: Index)
        requires
            old(self).linked(),
            old(self).spare@.len() == 0 ==> old(self).shelves@.len() < NULL_IDX,
        ensures
            final(self).recency == old(self).recency,
            final(self).uses == old(self).uses,
            final(self).links@ == old(self).links@,
            final(self).shelves@ == old(self).shelves@,
            final(self).frequency_head == old(self).frequency_head,
            slot < final(self).freq_slots@.len(),
            final(self).freq_slots@.len() <= NULL_IDX,
            final(self).freq_slots@[slot as int].count == count,
            final(self).freq_slots@[slot as int].head == NULL_IDX,
            final(self).freq_slots@[slot as int].tail == NULL_IDX,
            final(self).freq_slots@.len() == old(self).shelves@.len() + final(self).spare@.len()
                + 1,
            forall|i: int|
                0 <= i < old(self).freq_slots@.len() && i != slot ==> (
                #[trigger] final(self).freq_slots@[i]) == old(self).freq_slots@[i],
            old(self).spare@.len() > 0 ==> {
                &&& slot == old(self).spare@[0]
                &&& final(self).spare@ == old(self).spare@.drop_first()
                &&& final(self).freq_slots@.len() == old(self).freq_slots@.len()
            },
            old(self).spare@.len() == 0 ==> {
                &&& slot == old(self).freq_slots@.len()
                &&& final(self).spare@ == old(self).spare@
                &&& final(self).freq_slots@.len() == old(self).freq_slots@.len() + 1
            },
            forall|b: int|
                0 <= b < old(self).shelves@.len() ==> (#[trigger] old(self).shelves@[b]).slot
                    != slot,
            final(self).free_freq_slot == nth(final(self).spare@, 0),
            final(self).spare@.no_duplicates(),
            !final(self).spare@.contains(slot),
            forall|b: int, i: int|
                0 <= b < old(self).shelves@.len() && 0 <= i < final(self).spare@.len() ==> (
                #[trigger] old(self).shelves@[b]).slot != #[trigger] final(self).spare@[i],
            forall|i: int|
                0 <= i < final(self).spare@.len() ==> #[trigger] spare_linked(
                    final(self).freq_slots@,
                    final(self).spare@,
                    i,
                ),
    {
        let ghost freq0 = self.freq_slots@;
        let ghost spare0 = self.spare@;
        let ghost shelves0 = self.shelves@;
        proof {
            reveal(FreqList::linked);
        }
        if self.free_freq_slot == NULL_IDX {
            proof {
                if spare0.len() > 0 {
                    assert(spare_linked(freq0, spare0, 0));
                }
                assert forall|b: int| 0 <= b < shelves0.len() implies (
                #[trigger] shelves0[b]).slot != freq0.len() by {
                    assert(slot_linked(freq0, shelves0, b));
                }
            }
            self.freq_slots.push(FreqSlot::new(count));
            (self.freq_slots.len() - 1) as Index
        } else {
            let idx = self.free_freq_slot;
            assert(spare_linked(freq0, spare0, 0));
            self.free_freq_slot = self.freq_slots[idx as usize].next_slot;
            self.freq_slots[idx as usize] = FreqSlot::new(count);
            proof {
                let spare1 = spare0.drop_first();
                self.spare@ = spare1;
                assert forall|i: int| 0 <= i < spare1.len() implies #[trigger] spare_linked(
                    self.freq_slots@,
                    spare1,
                    i,
                ) by {
                    assert(spare_linked(freq0, spare0, i + 1));
                    assert(spare1[i] == spare0[i + 1]);
                }
                assert forall|b: int, i: int|
                    0 <= b < shelves0.len() && 0 <= i < spare1.len() implies (
                #[trigger] shelves0[b]).slot != #[trigger] spare1[i] by {
                    assert(spare1[i] == spare0[i + 1]);
                }
                assert(shelves0.len() > 0 ==> shelves0[0].slot != spare0[0]);
                assert forall|b: int| 0 <= b < shelves0.len() implies (
                #[trigger] shelves0[b]).slot != idx by {
                    assert(shelves0[b].slot != spare0[0]);
                }
            }
            idx
        }
    }

    /// Puts a new, empty shelf at position `b`, behind the shelf `previous`.
    #[verifier::spinoff_prover]
    #[verifier::rlimit(60)]
    fn insert_freq(&mut self, previous: Index, count: u64, Ghost(b): Ghost<int>) -> (slot: Index)
        requires
            old(self).linked(),
            old(self).spare@.len() == 0 ==> old(self).shelves@.len() < NULL_IDX,
            0 <= b <= old(self).shelves@.len(),
            previous == slot_at(old(self).shelves@, b - 1),
        ensures
            final(self).recency == old(self).recency,
            final(self).uses == old(self).uses,
            final(self).linked(),
            final(self).links@ == old(self).links@,
            final(self).shelves@ == old(self).shelves@.insert(
                b,
                Shelf { slot, count, items: Seq::empty() },
            ),
            old(self).spare@.len() > 0 ==> {
                &&& slot == old(self).spare@[0]
                &&& final(self).spare@ == old(self).spare@.drop_first()
                &&& final(self).freq_slots@.len() == old(self).freq_slots@.len()
            },
            old(self).spare@.len() == 0 ==> {
                &&& slot == old(self).freq_slots@.len()
                &&& final(self).spare@ == old(self).spare@
                &&& final(self).freq_slots@.len() == old(self).freq_slots@.len() + 1
            },
    {
        let ghost freq0 = self.freq_slots@;
        let ghost shelves0 = self.shelves@;
        proof {
            reveal(FreqList::linked);
            if b > 0 {
                assert(slot_linked(freq0, shelves0, b - 1));
            }
            if b < shelves0.len() {
                assert(slot_linked(freq0, shelves0, b));
            }
        }
        let slot = self.alloc_freq_slot(count);
        let ghost freq_mid = self.freq_slots@;
        let next = if previous != NULL_IDX {
            self.freq_slots[previous as usize].next_slot
        } else {
            self.frequency_head
        };
        assert(next == slot_at(shelves0, b));
        self.freq_slots[slot as usize].prev_slot = previous;
        self.freq_slots[slot as usize].next_slot = next;
        if previous != NULL_IDX {
            self.freq_slots[previous as usize].next_slot = slot;
        } else {
            self.frequency_head = slot;
        }
        if next != NULL_IDX {
            self.freq_slots[next as usize].prev_slot = slot;
        }
        proof {
            let shelves1 = shelves0.insert(b, Shelf { slot, count, items: Seq::empty() });
            self.shelves@ = shelves1;
            let freq1 = self.freq_slots@;
            assert forall|c: int, d: int|
                0 <= c < shelves1.len() && 0 <= d < shelves1.len() && c != d implies (
            #[trigger] shelves1[c]).slot != (#[trigger] shelves1[d]).slot by {
                let c0 = if c < b {
                    c
                } else {
                    c - 1
                };
                let d0 = if d < b {
                    d
                } else {
                    d - 1
                };
                if c != b {
                    assert(shelves1[c] == shelves0[c0]);
                }
                if d != b {
                    assert(shelves1[d] == shelves0[d0]);
                }
            }
            assert forall|c: int| 0 <= c < shelves1.len() implies #[trigger] slot_linked(
                freq1,
                shelves1,
                c,
            ) by {
                if c < b {
                    assert(slot_linked(freq0, shelves0, c));
                    assert(shelves0[c].slot != slot);
                } else if c > b {
                    assert(slot_linked(freq0, shelves0, c - 1));
                    assert(shelves0[c - 1].slot != slot);
                }
            }
            assert forall|c: int| 0 <= c < shelves1.len() implies shelf_linked(
                self.links@,
                #[trigger] shelves1[c],
            ) by {
                if c < b {
                    assert(shelf_linked(self.links@, shelves0[c]));
                } else if c > b {
                    assert(shelf_linked(self.links@, shelves0[c - 1]));
                }
            }
            assert forall|c: int, i: int|
                0 <= c < shelves1.len() && 0 <= i < self.spare@.len() implies (
            #[trigger] shelves1[c]).slot != #[trigger] self.spare@[i] by {
                if c < b {
                    assert(shelves0[c].slot != self.spare@[i]);
                } else if c > b {
                    assert(shelves0[c - 1].slot != self.spare@[i]);
                } else {
                    assert(self.spare@.contains(self.spare@[i]));
                }
            }
            assert forall|i: int| 0 <= i < self.spare@.len() implies #[trigger] spare_linked(
                freq1,
                self.spare@,
                i,
            ) by {
                assert(spare_linked(freq_mid, self.spare@, i));
                assert(self.spare@.contains(self.spare@[i]));
                if b > 0 {
                    assert(shelves0[b - 1].slot != self.spare@[i]);
                }
                if b < shelves0.len() {
                    assert(shelves0[b].slot != self.spare@[i]);
                }
            }
        }
        slot
    }

    /// Takes the empty shelf `b` out of the list of shelves and keeps it for later use.
    #[verifier::spinoff_prover]
    #[verifier::rlimit(60)]
    fn free_freq_slot(&mut self, idx: Index, Ghost(b): Ghost<int>)
        requires
            old(self).linked(),
            0 <= b < old(self).shelves@.len(),
            old(self).shelves@[b].slot == idx,
            old(self).shelves@[b].items.len() == 0,
        ensures
            final(self).recency == old(self).recency,
            final(self).uses == old(self).uses,
            final(self).linked(),
            final(self).links@ == old(self).links@,
            final(self).shelves@ == old(self).shelves@.remove(b),
            final(self).spare@ == seq![idx] + old(self).spare@,
            final(self).freq_slots@.len() == old(self).freq_slots@.len(),
    {
        let ghost freq0 = self.freq_slots@;
        let ghost shelves0 = self.shelves@;
        let ghost spare0 = self.spare@;
        proof {
            reveal(FreqList::linked);
            assert(slot_linked(freq0, shelves0, b));
            if b > 0 {
                assert(slot_linked(freq0, shelves0, b - 1));
            }
            if b + 1 < shelves0.len() {
                assert(slot_linked(freq0, shelves0, b + 1));
            }
            if spare0.len() > 0 {
                assert(spare_linked(freq0, spare0, 0));
            }
        }
        let slot = self.freq_slots[idx as usize];
        let prev = slot.prev_slot;
        let next = slot.next_slot;
        if prev != NULL_IDX {
            self.freq_slots[prev as usize].next_slot = next;
        } else {
            self.frequency_head = next;
        }
        if next != NULL_IDX {
            self.freq_slots[next as usize].prev_slot = prev;
        }
        self.freq_slots[idx as usize].next_slot = self.free_freq_slot;
        self.free_freq_slot = idx;
        proof {
            let shelves1 = shelves0.remove(b);
            let spare1 = seq![idx] + spare0;
            self.shelves@ = shelves1;
            self.spare@ = spare1;
            let freq1 = self.freq_slots@;
            assert forall|c: int, d: int|
                0 <= c < shelves1.len() && 0 <= d < shelves1.len() && c != d implies (
            #[trigger] shelves1[c]).slot != (#[trigger] shelves1[d]).slot by {
                let c0 = if c < b {
                    c
                } else {
                    c + 1
                };
                let d0 = if d < b {
                    d
                } else {
                    d + 1
                };
                assert(shelves1[c] == shelves0[c0]);
                assert(shelves1[d] == shelves0[d0]);
            }
            assert forall|c: int| 0 <= c < shelves1.len() implies #[trigger] slot_linked(
                freq1,
                shelves1,
                c,
            ) by {
                let c0 = if c < b {
                    c
                } else {
                    c + 1
                };
                assert(slot_linked(freq0, shelves0, c0));
                assert(shelves0[c0].slot != shelves0[b].slot);
            }
            assert forall|c: int| 0 <= c < shelves1.len() implies shelf_linked(
                self.links@,
                #[trigger] shelves1[c],
            ) by {
                let c0 = if c < b {
                    c
                } else {
                    c + 1
                };
                assert(shelf_linked(self.links@, shelves0[c0]));
            }
            assert forall|i: int, j: int|
                0 <= i < spare1.len() && 0 <= j < spare1.len() && i != j implies spare1[i]
                != spare1[j] by {
                if i > 0 {
                    assert(spare1[i] == spare0[i - 1]);
                    assert(shelves0[b].slot != spare0[i - 1]);
                }
                if j > 0 {
                    assert(spare1[j] == spare0[j - 1]);
                    assert(shelves0[b].slot != spare0[j - 1]);
                }
            }
            assert forall|c: int, i: int|
                0 <= c < shelves1.len() && 0 <= i < spare1.len() implies (
            #[trigger] shelves1[c]).slot != #[trigger] spare1[i] by {
                let c0 = if c < b {
                    c
                } else {
                    c + 1
                };
                assert(shelves1[c] == shelves0[c0]);
                if i > 0 {
                    assert(spare1[i] == spare0[i - 1]);
                    assert(shelves0[c0].slot != spare0[i - 1]);
                }
            }
            assert forall|i: int| 0 <= i < spare1.len() implies #[trigger] spare_linked(
                freq1,
                spare1,
                i,
            ) by {
                if i > 0 {
                    assert(spare_linked(freq0, spare0, i - 1));
                    assert(shelves0[b].slot != spare0[i - 1]);
                    if b > 0 {
                        assert(shelves0[b - 1].slot != spare0[i - 1]);
                    }
                    if b + 1 < shelves0.len() {
                        assert(shelves0[b + 1].slot != spare0[i - 1]);
                    }
                }
            }
        }
    }

    /// All links agree with the shelves, none of which is empty, and the shelves stand in the order
    /// of their counts. A new shelf is made only where no free one is left, so there are hardly more
    /// than slots.
    spec fn shelves_wf(&self) -> bool {
        &&& self.linked()
        &&& shelves_rise(self.shelves@)
        &&& forall|b: int|
            0 <= b < self.shelves@.len() ==> (#[trigger] self.shelves@[b]).items.len() > 0
                && self.shelves@[b].count >= 1
        &&& self.freq_slots@.len() <= self.links@.len() + 1
    }

    /// The invariant: the shelves hold the ranking that the uses make, and the slots stand in the
    /// order of their last use.
    pub closed spec fn wf(&self) -> bool {
        &&& self.shelves_wf()
        &&& self.recency.wf()
        &&& self.recency.slots() == self.links@.len()
        &&& self.recency.order() == items_of(self.uses@)
        &&& self.uses@.len() <= self.links@.len()
        &&& flat(self.shelves@) == filed(self.uses@)
    }

    /// The slots in the order of their last use.
    pub closed spec fn uses(&self) -> Seq<Rank<Index>> {
        self.uses@
    }

    /// The slots in the order in which they would be evicted.
    pub open spec fn ranks(&self) -> Seq<Rank<Index>> {
        filed(self.uses())
    }

    /// How many slots there are, used or not.
    pub closed spec fn slots(&self) -> nat {
        self.links@.len()
    }

    /// How many shelves have been made, free ones among them.
    pub closed spec fn shelves_made(&self) -> nat {
        self.freq_slots@.len()
    }

    /// What the head of shelf `b` says.
    proof fn lemma_slot(&self, b: int)
        requires
            self.linked(),
            0 <= b < self.shelves@.len(),
        ensures
            slot_linked(self.freq_slots@, self.shelves@, b),
            self.shelves@[b].slot != NULL_IDX,
            self.freq_slots@[self.shelves@[b].slot as int].head == NULL_IDX
                <==> self.shelves@[b].items.len() == 0,
    {
        reveal(FreqList::linked);
        let shelf = self.shelves@[b];
        assert(slot_linked(self.freq_slots@, self.shelves@, b));
        assert(shelf_linked(self.links@, self.shelves@[b]));
        if shelf.items.len() > 0 {
            assert(item_linked(self.links@, shelf, 0));
        }
    }

    /// What the link of a slot on shelf `b` says.
    proof fn lemma_item(&self, b: int, p: int)
        requires
            self.linked(),
            0 <= b < self.shelves@.len(),
            0 <= p < self.shelves@[b].items.len(),
        ensures
            item_linked(self.links@, self.shelves@[b], p),
            self.links@.len() < NULL_IDX,
    {
        reveal(FreqList::linked);
        assert(shelf_linked(self.links@, self.shelves@[b]));
    }

    /// No slot stands in two places.
    proof fn lemma_apart(&self, b: int, p: int, c: int, q: int)
        requires
            self.linked(),
            0 <= b < self.shelves@.len(),
            0 <= p < self.shelves@[b].items.len(),
            0 <= c < self.shelves@.len(),
            0 <= q < self.shelves@[c].items.len(),
            self.shelves@[b].items[p] == self.shelves@[c].items[q],
        ensures
            b == c,
            p == q,
    {
        reveal(FreqList::linked);
        let shelves = self.shelves@;
        assert(shelf_linked(self.links@, shelves[b]));
        assert(shelf_linked(self.links@, shelves[c]));
        assert(item_linked(self.links@, shelves[b], p));
        assert(item_linked(self.links@, shelves[c], q));
        assert(shelves[b].slot == shelves[c].slot);
    }

    /// A slot taken off its shelf stands on none.
    proof fn lemma_severed(&self, b: int, p: int)
        requires
            self.linked(),
            0 <= b < self.shelves@.len(),
            0 <= p < self.shelves@[b].items.len(),
        ensures
            !shelved(
                self.shelves@.update(
                    b,
                    with_items(self.shelves@[b], self.shelves@[b].items.remove(p)),
                ),
                self.shelves@[b].items[p],
            ),
    {
        let idx = self.shelves@[b].items[p];
        let after = self.shelves@.update(
            b,
            with_items(self.shelves@[b], self.shelves@[b].items.remove(p)),
        );
        if shelved(after, idx) {
            let (c, q) = choose|c: int, q: int|
                0 <= c < after.len() && 0 <= q < after[c].items.len()
                    && #[trigger] after[c].items[q] == idx;
            let q0 = if c == b && q >= p {
                q + 1
            } else {
                q
            };
            assert(self.shelves@[c].items[q0] == idx);
            self.lemma_apart(b, p, c, q0);
        }
    }

    /// No slot has two uses.
    proof fn lemma_uses(&self)
        requires
            self.wf(),
        ensures
            distinct(self.uses@),
            self.recency.order().no_duplicates(),
            self.links@.len() < NULL_IDX,
            self.freq_slots@.len() == self.shelves@.len() + self.spare@.len(),
            self.shelves@.len() <= self.uses@.len(),
    {
        reveal(FreqList::linked);
        self.recency.lemma_order();
        let uses = self.uses@;
        assert forall|i: int, j: int|
            0 <= i < uses.len() && 0 <= j < uses.len() && i != j implies (
        #[trigger] uses[i]).item != (#[trigger] uses[j]).item by {
            assert(self.recency.order()[i] != self.recency.order()[j]);
        }
        lemma_shelves_bound(self.shelves@);
        lemma_filed_rising(uses);
    }

    /// Where a slot that has been used stands.
    proof fn lemma_used_at(&self, idx: Index) -> (found: (int, int, int))
        requires
            self.wf(),
            ranked(self.uses@, idx),
        ensures
            0 <= found.0 < self.shelves@.len(),
            0 <= found.1 < self.shelves@[found.0].items.len(),
            self.shelves@[found.0].items[found.1] == idx,
            0 <= found.2 < self.uses@.len(),
            self.uses@[found.2].item == idx,
            self.uses@[found.2].count == self.shelves@[found.0].count,
            0 <= position(self.shelves@, found.0, found.1) < flat(self.shelves@).len(),
            flat(self.shelves@)[position(self.shelves@, found.0, found.1)].item == idx,
            filed(self.uses@.remove(found.2)) == flat(self.shelves@).remove(
                position(self.shelves@, found.0, found.1),
            ),
            self.recency.order()[found.2] == idx,
            self.recency.order().contains(idx),
    {
        let uses = self.uses@;
        let shelves = self.shelves@;
        self.lemma_uses();
        let u = choose|u: int| 0 <= u < uses.len() && (#[trigger] uses[u]).item == idx;
        let r = lemma_filed_to(uses, u);
        let (b, p) = lemma_position_inverse(shelves, r);
        lemma_position(shelves, b, p);
        lemma_filed_removed(uses, u, r);
        assert(self.recency.order()[u] == idx);
        (b, p, u)
    }

    /// Raises the count of a slot by one.
    #[verifier::spinoff_prover]
    #[verifier::rlimit(60)]
    pub fn bump(&mut self, idx: Index)
        requires
            old(self).wf(),
            ranked(old(self).uses(), idx),
            forall|u: int|
                0 <= u < old(self).uses().len() && (#[trigger] old(self).uses()[u]).item == idx
                    ==> old(self).uses()[u].count < u64::MAX,
        ensures
            final(self).wf(),
            final(self).slots() == old(self).slots(),
            forall|u: int|
                0 <= u < old(self).uses().len() && (#[trigger] old(self).uses()[u]).item == idx
                    ==> final(self).uses() == reused(old(self).uses(), u),
    {
        let ghost s0 = self.shelves@;
        let ghost (b, p, u) = self.lemma_used_at(idx);
        proof {
            self.lemma_uses();
            self.lemma_item(b, p);
            self.lemma_slot(b);
            self.lemma_severed(b, p);
        }
        let current_slot = self.links[idx as usize].slot_index;
        let current_count = self.freq_slots[current_slot as usize].count;
        self.sever_link(idx, Ghost(b), Ghost(p));
        let ghost s1 = self.shelves@;
        proof {
            lemma_flat_sever(s0, b, p);
            self.lemma_slot(b);
            if b + 1 < s1.len() {
                self.lemma_slot(b + 1);
            }
        }
        let next_slot = self.freq_slots[current_slot as usize].next_slot;
        let next_idx = if next_slot != NULL_IDX && self.freq_slots[next_slot as usize].count
            == current_count + 1 {
            next_slot
        } else {
            let slot = self.insert_freq(current_slot, current_count + 1, Ghost(b + 1));
            proof {
                lemma_shelf_inserted(s1, b + 1, self.shelves@[b + 1]);
            }
            slot
        };
        let ghost s2 = self.shelves@;
        proof {
            lemma_shelved(s1, idx);
            lemma_shelved(s2, idx);
        }
        self.link_front(idx, next_idx, Ghost(b + 1));
        let ghost s3 = self.shelves@;
        proof {
            lemma_flat_front(s2, b + 1, idx);
            self.lemma_slot(b);
        }
        if self.freq_slots[current_slot as usize].head == NULL_IDX {
            proof {
                lemma_flat_empty(s3, b);
            }
            self.free_freq_slot(current_slot, Ghost(b));
        }
        let ghost order0 = self.recency.order();
        self.recency.unlink(idx);
        proof {
            assert(self.recency.order() == order0.remove(u));
            assert forall|i: int| 0 <= i < self.recency.order().len() implies
                #[trigger] self.recency.order()[i] != idx by {
                assert(self.recency.order()[i] == order0[if i < u {
                    i
                } else {
                    i + 1
                }]);
            }
        }
        self.recency.push(idx);
        proof {
            let uses0 = self.uses@;
            let uses1 = reused(uses0, u);
            assert(uses1.drop_last() =~= uses0.remove(u));
            assert(self.recency.order() =~= items_of(uses1));
            self.uses@ = uses1;
            assert(self.linked()) by {
                reveal(FreqList::linked);
            }
        }
    }

    /// Adds a slot that is not ranked yet, as used once.
    #[verifier::spinoff_prover]
    #[verifier::rlimit(60)]
    pub fn new_link(&mut self, idx: Index)
        requires
            old(self).wf(),
            old(self).uses().len() < old(self).slots(),
            idx < old(self).slots(),
            !ranked(old(self).uses(), idx),
        ensures
            final(self).wf(),
            final(self).slots() == old(self).slots(),
            final(self).uses() == old(self).uses().push(Rank { item: idx, count: 1 }),
    {
        let ghost s0 = self.shelves@;
        proof {
            self.lemma_uses();
            lemma_filed_distinct(self.uses@);
            lemma_shelved(s0, idx);
            if s0.len() > 0 {
                self.lemma_slot(0);
            }
            assert(self.frequency_head == slot_at(s0, 0)) by {
                reveal(FreqList::linked);
            }
        }
        let head = self.frequency_head;
        let new_idx = if head != NULL_IDX && self.freq_slots[head as usize].count == 1 {
            head
        } else {
            let slot = self.insert_freq(NULL_IDX, 1, Ghost(0));
            proof {
                lemma_shelf_inserted(s0, 0, self.shelves@[0]);
            }
            slot
        };
        let ghost s1 = self.shelves@;
        proof {
            lemma_shelved(s1, idx);
            lemma_flat_front(s1, 0, idx);
        }
        self.link_front(idx, new_idx, Ghost(0));
        proof {
            assert forall|i: int| 0 <= i < self.recency.order().len() implies
                #[trigger] self.recency.order()[i] != idx by {
                assert(self.uses@[i].item != idx);
            }
        }
        self.recency.push(idx);
        proof {
            let uses0 = self.uses@;
            let uses1 = uses0.push(Rank { item: idx, count: 1 });
            assert(uses1.drop_last() =~= uses0);
            assert(self.recency.order() =~= items_of(uses1));
            self.uses@ = uses1;
            assert(self.linked()) by {
                reveal(FreqList::linked);
            }
        }
    }

    /// Takes a slot out of the ranking.
    #[verifier::spinoff_prover]
    #[verifier::rlimit(60)]
    pub fn unlink(&mut self, idx: Index)
        requires
            old(self).wf(),
            ranked(old(self).uses(), idx),
        ensures
            final(self).wf(),
            final(self).slots() == old(self).slots(),
            forall|u: int|
                0 <= u < old(self).uses().len() && (#[trigger] old(self).uses()[u]).item == idx
                    ==> final(self).uses() == old(self).uses().remove(u),
    {
        let ghost s0 = self.shelves@;
        let ghost (b, p, u) = self.lemma_used_at(idx);
        proof {
            self.lemma_uses();
            self.lemma_item(b, p);
            self.lemma_slot(b);
        }
        let slot_idx = self.links[idx as usize].slot_index;
        self.sever_link(idx, Ghost(b), Ghost(p));
        let ghost s1 = self.shelves@;
        proof {
            lemma_flat_sever(s0, b, p);
            self.lemma_slot(b);
        }
        if self.freq_slots[slot_idx as usize].head == NULL_IDX {
            proof {
                lemma_flat_empty(s1, b);
            }
            self.free_freq_slot(slot_idx, Ghost(b));
        }
        let ghost order0 = self.recency.order();
        self.recency.unlink(idx);
        proof {
            let uses1 = self.uses@.remove(u);
            assert(self.recency.order() == order0.remove(u));
            assert(self.recency.order() =~= items_of(uses1));
            self.uses@ = uses1;
            assert(self.linked()) by {
                reveal(FreqList::linked);
            }
        }
    }

    /// The slot that would be evicted next, or the null index where there is none.
    pub fn lowest(&self) -> (idx: Index)
        requires
            self.wf(),
        ensures
            self.uses().len() == 0 <==> idx == NULL_IDX,
            self.uses().len() > 0 ==> idx == self.ranks()[0].item && idx < self.slots(),
    {
        let ghost shelves = self.shelves@;
        proof {
            self.lemma_uses();
            lemma_filed_rising(self.uses@);
            reveal(FreqList::linked);
            if shelves.len() > 0 {
                self.lemma_slot(0);
                self.lemma_item(0, shelves[0].items.len() - 1);
                lemma_position(shelves, 0, shelves[0].items.len() - 1);
                assert(shelves.take(0) =~= Seq::<Shelf>::empty());
            }
        }
        if self.frequency_head == NULL_IDX {
            NULL_IDX
        } else {
            self.freq_slots[self.frequency_head as usize].tail
        }
    }

    /// Gives shelf `b` another count.
    fn set_count(&mut self, slot: Index, count: u64, Ghost(b): Ghost<int>)
        requires
            old(self).linked(),
            0 <= b < old(self).shelves@.len(),
            old(self).shelves@[b].slot == slot,
        ensures
            final(self).recency == old(self).recency,
            final(self).freq_slots@.len() == old(self).freq_slots@.len(),
            final(self).spare@ == old(self).spare@,
            final(self).uses == old(self).uses,
            final(self).linked(),
            final(self).links@ == old(self).links@,
            final(self).shelves@ == old(self).shelves@.update(
                b,
                Shelf { slot, count, items: old(self).shelves@[b].items },
            ),
    {
        let ghost freq0 = self.freq_slots@;
        let ghost shelves0 = self.shelves@;
        proof {
            reveal(FreqList::linked);
            assert(slot_linked(freq0, shelves0, b));
        }
        self.freq_slots[slot as usize].count = count;
        proof {
            let shelf1 = Shelf { slot, count, items: shelves0[b].items };
            let shelves1 = shelves0.update(b, shelf1);
            self.shelves@ = shelves1;
            let freq1 = self.freq_slots@;
            assert forall|c: int| 0 <= c < shelves1.len() implies #[trigger] slot_linked(
                freq1,
                shelves1,
                c,
            ) by {
                assert(slot_linked(freq0, shelves0, c));
            }
            assert forall|c: int| 0 <= c < shelves1.len() implies shelf_linked(
                self.links@,
                #[trigger] shelves1[c],
            ) by {
                assert(shelf_linked(self.links@, shelves0[c]));
                if c == b {
                    assert forall|q: int| 0 <= q < shelf1.items.len() implies #[trigger] item_linked(
                        self.links@,
                        shelf1,
                        q,
                    ) by {
                        assert(item_linked(self.links@, shelves0[b], q));
                    }
                }
            }
            assert forall|i: int| 0 <= i < self.spare@.len() implies #[trigger] spare_linked(
                freq1,
                self.spare@,
                i,
            ) by {
                assert(spare_linked(freq0, self.spare@, i));
                assert(shelves0[b].slot != self.spare@[i]);
            }
        }
    }

    /// Moves all slots of shelf `b` to the head of shelf `a`.
    #[verifier::spinoff_prover]
    #[verifier::rlimit(60)]
    fn merge_after_aging(
        &mut self,
        dst: Index,
        src: Index,
        Ghost(a): Ghost<int>,
        Ghost(b): Ghost<int>,
    )
        requires
            old(self).linked(),
            0 <= a < old(self).shelves@.len(),
            0 <= b < old(self).shelves@.len(),
            a != b,
            old(self).shelves@[a].slot == dst,
            old(self).shelves@[b].slot == src,
        ensures
            final(self).recency == old(self).recency,
            final(self).freq_slots@.len() == old(self).freq_slots@.len(),
            final(self).spare@ == old(self).spare@,
            final(self).uses == old(self).uses,
            final(self).linked(),
            final(self).links@.len() == old(self).links@.len(),
            final(self).shelves@ == merged(old(self).shelves@, a, b),
    {
        let ghost links0 = self.links@;
        let ghost freq0 = self.freq_slots@;
        let ghost shelves0 = self.shelves@;
        let ghost from = shelves0[b].items;
        let ghost onto = shelves0[a].items;
        proof {
            self.lemma_slot(b);
            self.lemma_slot(a);
            if from.len() > 0 {
                self.lemma_item(b, from.len() - 1);
            }
            if onto.len() > 0 {
                self.lemma_item(a, 0);
            }
        }
        let s_head = self.freq_slots[src as usize].head;
        let s_tail = self.freq_slots[src as usize].tail;
        if s_head == NULL_IDX {
            proof {
                assert(merged(shelves0, a, b) =~= shelves0) by {
                    assert(from + onto =~= onto);
                    assert(from =~= Seq::empty());
                }
            }
            return ;
        }
        let mut curr = s_head;
        let ghost mut k: int = 0;
        while curr != NULL_IDX
            invariant
                0 <= k <= from.len(),
                old(self).linked(),
                old(self).links@ == links0,
                old(self).shelves@ == shelves0,
                0 <= b < shelves0.len(),
                shelves0[b].items == from,
                curr == nth(from, k),
                self.freq_slots == old(self).freq_slots,
                self.shelves == old(self).shelves,
                self.spare == old(self).spare,
                self.recency == old(self).recency,
                self.uses == old(self).uses,
                self.free_freq_slot == old(self).free_freq_slot,
                self.frequency_head == old(self).frequency_head,
                self.links@.len() == links0.len(),
                forall|i: int|
                    0 <= i < links0.len() ==> #[trigger] self.links@[i] == (Link {
                        slot_index: if from.take(k).contains(i as Index) {
                            dst
                        } else {
                            links0[i].slot_index
                        },
                        ..links0[i]
                    }),
            decreases from.len() - k,
        {
            proof {
                old(self).lemma_item(b, k);
            }
            self.links[curr as usize].slot_index = dst;
            curr = self.links[curr as usize].next;
            proof {
                assert(from.take(k + 1) =~= from.take(k).push(from[k]));
                assert(from.take(k + 1)[k] == from[k]);
                assert forall|i: int| 0 <= i < links0.len() implies #[trigger] self.links@[i] == (
                Link {
                    slot_index: if from.take(k + 1).contains(i as Index) {
                        dst
                    } else {
                        links0[i].slot_index
                    },
                    ..links0[i]
                }) by {
                    if from.take(k).contains(i as Index) {
                        let q = choose|q: int| 0 <= q < k && from.take(k)[q] == i as Index;
                        assert(from.take(k + 1)[q] == i as Index);
                    }
                }
                k = k + 1;
            }
        }
        proof {
            if k < from.len() {
                old(self).lemma_item(b, k);
            }
            assert(from.take(k) =~= from);
        }
        let d_head = self.freq_slots[dst as usize].head;
        self.links[s_tail as usize].next = d_head;
        if d_head != NULL_IDX {
            self.links[d_head as usize].prev = s_tail;
        } else {
            self.freq_slots[dst as usize].tail = s_tail;
        }
        self.freq_slots[dst as usize].head = s_head;
        self.freq_slots[src as usize].head = NULL_IDX;
        self.freq_slots[src as usize].tail = NULL_IDX;
        proof {
            let shelves1 = merged(shelves0, a, b);
            self.shelves@ = shelves1;
            self.lemma_merged(*old(self), a, b);
        }
    }

    /// Joining the links of two shelves merges the shelves.
    #[verifier::spinoff_prover]
    #[verifier::rlimit(60)]
    proof fn lemma_merged(&self, before: Self, a: int, b: int)
        requires
            before.linked(),
            0 <= a < before.shelves@.len(),
            0 <= b < before.shelves@.len(),
            a != b,
            before.shelves@[b].items.len() > 0,
            self.shelves@ == merged(before.shelves@, a, b),
            self.spare@ == before.spare@,
            self.free_freq_slot == before.free_freq_slot,
            self.frequency_head == before.frequency_head,
            self.links@.len() == before.links@.len(),
            self.freq_slots@.len() == before.freq_slots@.len(),
            ({
                let from = before.shelves@[b].items;
                let onto = before.shelves@[a].items;
                let src = before.shelves@[b].slot as int;
                let dst = before.shelves@[a].slot as int;
                &&& forall|i: int|
                    0 <= i < before.links@.len() ==> #[trigger] self.links@[i] == (Link {
                        prev: if i == nth(onto, 0) {
                            from.last()
                        } else {
                            before.links@[i].prev
                        },
                        next: if i == from.last() {
                            nth(onto, 0)
                        } else {
                            before.links@[i].next
                        },
                        slot_index: if from.contains(i as Index) {
                            dst as Index
                        } else {
                            before.links@[i].slot_index
                        },
                    })
                &&& forall|i: int|
                    0 <= i < before.freq_slots@.len() ==> #[trigger] self.freq_slots@[i] == if i
                        == src {
                        FreqSlot { head: NULL_IDX, tail: NULL_IDX, ..before.freq_slots@[i] }
                    } else if i == dst {
                        FreqSlot {
                            head: from[0],
                            tail: if onto.len() > 0 {
                                onto.last()
                            } else {
                                from.last()
                            },
                            ..before.freq_slots@[i]
                        }
                    } else {
                        before.freq_slots@[i]
                    }
            }),
        ensures
            self.linked(),
    {
        reveal(FreqList::linked);
        let shelves0 = before.shelves@;
        let shelves1 = self.shelves@;
        let from = shelves0[b].items;
        let onto = shelves0[a].items;
        let all = from + onto;
        let joined = shelves1[a];
        assert(slot_linked(before.freq_slots@, shelves0, b));
        assert(slot_linked(before.freq_slots@, shelves0, a));
        assert forall|c: int| 0 <= c < shelves1.len() implies #[trigger] slot_linked(
            self.freq_slots@,
            shelves1,
            c,
        ) by {
            assert(slot_linked(before.freq_slots@, shelves0, c));
        }
        assert forall|c: int| 0 <= c < shelves1.len() implies shelf_linked(
            self.links@,
            #[trigger] shelves1[c],
        ) by {
            if c == a {
                assert forall|q: int, r: int|
                    0 <= q < all.len() && 0 <= r < all.len() && q != r implies all[q] != all[r] by {
                    if all[q] == all[r] {
                        let (cq, pq) = if q < from.len() {
                            (b, q)
                        } else {
                            (a, q - from.len())
                        };
                        let (cr, pr) = if r < from.len() {
                            (b, r)
                        } else {
                            (a, r - from.len())
                        };
                        assert(all[q] == shelves0[cq].items[pq]);
                        assert(all[r] == shelves0[cr].items[pr]);
                        before.lemma_apart(cq, pq, cr, pr);
                    }
                }
                assert forall|q: int| 0 <= q < all.len() implies #[trigger] item_linked(
                    self.links@,
                    joined,
                    q,
                ) by {
                    if q < from.len() {
                        before.lemma_item(b, q);
                        assert(from.contains(from[q]));
                        assert(all[q] == from[q]);
                        if onto.len() > 0 && from[q] == onto[0] {
                            before.lemma_apart(b, q, a, 0);
                        }
                        if from[q] == from.last() {
                            before.lemma_apart(b, q, b, from.len() - 1);
                        }
                    } else {
                        let r = q - from.len();
                        before.lemma_item(a, r);
                        assert(all[q] == onto[r]);
                        if onto[r] == onto[0] {
                            before.lemma_apart(a, r, a, 0);
                        }
                        if from.contains(onto[r]) {
                            let t = choose|t: int| 0 <= t < from.len() && from[t] == onto[r];
                            before.lemma_apart(b, t, a, r);
                        }
                        if onto[r] == from.last() {
                            before.lemma_apart(b, from.len() - 1, a, r);
                        }
                    }
                }
            } else if c != b {
                assert(shelf_linked(before.links@, shelves0[c]));
                assert forall|q: int| 0 <= q < shelves1[c].items.len() implies
                    #[trigger] item_linked(self.links@, shelves1[c], q) by {
                    let idx = shelves0[c].items[q];
                    before.lemma_item(c, q);
                    if onto.len() > 0 && idx == onto[0] {
                        before.lemma_apart(c, q, a, 0);
                    }
                    if idx == from.last() {
                        before.lemma_apart(c, q, b, from.len() - 1);
                    }
                    if from.contains(idx) {
                        let t = choose|t: int| 0 <= t < from.len() && from[t] == idx;
                        before.lemma_apart(c, q, b, t);
                    }
                }
            }
        }
        assert forall|i: int| 0 <= i < self.spare@.len() implies #[trigger] spare_linked(
            self.freq_slots@,
            self.spare@,
            i,
        ) by {
            assert(spare_linked(before.freq_slots@, self.spare@, i));
            assert(shelves0[b].slot != self.spare@[i]);
            assert(shelves0[a].slot != self.spare@[i]);
        }
        assert forall|c: int, i: int|
            0 <= c < shelves1.len() && 0 <= i < self.spare@.len() implies (
        #[trigger] shelves1[c]).slot != #[trigger] self.spare@[i] by {
            assert(shelves0[c].slot != self.spare@[i]);
        }
    }

    /// Halves every count, down to one at least, and merges shelves whose counts have met.
    #[verifier::spinoff_prover]
    #[verifier::rlimit(60)]
    fn halve(&mut self)
        requires
            old(self).shelves_wf(),
        ensures
            final(self).shelves_wf(),
            final(self).links@.len() == old(self).links@.len(),
            final(self).recency == old(self).recency,
            final(self).uses == old(self).uses,
            flat(final(self).shelves@) == aged(flat(old(self).shelves@)),
    {
        let ghost all = self.shelves@;
        let ghost mut seen: int = 0;
        let ghost mut done: int = 0;
        let mut slot = self.frequency_head;
        let mut kept = NULL_IDX;
        proof {
            reveal(FreqList::linked);
            assert(aged(flat(all.take(0))) =~= flat(self.shelves@.take(0)));
        }
        while slot != NULL_IDX
            invariant
                self.linked(),
                self.links@.len() == old(self).links@.len(),
                self.freq_slots@.len() <= self.links@.len() + 1,
                self.recency == old(self).recency,
                self.uses == old(self).uses,
                shelves_rise(all),
                forall|c: int| 0 <= c < all.len() ==> (#[trigger] all[c]).items.len() > 0,
                0 <= done <= seen <= all.len(),
                done == 0 <==> seen == 0,
                self.shelves@.len() == done + all.len() - seen,
                forall|c: int| seen <= c < all.len() ==> self.shelves@[done + c - seen] == (
                #[trigger] all[c]),
                shelves_rise(self.shelves@.take(done)),
                forall|c: int|
                    0 <= c < done ==> (#[trigger] self.shelves@[c]).items.len() > 0
                        && self.shelves@[c].count >= 1,
                done > 0 ==> self.shelves@[done - 1].count == halved(all[seen - 1].count as nat),
                flat(self.shelves@.take(done)) == aged(flat(all.take(seen))),
                slot == slot_at(self.shelves@, done),
                kept == slot_at(self.shelves@, done - 1),
            decreases all.len() - seen,
        {
            let ghost s0 = self.shelves@;
            proof {
                self.lemma_slot(done);
                if done > 0 {
                    self.lemma_slot(done - 1);
                    assert(all[seen - 1].count < all[seen].count);
                }
                if done + 1 < s0.len() {
                    self.lemma_slot(done + 1);
                }
                assert(s0[done] == all[seen]);
                assert(all.take(seen + 1) =~= all.take(seen).push(all[seen]));
                lemma_aged_push(all.take(seen), all[seen]);
            }
            let next = self.freq_slots[slot as usize].next_slot;
            let count = self.freq_slots[slot as usize].count;
            let half = if count / 2 >= 1 {
                count / 2
            } else {
                1
            };
            self.set_count(slot, half, Ghost(done));
            let ghost s1 = self.shelves@;
            proof {
                self.lemma_slot(done);
                if done > 0 {
                    self.lemma_slot(done - 1);
                }
                assert(s1.take(done) =~= s0.take(done));
            }
            if kept != NULL_IDX && self.freq_slots[kept as usize].count == half {
                self.merge_after_aging(kept, slot, Ghost(done - 1), Ghost(done));
                self.free_freq_slot(slot, Ghost(done));
                proof {
                    let s2 = self.shelves@;
                    let front = s1.take(done - 1);
                    assert(s1.take(done) =~= front.push(s1[done - 1]));
                    assert(s2.take(done) =~= front.push(
                        with_items(s1[done - 1], s1[done].items + s1[done - 1].items),
                    ));
                    lemma_flat_merged(front, s1[done - 1], s1[done].items);
                    assert(shelf_ranks(with_items(s1[done - 1], s1[done].items)) =~= shelf_ranks(
                        s1[done],
                    ));
                    assert forall|c: int, d: int| 0 <= c < d < done implies (#[trigger] s2.take(
                        done,
                    )[c]).count < (#[trigger] s2.take(done)[d]).count by {
                        assert(s1.take(done)[c].count < s1.take(done)[d].count);
                    }
                    seen = seen + 1;
                }
            } else {
                kept = slot;
                proof {
                    assert(s1.take(done + 1) =~= s1.take(done).push(s1[done]));
                    lemma_flat_push(s1.take(done), s1[done]);
                    assert forall|c: int, d: int| 0 <= c < d < done + 1 implies (#[trigger] s1.take(
                        done + 1,
                    )[c]).count < (#[trigger] s1.take(done + 1)[d]).count by {
                        if d < done {
                            assert(s0.take(done)[c].count < s0.take(done)[d].count);
                        } else if c < done - 1 {
                            assert(s0.take(done)[c].count < s0.take(done)[done - 1].count);
                        }
                    }
                    seen = seen + 1;
                    done = done + 1;
                }
            }
            slot = next;
        }
        proof {
            if done < self.shelves@.len() {
                self.lemma_slot(done);
            }
            assert(self.shelves@.take(done) =~= self.shelves@);
            assert(all.take(seen) =~= all);
        }
    }

    /// Halves every count, and sorts slots whose counts have met by their last use.
    #[verifier::spinoff_prover]
    #[verifier::rlimit(60)]
    pub fn age(&mut self)
        requires
            old(self).wf(),
        ensures
            final(self).wf(),
            final(self).slots() == old(self).slots(),
            final(self).uses() == aged(old(self).uses()),
    {
        let ghost uses = aged(self.uses@);
        proof {
            self.lemma_uses();
            lemma_filed_rising(self.uses@);
            lemma_aged_rising(filed(self.uses@));
            lemma_filed_distinct(self.uses@);
            lemma_aged_distinct(filed(self.uses@));
            lemma_aged_distinct(self.uses@);
            lemma_filed_sorted(aged(filed(self.uses@)));
        }
        self.halve();
        let ghost mut mixed = aged(filed(self.uses@));
        let ghost mut done: int = 0;
        proof {
            assert forall|i: int| 0 <= i < uses.len() implies #[trigger] holds(mixed, uses[i]) by {
                let r = lemma_filed_to(self.uses@, i);
                assert(mixed[r] == uses[i]);
            }
            assert(mixed.skip(mixed.len() as int) =~= uses.take(0));
        }
        let mut idx = self.recency.oldest();
        while idx != NULL_IDX
            invariant
                self.shelves_wf(),
                self.links@.len() == old(self).links@.len(),
                self.recency == old(self).recency,
                self.uses == old(self).uses,
                self.recency.wf(),
                uses == aged(self.uses@),
                self.recency.order() == items_of(self.uses@),
                distinct(uses),
                distinct(mixed),
                mixed.len() == uses.len(),
                0 <= done <= uses.len(),
                idx == nth(self.recency.order(), done),
                mixed.skip(uses.len() - done) == uses.take(done),
                forall|i: int| 0 <= i < uses.len() ==> #[trigger] holds(mixed, uses[i]),
                flat(self.shelves@) == filed(mixed),
            decreases uses.len() - done,
        {
            let ghost s0 = self.shelves@;
            let ghost order = self.recency.order();
            proof {
                self.recency.lemma_order();
                assert(done < uses.len());
                assert(order[done] == idx);
                assert(holds(mixed, uses[done]));
            }
            let ghost m = choose|m: int| 0 <= m < mixed.len() && mixed[m] == uses[done];
            let ghost r = lemma_filed_to(mixed, m);
            let ghost (b, p) = lemma_position_inverse(s0, r);
            proof {
                lemma_position(s0, b, p);
                lemma_filed_removed(mixed, m, r);
                self.lemma_item(b, p);
                self.lemma_severed(b, p);
                lemma_flat_sever(s0, b, p);
                assert(m < uses.len() - done) by {
                    if m >= uses.len() - done {
                        let k = m - (uses.len() - done);
                        assert(mixed.skip(uses.len() - done)[k] == mixed[m]);
                        assert(uses.take(done)[k] == uses[k]);
                    }
                }
            }
            let slot = self.links[idx as usize].slot_index;
            let next = self.recency.newer(idx, Ghost(done));
            self.sever_link(idx, Ghost(b), Ghost(p));
            let ghost s1 = self.shelves@;
            self.link_front(idx, slot, Ghost(b));
            proof {
                lemma_flat_front(s1, b, idx);
                let after = mixed.remove(m).push(uses[done]);
                assert(after.drop_last() =~= mixed.remove(m));
                assert(flat(self.shelves@) == filed(after));
                lemma_removed_distinct(mixed, m);
                lemma_pushed_distinct(mixed.remove(m), uses[done]);
                assert forall|i: int| 0 <= i < uses.len() implies #[trigger] holds(
                    after,
                    uses[i],
                ) by {
                    assert(holds(mixed, uses[i]));
                    let k = choose|k: int| 0 <= k < mixed.len() && mixed[k] == uses[i];
                    if k < m {
                        assert(after[k] == uses[i]);
                    } else if k > m {
                        assert(after[k - 1] == uses[i]);
                    } else {
                        assert(after[after.len() - 1] == uses[i]);
                    }
                }
                let kept = mixed.skip(uses.len() - done);
                let left = uses.len() - done - 1;
                assert forall|i: int| 0 <= i < done + 1 implies #[trigger] after.skip(left)[i]
                    == uses.take(done + 1)[i] by {
                    if i < done {
                        assert(after[left + i] == mixed[left + i + 1]);
                        assert(kept[i] == mixed[left + 1 + i]);
                        assert(uses.take(done)[i] == uses[i]);
                    }
                }
                assert(after.skip(left) =~= uses.take(done + 1));
                mixed = after;
                done = done + 1;
            }
            idx = next;
        }
        proof {
            self.recency.lemma_order();
            assert(done == uses.len());
            assert(mixed =~= uses) by {
                assert(mixed.skip(0) =~= mixed);
                assert(uses.take(done) =~= uses);
            }
            assert(items_of(uses) =~= self.recency.order());
            self.uses@ = uses;
            assert(self.linked()) by {
                reveal(FreqList::linked);
            }
        }
    }

    /// A list without slots.
    pub fn new() -> (list: Self)
        ensures
            list.wf(),
            list.slots() == 0,
            list.uses() == Seq::<Rank<Index>>::empty(),
    {
        let list = FreqList {
            links: Vec::new(),
            freq_slots: Vec::new(),
            free_freq_slot: NULL_IDX,
            frequency_head: NULL_IDX,
            recency: SlotOrder::new(),
            shelves: Ghost(Seq::empty()),
            spare: Ghost(Seq::empty()),
            uses: Ghost(Seq::empty()),
        };
        proof {
            reveal(FreqList::linked);
            assert(list.recency.order() =~= items_of(list.uses@));
        }
        list
    }

    /// Drops all slots.
    pub fn clear(&mut self)
        ensures
            final(self).wf(),
            final(self).slots() == 0,
            final(self).uses() == Seq::<Rank<Index>>::empty(),
    {
        self.links.clear();
        self.freq_slots.clear();
        self.free_freq_slot = NULL_IDX;
        self.frequency_head = NULL_IDX;
        self.recency.clear();
        proof {
            reveal(FreqList::linked);
            self.shelves@ = Seq::empty();
            self.spare@ = Seq::empty();
            self.uses@ = Seq::empty();
            assert(self.recency.order() =~= items_of(self.uses@));
        }
    }

    /// Adds a slot at the end, which is not ranked yet.
    pub fn grow(&mut self)
        requires
            old(self).wf(),
            old(self).slots() + 1 < NULL_IDX,
        ensures
            final(self).wf(),
            final(self).slots() == old(self).slots() + 1,
            final(self).uses() == old(self).uses(),
    {
        let ghost links0 = self.links@;
        let ghost shelves = self.shelves@;
        self.links.push(Link { prev: NULL_IDX, next: NULL_IDX, slot_index: NULL_IDX });
        self.recency.grow();
        proof {
            reveal(FreqList::linked);
            assert forall|c: int| 0 <= c < shelves.len() implies shelf_linked(
                self.links@,
                #[trigger] shelves[c],
            ) by {
                assert(shelf_linked(links0, shelves[c]));
                assert forall|q: int| 0 <= q < shelves[c].items.len() implies
                    #[trigger] item_linked(self.links@, shelves[c], q) by {
                    assert(item_linked(links0, shelves[c], q));
                }
            }
        }
    }

    /// What all uses are: without duplicates, with counts of one at least, of slots that exist. There
    /// is at most one shelf more than there are slots.
    pub proof fn lemma_used(&self)
        requires
            self.wf(),
        ensures
            distinct(self.uses()),
            self.slots() < NULL_IDX,
            self.uses().len() <= self.slots(),
            self.shelves_made() <= self.slots() + 1,
            forall|u: int|
                0 <= u < self.uses().len() ==> 1 <= (#[trigger] self.uses()[u]).count <= u64::MAX
                    && self.uses()[u].item < self.slots(),
    {
        let uses = self.uses@;
        let shelves = self.shelves@;
        self.lemma_uses();
        assert forall|u: int| 0 <= u < uses.len() implies 1 <= (#[trigger] uses[u]).count
            <= u64::MAX && uses[u].item < self.slots() by {
            let r = lemma_filed_to(uses, u);
            let (b, p) = lemma_position_inverse(shelves, r);
            lemma_position(shelves, b, p);
            self.lemma_item(b, p);
        }
    }
}

impl Clone for FreqList {
    /// A list of the same slots in the same orders, with the same counts.
    fn clone(&self) -> (copy: Self)
        ensures
            self.wf() ==> copy.wf(),
            copy.slots() == self.slots(),
            copy.uses() == self.uses(),
    {
        let copy = FreqList {
            links: self.links.clone(),
            freq_slots: self.freq_slots.clone(),
            free_freq_slot: self.free_freq_slot,
            frequency_head: self.frequency_head,
            recency: self.recency.clone(),
            shelves: self.shelves,
            spare: self.spare,
            uses: self.uses,
        };
        proof {
            reveal(FreqList::linked);
            assert(copy.links@ =~= self.links@);
            assert(copy.freq_slots@ =~= self.freq_slots@);
        }
        copy
    }
}

} // verus!

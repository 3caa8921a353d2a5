//! Uses and the eviction order that they make, as sequences.
//!
//! The uses list everything that can be evicted in the order of its last use, each item with the
//! number of times it has been used. The ranking made from them lists the next victim first: it goes
//! by that number, and among items that have been used equally often by the last use.
use vstd::prelude::*;

verus! {

/// An item and how often it has been used.
pub struct Rank<T> {
    pub item: T,
    pub count: nat,
}

/// How many items of the ranking have been used at most `count` times.
pub open spec fn used_at_most<T>(ranks: Seq<Rank<T>>, count: nat) -> nat
    decreases ranks.len(),
{
    if ranks.len() == 0 {
        0
    } else {
        used_at_most(ranks.drop_last(), count) + if ranks.last().count <= count {
            1nat
        } else {
            0nat
        }
    }
}

/// The ranking with `item` put in behind everything that has been used at most `count` times.
pub open spec fn place<T>(ranks: Seq<Rank<T>>, item: T, count: nat) -> Seq<Rank<T>> {
    ranks.insert(used_at_most(ranks, count) as int, Rank { item, count })
}

/// The ranking that the uses make: by count, and for equal counts by last use.
pub open spec fn filed<T>(uses: Seq<Rank<T>>) -> Seq<Rank<T>>
    decreases uses.len(),
{
    if uses.len() == 0 {
        Seq::empty()
    } else {
        place(filed(uses.drop_last()), uses.last().item, uses.last().count)
    }
}

/// The uses after one more use of the item at position `i`.
pub open spec fn reused<T>(uses: Seq<Rank<T>>, i: int) -> Seq<Rank<T>> {
    uses.remove(i).push(Rank { item: uses[i].item, count: uses[i].count + 1 })
}

/// Half of a count, and one at least.
pub open spec fn halved(count: nat) -> nat {
    if count / 2 >= 1 {
        count / 2
    } else {
        1
    }
}

/// With every count halved.
pub open spec fn aged<T>(uses: Seq<Rank<T>>) -> Seq<Rank<T>> {
    Seq::new(uses.len(), |i: int| Rank { item: uses[i].item, count: halved(uses[i].count) })
}

/// The counts never fall from the front to the back.
pub open spec fn rising<T>(ranks: Seq<Rank<T>>) -> bool {
    forall|i: int, j: int|
        0 <= i <= j < ranks.len() ==> (#[trigger] ranks[i]).count <= (#[trigger] ranks[j]).count
}

/// No item occurs twice.
pub open spec fn distinct<T>(ranks: Seq<Rank<T>>) -> bool {
    forall|i: int, j: int|
        0 <= i < ranks.len() && 0 <= j < ranks.len() && i != j ==> (#[trigger] ranks[i]).item != (
        #[trigger] ranks[j]).item
}

/// The item occurs somewhere.
pub open spec fn ranked<T>(ranks: Seq<Rank<T>>, item: T) -> bool {
    exists|i: int| 0 <= i < ranks.len() && (#[trigger] ranks[i]).item == item
}

/// With every item exchanged for what `name` makes of it.
pub open spec fn renamed<T, U>(ranks: Seq<Rank<T>>, name: spec_fn(T) -> U) -> Seq<Rank<U>> {
    Seq::new(ranks.len(), |i: int| Rank { item: name(ranks[i].item), count: ranks[i].count })
}

/// No more items have been used at most so often than there are.
pub proof fn lemma_used_at_most_bound<T>(ranks: Seq<Rank<T>>, count: nat)
    ensures
        used_at_most(ranks, count) <= ranks.len(),
    decreases ranks.len(),
{
    if ranks.len() > 0 {
        lemma_used_at_most_bound(ranks.drop_last(), count);
    }
}

/// Where all items have been used at most `count` times, all are counted.
pub proof fn lemma_used_at_most_all<T>(ranks: Seq<Rank<T>>, count: nat)
    requires
        forall|i: int| 0 <= i < ranks.len() ==> (#[trigger] ranks[i]).count <= count,
    ensures
        used_at_most(ranks, count) == ranks.len(),
    decreases ranks.len(),
{
    if ranks.len() > 0 {
        assert(ranks[ranks.len() - 1].count <= count);
        assert forall|i: int| 0 <= i < ranks.drop_last().len() implies (
        #[trigger] ranks.drop_last()[i]).count <= count by {
            assert(ranks.drop_last()[i] == ranks[i]);
        }
        lemma_used_at_most_all(ranks.drop_last(), count);
    }
}

/// Where all items have been used more than `count` times, none is counted.
pub proof fn lemma_used_at_most_none<T>(ranks: Seq<Rank<T>>, count: nat)
    requires
        forall|i: int| 0 <= i < ranks.len() ==> (#[trigger] ranks[i]).count > count,
    ensures
        used_at_most(ranks, count) == 0,
    decreases ranks.len(),
{
    if ranks.len() > 0 {
        assert(ranks[ranks.len() - 1].count > count);
        assert forall|i: int| 0 <= i < ranks.drop_last().len() implies (
        #[trigger] ranks.drop_last()[i]).count > count by {
            assert(ranks.drop_last()[i] == ranks[i]);
        }
        lemma_used_at_most_none(ranks.drop_last(), count);
    }
}

/// Items are counted part by part.
pub proof fn lemma_used_at_most_add<T>(a: Seq<Rank<T>>, b: Seq<Rank<T>>, count: nat)
    ensures
        used_at_most(a + b, count) == used_at_most(a, count) + used_at_most(b, count),
    decreases b.len(),
{
    if b.len() == 0 {
        assert(a + b =~= a);
    } else {
        assert((a + b).drop_last() =~= a + b.drop_last());
        lemma_used_at_most_add(a, b.drop_last(), count);
    }
}

/// An item that is taken out is counted no longer.
pub proof fn lemma_used_at_most_removed<T>(ranks: Seq<Rank<T>>, r: int, count: nat)
    requires
        0 <= r < ranks.len(),
    ensures
        used_at_most(ranks, count) == used_at_most(ranks.remove(r), count) + if ranks[r].count
            <= count {
            1nat
        } else {
            0nat
        },
{
    let one = seq![ranks[r]];
    let low = ranks.take(r);
    let high = ranks.skip(r + 1);
    assert(ranks =~= low + one + high);
    assert(ranks.remove(r) =~= low + high);
    lemma_used_at_most_add(low + one, high, count);
    lemma_used_at_most_add(low, one, count);
    lemma_used_at_most_add(low, high, count);
    reveal_with_fuel(used_at_most, 2);
}

/// In a sorted ranking the items used at most `count` times are exactly those in front.
pub proof fn lemma_used_at_most_splits<T>(ranks: Seq<Rank<T>>, count: nat)
    requires
        rising(ranks),
    ensures
        used_at_most(ranks, count) <= ranks.len(),
        forall|i: int|
            0 <= i < ranks.len() ==> ((#[trigger] ranks[i]).count <= count <==> i < used_at_most(
                ranks,
                count,
            )),
    decreases ranks.len(),
{
    if ranks.len() > 0 {
        let front = ranks.drop_last();
        assert forall|i: int, j: int| 0 <= i <= j < front.len() implies (#[trigger] front[i]).count
            <= (#[trigger] front[j]).count by {
            assert(front[i] == ranks[i] && front[j] == ranks[j]);
        }
        lemma_used_at_most_splits(front, count);
        assert forall|i: int| 0 <= i < ranks.len() implies ((#[trigger] ranks[i]).count <= count
            <==> i < used_at_most(ranks, count)) by {
            if i < front.len() {
                assert(front[i] == ranks[i]);
                assert(ranks[i].count <= ranks[ranks.len() - 1].count);
            } else if front.len() > 0 {
                let k = front.len() - 1;
                assert(front[k] == ranks[k]);
                assert(ranks[k].count <= ranks[i].count);
            }
        }
    }
}

/// A sorted ranking stays sorted where an item is placed.
pub proof fn lemma_place_rising<T>(ranks: Seq<Rank<T>>, item: T, count: nat)
    requires
        rising(ranks),
    ensures
        rising(place(ranks, item, count)),
{
    lemma_used_at_most_splits(ranks, count);
    let at = used_at_most(ranks, count) as int;
    let after = place(ranks, item, count);
    assert forall|i: int, j: int| 0 <= i <= j < after.len() implies (#[trigger] after[i]).count <= (
    #[trigger] after[j]).count by {
        let i0 = if i < at {
            i
        } else {
            i - 1
        };
        let j0 = if j < at {
            j
        } else {
            j - 1
        };
        if i != at {
            assert(after[i] == ranks[i0]);
        }
        if j != at {
            assert(after[j] == ranks[j0]);
        }
    }
}

/// The ranking is sorted, and as long as the uses.
pub proof fn lemma_filed_rising<T>(uses: Seq<Rank<T>>)
    ensures
        filed(uses).len() == uses.len(),
        rising(filed(uses)),
    decreases uses.len(),
{
    if uses.len() > 0 {
        let front = filed(uses.drop_last());
        lemma_filed_rising(uses.drop_last());
        lemma_used_at_most_bound(front, uses.last().count);
        lemma_place_rising(front, uses.last().item, uses.last().count);
    }
}

/// Everything in the ranking comes from the uses.
pub proof fn lemma_filed_from<T>(uses: Seq<Rank<T>>, r: int) -> (i: int)
    requires
        0 <= r < filed(uses).len(),
    ensures
        0 <= i < uses.len(),
        uses[i] == filed(uses)[r],
    decreases uses.len(),
{
    lemma_filed_rising(uses);
    let front = filed(uses.drop_last());
    lemma_used_at_most_bound(front, uses.last().count);
    let at = used_at_most(front, uses.last().count) as int;
    lemma_filed_rising(uses.drop_last());
    if r == at {
        uses.len() - 1
    } else {
        let r0 = if r < at {
            r
        } else {
            r - 1
        };
        assert(filed(uses)[r] == front[r0]);
        lemma_filed_from(uses.drop_last(), r0)
    }
}

/// Every use has its place in the ranking.
pub proof fn lemma_filed_to<T>(uses: Seq<Rank<T>>, i: int) -> (r: int)
    requires
        0 <= i < uses.len(),
    ensures
        0 <= r < filed(uses).len(),
        uses[i] == filed(uses)[r],
    decreases uses.len(),
{
    lemma_filed_rising(uses);
    lemma_filed_rising(uses.drop_last());
    let front = filed(uses.drop_last());
    lemma_used_at_most_bound(front, uses.last().count);
    let at = used_at_most(front, uses.last().count) as int;
    if i == uses.len() - 1 {
        at
    } else {
        let r0 = lemma_filed_to(uses.drop_last(), i);
        let r = if r0 < at {
            r0
        } else {
            r0 + 1
        };
        assert(filed(uses)[r] == front[r0]);
        r
    }
}

/// The ranking holds the same items as the uses, each once.
pub proof fn lemma_filed_distinct<T>(uses: Seq<Rank<T>>)
    requires
        distinct(uses),
    ensures
        distinct(filed(uses)),
        forall|item: T| #[trigger] ranked(filed(uses), item) <==> ranked(uses, item),
    decreases uses.len(),
{
    let ranks = filed(uses);
    lemma_filed_rising(uses);
    assert forall|item: T| #[trigger] ranked(ranks, item) <==> ranked(uses, item) by {
        if ranked(ranks, item) {
            let r = choose|r: int| 0 <= r < ranks.len() && (#[trigger] ranks[r]).item == item;
            let i = lemma_filed_from(uses, r);
            assert(uses[i].item == item);
        }
        if ranked(uses, item) {
            let i = choose|i: int| 0 <= i < uses.len() && (#[trigger] uses[i]).item == item;
            let r = lemma_filed_to(uses, i);
            assert(ranks[r].item == item);
        }
    }
    if uses.len() > 0 {
        let front = uses.drop_last();
        assert forall|i: int, j: int|
            0 <= i < front.len() && 0 <= j < front.len() && i != j implies (
        #[trigger] front[i]).item != (#[trigger] front[j]).item by {
            assert(front[i] == uses[i] && front[j] == uses[j]);
        }
        lemma_filed_distinct(front);
        lemma_filed_rising(front);
        lemma_used_at_most_bound(filed(front), uses.last().count);
        let at = used_at_most(filed(front), uses.last().count) as int;
        assert forall|i: int, j: int|
            0 <= i < ranks.len() && 0 <= j < ranks.len() && i != j implies (
        #[trigger] ranks[i]).item != (#[trigger] ranks[j]).item by {
            let i0 = if i < at {
                i
            } else {
                i - 1
            };
            let j0 = if j < at {
                j
            } else {
                j - 1
            };
            if i != at {
                assert(ranks[i] == filed(front)[i0]);
                let k = lemma_filed_from(front, i0);
                assert(front[k] == uses[k]);
            }
            if j != at {
                assert(ranks[j] == filed(front)[j0]);
                let k = lemma_filed_from(front, j0);
                assert(front[k] == uses[k]);
            }
        }
    }
}

/// Of two items used equally often, the one in front in the ranking has been used less recently.
pub proof fn lemma_filed_ties<T>(uses: Seq<Rank<T>>, r: int, t: int) -> (ij: (int, int))
    requires
        0 <= r < t < filed(uses).len(),
        filed(uses)[r].count == filed(uses)[t].count,
    ensures
        0 <= ij.0 < ij.1 < uses.len(),
        uses[ij.0] == filed(uses)[r],
        uses[ij.1] == filed(uses)[t],
    decreases uses.len(),
{
    lemma_filed_rising(uses);
    let front = uses.drop_last();
    lemma_filed_rising(front);
    lemma_used_at_most_splits(filed(front), uses.last().count);
    let at = used_at_most(filed(front), uses.last().count) as int;
    let r0 = if r < at {
        r
    } else {
        r - 1
    };
    let t0 = if t < at {
        t
    } else {
        t - 1
    };
    if t != at {
        assert(filed(uses)[t] == filed(front)[t0]);
    }
    if r != at {
        assert(filed(uses)[r] == filed(front)[r0]);
    }
    if t == at {
        let i = lemma_filed_from(front, r0);
        (i, uses.len() - 1)
    } else {
        lemma_filed_ties(front, r0, t0)
    }
}

/// An item taken out of the uses is taken out of the ranking, and nothing else changes there.
pub proof fn lemma_filed_removed<T>(uses: Seq<Rank<T>>, i: int, r: int)
    requires
        distinct(uses),
        0 <= i < uses.len(),
        0 <= r < filed(uses).len(),
        filed(uses)[r].item == uses[i].item,
    ensures
        filed(uses)[r] == uses[i],
        filed(uses.remove(i)) == filed(uses).remove(r),
    decreases uses.len(),
{
    let k = lemma_filed_from(uses, r);
    assert(k == i);
    lemma_filed_rising(uses);
    lemma_filed_distinct(uses);
    let front = uses.drop_last();
    let last = uses.last();
    let ranks = filed(front);
    lemma_filed_rising(front);
    lemma_used_at_most_splits(ranks, last.count);
    let at = used_at_most(ranks, last.count) as int;
    if i == uses.len() - 1 {
        assert(filed(uses)[at].item == last.item);
        assert(r == at);
        assert(uses.remove(i) =~= front);
        assert(filed(uses).remove(r) =~= ranks);
    } else {
        assert forall|a: int, b: int|
            0 <= a < front.len() && 0 <= b < front.len() && a != b implies (
        #[trigger] front[a]).item != (#[trigger] front[b]).item by {
            assert(front[a] == uses[a] && front[b] == uses[b]);
        }
        assert(r != at);
        let r0 = if r < at {
            r
        } else {
            r - 1
        };
        assert(ranks[r0] == filed(uses)[r]);
        assert(front[i] == uses[i]);
        lemma_filed_removed(front, i, r0);
        let rest = uses.remove(i);
        assert(rest.drop_last() =~= front.remove(i));
        assert(rest.last() == last);
        lemma_used_at_most_removed(ranks, r0, last.count);
        assert(filed(rest) =~= filed(uses).remove(r));
    }
}

/// Uses that are sorted already are their own ranking.
pub proof fn lemma_filed_sorted<T>(ranks: Seq<Rank<T>>)
    requires
        rising(ranks),
    ensures
        filed(ranks) == ranks,
    decreases ranks.len(),
{
    if ranks.len() > 0 {
        let front = ranks.drop_last();
        assert forall|i: int, j: int| 0 <= i <= j < front.len() implies (#[trigger] front[i]).count
            <= (#[trigger] front[j]).count by {
            assert(front[i] == ranks[i] && front[j] == ranks[j]);
        }
        lemma_filed_sorted(front);
        assert forall|i: int| 0 <= i < front.len() implies (#[trigger] front[i]).count
            <= ranks.last().count by {
            assert(front[i] == ranks[i]);
            assert(ranks[i].count <= ranks[ranks.len() - 1].count);
        }
        lemma_used_at_most_all(front, ranks.last().count);
        assert(filed(ranks) =~= ranks);
    }
}

/// Names make no difference to the counts.
pub proof fn lemma_renamed_used_at_most<T, U>(
    ranks: Seq<Rank<T>>,
    name: spec_fn(T) -> U,
    count: nat,
)
    ensures
        used_at_most(renamed(ranks, name), count) == used_at_most(ranks, count),
    decreases ranks.len(),
{
    if ranks.len() > 0 {
        lemma_renamed_used_at_most(ranks.drop_last(), name, count);
        assert(renamed(ranks, name).drop_last() =~= renamed(ranks.drop_last(), name));
    }
}

/// Names make no difference to the ranking.
pub proof fn lemma_renamed_filed<T, U>(uses: Seq<Rank<T>>, name: spec_fn(T) -> U)
    ensures
        renamed(filed(uses), name) == filed(renamed(uses, name)),
    decreases uses.len(),
{
    if uses.len() == 0 {
        assert(renamed(filed(uses), name) =~= filed(renamed(uses, name)));
    } else {
        let front = uses.drop_last();
        lemma_renamed_filed(front, name);
        lemma_renamed_used_at_most(filed(front), name, uses.last().count);
        lemma_used_at_most_bound(filed(front), uses.last().count);
        assert(renamed(uses, name).drop_last() =~= renamed(front, name));
        assert(renamed(filed(uses), name) =~= filed(renamed(uses, name)));
    }
}

/// Taking an item out leaves the others.
pub proof fn lemma_removed_ranked<T>(ranks: Seq<Rank<T>>, r: int, item: T)
    requires
        distinct(ranks),
        0 <= r < ranks.len(),
    ensures
        ranked(ranks.remove(r), item) <==> ranked(ranks, item) && item != ranks[r].item,
{
    let rest = ranks.remove(r);
    if ranked(rest, item) {
        let q = choose|q: int| 0 <= q < rest.len() && (#[trigger] rest[q]).item == item;
        let q0 = if q < r {
            q
        } else {
            q + 1
        };
        assert(ranks[q0].item == item);
    }
    if ranked(ranks, item) && item != ranks[r].item {
        let q = choose|q: int| 0 <= q < ranks.len() && (#[trigger] ranks[q]).item == item;
        let q1 = if q < r {
            q
        } else {
            q - 1
        };
        assert(rest[q1].item == item);
    }
}

/// Taking an item out makes no duplicate.
pub proof fn lemma_removed_distinct<T>(ranks: Seq<Rank<T>>, r: int)
    requires
        distinct(ranks),
        0 <= r < ranks.len(),
    ensures
        distinct(ranks.remove(r)),
        !ranked(ranks.remove(r), ranks[r].item),
{
    let rest = ranks.remove(r);
    assert forall|i: int| 0 <= i < rest.len() implies #[trigger] rest[i] == ranks[if i < r {
        i
    } else {
        i + 1
    }] by {}
    lemma_removed_ranked(ranks, r, ranks[r].item);
}

/// Adding an item adds it and nothing else.
pub proof fn lemma_pushed_ranked<T>(ranks: Seq<Rank<T>>, rank: Rank<T>, item: T)
    ensures
        ranked(ranks.push(rank), item) <==> ranked(ranks, item) || item == rank.item,
{
    let after = ranks.push(rank);
    assert(after[ranks.len() as int] == rank);
    if ranked(after, item) {
        let q = choose|q: int| 0 <= q < after.len() && (#[trigger] after[q]).item == item;
        if q < ranks.len() {
            assert(ranks[q].item == item);
        }
    }
    if ranked(ranks, item) {
        let q = choose|q: int| 0 <= q < ranks.len() && (#[trigger] ranks[q]).item == item;
        assert(after[q].item == item);
    }
}

/// Adding a new item makes no duplicate.
pub proof fn lemma_pushed_distinct<T>(ranks: Seq<Rank<T>>, rank: Rank<T>)
    requires
        distinct(ranks),
        !ranked(ranks, rank.item),
    ensures
        distinct(ranks.push(rank)),
{
    let after = ranks.push(rank);
    assert forall|i: int| 0 <= i < ranks.len() implies #[trigger] after[i] == ranks[i] by {}
}

/// A use keeps the items, each once.
pub proof fn lemma_reused_distinct<T>(uses: Seq<Rank<T>>, i: int)
    requires
        distinct(uses),
        0 <= i < uses.len(),
    ensures
        reused(uses, i).len() == uses.len(),
        distinct(reused(uses, i)),
        forall|item: T| #[trigger] ranked(reused(uses, i), item) <==> ranked(uses, item),
{
    let rank = Rank { item: uses[i].item, count: uses[i].count + 1 };
    lemma_removed_distinct(uses, i);
    lemma_pushed_distinct(uses.remove(i), rank);
    assert forall|item: T| #[trigger] ranked(reused(uses, i), item) <==> ranked(uses, item) by {
        lemma_removed_ranked(uses, i, item);
        lemma_pushed_ranked(uses.remove(i), rank, item);
    }
}

/// Aging keeps the items, each once.
pub proof fn lemma_aged_distinct<T>(uses: Seq<Rank<T>>)
    requires
        distinct(uses),
    ensures
        distinct(aged(uses)),
        forall|item: T| #[trigger] ranked(aged(uses), item) <==> ranked(uses, item),
{
    assert forall|i: int, j: int|
        0 <= i < uses.len() && 0 <= j < uses.len() && i != j implies (
    #[trigger] aged(uses)[i]).item != (#[trigger] aged(uses)[j]).item by {
        assert(uses[i].item != uses[j].item);
    }
    assert forall|item: T| #[trigger] ranked(aged(uses), item) <==> ranked(uses, item) by {
        if ranked(uses, item) {
            let r = choose|r: int| 0 <= r < uses.len() && (#[trigger] uses[r]).item == item;
            assert(aged(uses)[r].item == item);
        }
        if ranked(aged(uses), item) {
            let r = choose|r: int| 0 <= r < uses.len() && (#[trigger] aged(uses)[r]).item == item;
            assert(uses[r].item == item);
        }
    }
}

/// Aging keeps what is sorted sorted.
pub proof fn lemma_aged_rising<T>(ranks: Seq<Rank<T>>)
    requires
        rising(ranks),
    ensures
        rising(aged(ranks)),
{
    assert forall|i: int, j: int| 0 <= i <= j < ranks.len() implies (
    #[trigger] aged(ranks)[i]).count <= (#[trigger] aged(ranks)[j]).count by {
        assert(ranks[i].count <= ranks[j].count);
    }
}

} // verus!

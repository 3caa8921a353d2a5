//! Laws of the cache.
//!
//! They speak of the states that the operations of `LfuCache` start from and lead to, by the same
//! functions as the operations' own contracts. Keys are looked up by any type that tells them apart.
use crate::cache::{clamped, LfuCache, DEFAULT_CAPACITY, MAX_CAPACITY};
use crate::iter::{IntoIter, Iter, IterMut, Keys, Values, ValuesMut};
use crate::keys::{borrows_apart, key_is, lemma_borrows_itself_apart};
use crate::model::{keyed, rank_keyed, used_now, LfuView};
use crate::ranking::{
    distinct, filed, halved, lemma_aged_distinct, lemma_filed_distinct, lemma_filed_from,
    lemma_filed_removed, lemma_filed_rising, lemma_filed_ties, lemma_filed_to,
    lemma_pushed_distinct, lemma_pushed_ranked, lemma_removed_distinct, lemma_removed_ranked,
    lemma_reused_distinct, lemma_used_at_most_splits, ranked, reused, used_at_most, Rank,
};
use core::hash::{BuildHasher, Hash};
use vstd::prelude::*;
use vstd::std_specs::cmp::PartialEqSpec;
use vstd::std_specs::hash::{builds_valid_hashers, contains_borrowed_key, obeys_key_model};
use vstd::std_specs::iter::IteratorSpec;

verus! {

/// A key stands in one place only.
proof fn lemma_at<K, V, Q: ?Sized>(view: LfuView<K, V>, key: &Q, i: int, u: int)
    requires
        view.valid(),
        borrows_apart::<K, Q>(),
        keyed(view.pairs, i, key),
        rank_keyed(view.uses, u, key),
    ensures
        view.contains(key),
        view.index_of(key) == i,
        view.use_of(key) == u,
        view.value_of(key) == view.pairs[i].1,
        view.count_of(key) == view.uses[u].count,
        view.pairs[i].0 == view.uses[u].item,
{
    assert(keyed(view.pairs, view.index_of(key), key));
    assert(rank_keyed(view.uses, view.use_of(key), key));
}

/// A key that is there stands among the entries and among the uses.
proof fn lemma_present<K, V, Q: ?Sized>(view: LfuView<K, V>, key: &Q)
    requires
        view.valid(),
        borrows_apart::<K, Q>(),
        view.contains(key),
    ensures
        keyed(view.pairs, view.index_of(key), key),
        rank_keyed(view.uses, view.use_of(key), key),
        view.pairs[view.index_of(key)].0 == view.uses[view.use_of(key)].item,
{
    let i = choose|i: int| #[trigger] keyed(view.pairs, i, key);
    assert(ranked(view.uses, view.pairs[i].0));
    let u = choose|u: int|
        0 <= u < view.uses.len() && (#[trigger] view.uses[u]).item == view.pairs[i].0;
    assert(rank_keyed(view.uses, u, key));
    lemma_at(view, key, i, u);
}

/// A key that is not there stands nowhere.
proof fn lemma_missing<K, V>(view: LfuView<K, V>, key: K)
    requires
        view.valid(),
        !view.contains(&key),
    ensures
        forall|i: int| 0 <= i < view.pairs.len() ==> (#[trigger] view.pairs[i]).0 != key,
        !ranked(view.uses, key),
{
    assert forall|i: int| 0 <= i < view.pairs.len() implies (#[trigger] view.pairs[i]).0 != key by {
        assert(!keyed(view.pairs, i, &key));
    }
    if ranked(view.uses, key) {
        let u = choose|u: int| 0 <= u < view.uses.len() && (#[trigger] view.uses[u]).item == key;
        assert(view.contains(&view.uses[u].item));
    }
}

/// A key that is there stands in the eviction order, with its count.
proof fn lemma_rank<K, V, Q: ?Sized>(view: LfuView<K, V>, key: &Q)
    requires
        view.valid(),
        borrows_apart::<K, Q>(),
        view.contains(key),
    ensures
        view.ranks().len() == view.uses.len(),
        rank_keyed(view.ranks(), view.rank_of(key), key),
        view.ranks()[view.rank_of(key)] == view.uses[view.use_of(key)],
        forall|r: int| #[trigger]
            rank_keyed(view.ranks(), r, key) ==> r == view.rank_of(key),
{
    lemma_present(view, key);
    lemma_filed_rising(view.uses);
    lemma_filed_distinct(view.uses);
    let r = lemma_filed_to(view.uses, view.use_of(key));
    assert(rank_keyed(view.ranks(), r, key));
    assert(rank_keyed(view.ranks(), view.rank_of(key), key));
    assert forall|t: int| #[trigger] rank_keyed(view.ranks(), t, key) implies t == r by {
        assert(view.ranks()[t].item == view.ranks()[r].item);
    }
}

/// The first in the eviction order is there.
proof fn lemma_victim<K, V>(view: LfuView<K, V>)
    requires
        view.valid(),
        view.pairs.len() > 0,
    ensures
        borrows_apart::<K, K>(),
        view.contains(&view.victim()),
        view.rank_of(&view.victim()) == 0,
{
    lemma_borrows_itself_apart::<K>();
    lemma_filed_rising(view.uses);
    let u = lemma_filed_from(view.uses, 0);
    assert(view.contains(&view.uses[u].item));
    lemma_rank(view, &view.victim());
    assert(rank_keyed(view.ranks(), 0, &view.victim()));
}

/// Other uses of the same keys over the same entries.
proof fn lemma_same_keys<K, V>(view: LfuView<K, V>, after: LfuView<K, V>)
    requires
        view.valid(),
        after.pairs == view.pairs,
        after.capacity == view.capacity,
        after.uses.len() == view.uses.len(),
        distinct(after.uses),
        forall|u: int|
            0 <= u < after.uses.len() ==> 1 <= (#[trigger] after.uses[u]).count <= u64::MAX,
        forall|key: K| #[trigger] ranked(after.uses, key) <==> ranked(view.uses, key),
        match after.interval {
            Some(interval) => after.ops < interval,
            None => after.ops == 0,
        },
    ensures
        after.valid(),
{
    assert forall|u: int| 0 <= u < after.uses.len() implies after.contains(
        &(#[trigger] after.uses[u]).item,
    ) by {
        let key = after.uses[u].item;
        assert(ranked(after.uses, key));
        assert(ranked(view.uses, key));
        let w = choose|w: int| 0 <= w < view.uses.len() && (#[trigger] view.uses[w]).item == key;
        assert(view.contains(&view.uses[w].item));
        let i = choose|i: int| #[trigger] keyed(view.pairs, i, &key);
        assert(keyed(after.pairs, i, &key));
    }
}

/// The clock changes counts only.
proof fn lemma_ticked<K, V>(view: LfuView<K, V>)
    ensures
        view.ticked().pairs == view.pairs,
        view.ticked().capacity == view.capacity,
        view.ticked().interval == view.interval,
        view.ticked().uses.len() == view.uses.len(),
        forall|u: int|
            0 <= u < view.uses.len() ==> (#[trigger] view.ticked().uses[u]).item
                == view.uses[u].item,
{
}

/// A cache without entries is valid.
pub proof fn law_fresh_valid<K, V>(capacity: nat, interval: Option<nat>)
    requires
        capacity >= 1,
        interval matches Some(interval) ==> interval >= 1,
    ensures
        LfuView::<K, V>::fresh(capacity, interval).valid(),
{
}

/// An operation of the clock leaves a valid cache.
pub proof fn law_ticked_valid<K, V>(view: LfuView<K, V>)
    requires
        view.valid(),
    ensures
        view.ticked().valid(),
{
    lemma_aged_distinct(view.uses);
    lemma_same_keys(view, view.ticked());
}

/// A use leaves a valid cache.
pub proof fn law_used_valid<K, V, Q: ?Sized>(view: LfuView<K, V>, key: &Q)
    requires
        view.valid(),
        borrows_apart::<K, Q>(),
        view.contains(key),
        view.can_count(key),
    ensures
        view.used(key).valid(),
{
    let u = view.use_of(key);
    lemma_present(view, key);
    lemma_reused_distinct(view.uses, u);
    let after = LfuView { uses: reused(view.uses, u), ..view };
    assert forall|w: int| 0 <= w < after.uses.len() implies 1 <= (#[trigger] after.uses[w]).count
        <= u64::MAX by {
        if w < view.uses.len() - 1 {
            assert(after.uses[w] == view.uses[if w < u {
                w
            } else {
                w + 1
            }]);
        } else {
            assert(1 <= view.uses[u].count);
        }
    }
    lemma_same_keys(view, after);
    law_ticked_valid(after);
}

/// Another value leaves a valid cache.
pub proof fn law_with_value_valid<K, V, Q: ?Sized>(view: LfuView<K, V>, key: &Q, value: V)
    requires
        view.valid(),
        borrows_apart::<K, Q>(),
        view.contains(key),
    ensures
        view.with_value(key, value).valid(),
{
    lemma_present(view, key);
    let after = view.with_value(key, value);
    assert forall|j: int| 0 <= j < view.pairs.len() implies (#[trigger] after.pairs[j]).0
        == view.pairs[j].0 by {}
    assert forall|u: int| 0 <= u < after.uses.len() implies after.contains(
        &(#[trigger] after.uses[u]).item,
    ) by {
        let other = after.uses[u].item;
        assert(view.contains(&view.uses[u].item));
        let j = choose|j: int| #[trigger] keyed(view.pairs, j, &other);
        assert(keyed(after.pairs, j, &other));
    }
}

/// A removal leaves a valid cache without the key.
pub proof fn law_without_valid<K, V, Q: ?Sized>(view: LfuView<K, V>, key: &Q)
    requires
        view.valid(),
        borrows_apart::<K, Q>(),
        view.contains(key),
    ensures
        view.without(key).valid(),
        !view.without(key).contains(key),
        view.without(key).pairs.len() + 1 == view.pairs.len(),
{
    lemma_present(view, key);
    let i = view.index_of(key);
    let u = view.use_of(key);
    let after = view.without(key);
    lemma_removed_distinct(view.uses, u);
    assert forall|j: int| 0 <= j < after.pairs.len() implies #[trigger] after.pairs[j]
        == view.pairs[if j < i {
        j
    } else {
        j + 1
    }] by {}
    assert forall|w: int| 0 <= w < after.uses.len() implies #[trigger] after.uses[w]
        == view.uses[if w < u {
        w
    } else {
        w + 1
    }] by {}
    assert forall|j: int| 0 <= j < after.pairs.len() implies ranked(
        after.uses,
        (#[trigger] after.pairs[j]).0,
    ) by {
        let other = after.pairs[j].0;
        let j0 = if j < i {
            j
        } else {
            j + 1
        };
        assert(view.pairs[j0].0 == other);
        assert(ranked(view.uses, view.pairs[j0].0));
        lemma_removed_ranked(view.uses, u, other);
    }
    assert forall|w: int| 0 <= w < after.uses.len() implies after.contains(
        &(#[trigger] after.uses[w]).item,
    ) by {
        let other = after.uses[w].item;
        let w0 = if w < u {
            w
        } else {
            w + 1
        };
        assert(view.contains(&view.uses[w0].item));
        let j = choose|j: int| #[trigger] keyed(view.pairs, j, &other);
        assert(j != i);
        assert(keyed(
            after.pairs,
            if j < i {
                j
            } else {
                j - 1
            },
            &other,
        ));
    }
    assert forall|j: int| !#[trigger] keyed(after.pairs, j, key) by {
        if keyed(after.pairs, j, key) {
            assert(after.pairs[j].0 == view.pairs[i].0);
        }
    }
}

/// An eviction leaves a valid cache with one entry less.
pub proof fn law_evicted_valid<K, V>(view: LfuView<K, V>)
    requires
        view.valid(),
        view.pairs.len() > 0,
    ensures
        view.evicted().valid(),
        view.evicted().pairs.len() + 1 == view.pairs.len(),
{
    lemma_victim(view);
    law_without_valid(view, &view.victim());
}

/// A new key leaves a valid cache, where there is room.
pub proof fn law_with_new_valid<K, V>(view: LfuView<K, V>, key: K, value: V)
    requires
        view.valid(),
        !view.contains(&key),
        view.pairs.len() < view.capacity,
    ensures
        view.with_new(key, value).valid(),
{
    let after = view.with_new(key, value);
    let rank = Rank { item: key, count: 1 };
    lemma_missing(view, key);
    lemma_pushed_distinct(view.uses, rank);
    assert forall|w: int| 0 <= w < after.uses.len() implies 1 <= (#[trigger] after.uses[w]).count
        <= u64::MAX by {
        if w < view.uses.len() {
            assert(after.uses[w] == view.uses[w]);
        }
    }
    assert forall|j: int| 0 <= j < after.pairs.len() implies ranked(
        after.uses,
        (#[trigger] after.pairs[j]).0,
    ) by {
        lemma_pushed_ranked(view.uses, rank, after.pairs[j].0);
        if j < view.pairs.len() {
            assert(after.pairs[j] == view.pairs[j]);
        }
    }
    assert forall|w: int| 0 <= w < after.uses.len() implies after.contains(
        &(#[trigger] after.uses[w]).item,
    ) by {
        let other = after.uses[w].item;
        if w == view.uses.len() {
            assert(keyed(after.pairs, view.pairs.len() as int, &other));
        } else {
            assert(view.contains(&view.uses[w].item));
            let j = choose|j: int| #[trigger] keyed(view.pairs, j, &other);
            assert(keyed(after.pairs, j, &other));
        }
    }
}

/// Making room leaves a valid cache with room, and brings no key in.
proof fn lemma_with_room<K, V>(view: LfuView<K, V>, key: K)
    requires
        view.valid(),
        !view.contains(&key),
    ensures
        view.with_room().valid(),
        !view.with_room().contains(&key),
        view.with_room().pairs.len() < view.capacity,
{
    if view.pairs.len() >= view.capacity {
        law_evicted_valid(view);
        lemma_victim(view);
        lemma_missing(view, key);
        lemma_present(view, &view.victim());
        let i = view.index_of(&view.victim());
        let after = view.evicted();
        assert forall|j: int| !#[trigger] keyed(after.pairs, j, &key) by {
            if 0 <= j < after.pairs.len() {
                assert(after.pairs[j] == view.pairs[if j < i {
                    j
                } else {
                    j + 1
                }]);
            }
        }
    }
}

/// A put leaves a valid cache: above all, no more entries than its capacity.
pub proof fn law_put_valid<K, V>(view: LfuView<K, V>, key: K, value: V)
    requires
        view.valid(),
        view.can_count(&key),
    ensures
        view.put(key, value).valid(),
        view.put(key, value).pairs.len() <= view.capacity,
{
    if view.contains(&key) {
        lemma_borrows_itself_apart::<K>();
        law_with_value_valid(view, &key, value);
        lemma_present(view, &key);
        let revalued = view.with_value(&key, value);
        assert(keyed(revalued.pairs, view.index_of(&key), &key));
        law_used_valid(revalued, &key);
    } else {
        lemma_with_room(view, key);
        law_with_new_valid(view.with_room(), key, value);
        law_ticked_valid(view.with_room().with_new(key, value));
    }
}

/// Clearing a cache makes a valid one without entries, of the same capacity and interval.
pub proof fn law_cleared<K, V>(view: LfuView<K, V>)
    requires
        view.valid(),
    ensures
        view.cleared().valid(),
        view.cleared().pairs.len() == 0,
        view.cleared().capacity == view.capacity,
        view.cleared().interval == view.interval,
        forall|key: K| !#[trigger] view.cleared().contains(&key),
{
    assert forall|key: K| !#[trigger] view.cleared().contains(&key) by {
        assert forall|i: int| !#[trigger] keyed(view.cleared().pairs, i, &key) by {}
    }
}

/// What has been put is what is read.
pub proof fn law_read_back<K, V>(view: LfuView<K, V>, key: K, value: V)
    requires
        view.valid(),
        view.can_count(&key),
    ensures
        view.put(key, value).contains(&key),
        view.put(key, value).value_of(&key) == value,
{
    lemma_borrows_itself_apart::<K>();
    law_put_valid(view, key, value);
    let after = view.put(key, value);
    let i = if view.contains(&key) {
        lemma_present(view, &key);
        view.index_of(&key)
    } else {
        view.with_room().pairs.len() as int
    };
    assert(after.pairs[i] == (key, value)) by {
        lemma_ticked(view.with_room().with_new(key, value));
    }
    assert(keyed(after.pairs, i, &key));
    lemma_present(after, &key);
    lemma_at(after, &key, i, after.use_of(&key));
}

/// Putting under a key that is there does not grow the cache; putting under another adds one entry,
/// unless the cache is full.
pub proof fn law_put_len<K, V>(view: LfuView<K, V>, key: K, value: V)
    requires
        view.valid(),
    ensures
        view.contains(&key) ==> view.put(key, value).pairs.len() == view.pairs.len(),
        !view.contains(&key) && view.pairs.len() < view.capacity ==> view.put(
            key,
            value,
        ).pairs.len() == view.pairs.len() + 1,
        !view.contains(&key) && view.pairs.len() == view.capacity ==> view.put(
            key,
            value,
        ).pairs.len() == view.capacity,
{
    if !view.contains(&key) {
        lemma_ticked(view.with_room().with_new(key, value));
        if view.pairs.len() >= view.capacity {
            law_evicted_valid(view);
        }
    }
}

/// A removal leaves all other keys with their values and counts.
pub proof fn law_without_keeps<K, V, Q: ?Sized>(view: LfuView<K, V>, key: &Q, other: K)
    requires
        view.valid(),
        borrows_apart::<K, Q>(),
        view.contains(key),
        !key_is(other, key),
    ensures
        view.without(key).contains(&other) == view.contains(&other),
        view.contains(&other) ==> view.without(key).value_of(&other) == view.value_of(&other)
            && view.without(key).count_of(&other) == view.count_of(&other),
{
    lemma_borrows_itself_apart::<K>();
    law_without_valid(view, key);
    lemma_present(view, key);
    let after = view.without(key);
    let i = view.index_of(key);
    let u = view.use_of(key);
    if view.contains(&other) {
        lemma_present(view, &other);
        let j = view.index_of(&other);
        let w = view.use_of(&other);
        let j1 = if j < i {
            j
        } else {
            j - 1
        };
        let w1 = if w < u {
            w
        } else {
            w - 1
        };
        assert(after.pairs[j1] == view.pairs[j]);
        assert(after.uses[w1] == view.uses[w]);
        assert(keyed(after.pairs, j1, &other));
        assert(rank_keyed(after.uses, w1, &other));
        lemma_at(after, &other, j1, w1);
    }
    if after.contains(&other) {
        let j = choose|j: int| #[trigger] keyed(after.pairs, j, &other);
        assert(keyed(
            view.pairs,
            if j < i {
                j
            } else {
                j + 1
            },
            &other,
        ));
    }
}

/// A removal leaves the order of insertion and the eviction order, with the key left out.
pub proof fn law_without_order<K, V, Q: ?Sized>(view: LfuView<K, V>, key: &Q)
    requires
        view.valid(),
        borrows_apart::<K, Q>(),
        view.contains(key),
    ensures
        view.without(key).pairs == view.pairs.remove(view.index_of(key)),
        view.without(key).ranks() == view.ranks().remove(view.rank_of(key)),
{
    lemma_present(view, key);
    lemma_rank(view, key);
    lemma_filed_removed(view.uses, view.use_of(key), view.rank_of(key));
}

/// An eviction takes the key that is next in the eviction order, and leaves all others with their
/// values and counts, in their order.
pub proof fn law_evicted_keeps<K, V>(view: LfuView<K, V>, other: K)
    requires
        view.valid(),
        view.pairs.len() > 0,
    ensures
        !view.evicted().contains(&view.victim()),
        view.evicted().ranks() == view.ranks().drop_first(),
        other != view.victim() ==> view.evicted().contains(&other) == view.contains(&other),
        other != view.victim() && view.contains(&other) ==> view.evicted().value_of(&other)
            == view.value_of(&other) && view.evicted().count_of(&other) == view.count_of(&other),
{
    lemma_victim(view);
    law_without_valid(view, &view.victim());
    law_without_order(view, &view.victim());
    assert(view.ranks().remove(0) =~= view.ranks().drop_first());
    if other != view.victim() {
        law_without_keeps(view, &view.victim(), other);
    }
}

/// A put leaves all other keys with their values and counts, but for the one that is evicted where
/// the cache is full. Where an interval ends, all counts are then halved.
pub proof fn law_put_keeps<K, V>(view: LfuView<K, V>, key: K, value: V, other: K)
    requires
        view.valid(),
        view.can_count(&key),
        other != key,
    ensures
        view.contains(&key) || view.pairs.len() < view.capacity || other != view.victim()
            ==> view.put(key, value).contains(&other) == view.contains(&other) && (view.contains(
            &other,
        ) ==> view.put(key, value).value_of(&other) == view.value_of(&other) && view.put(
            key,
            value,
        ).count_of(&other) == if view.ages() {
            halved(view.count_of(&other))
        } else {
            view.count_of(&other)
        }),
        !view.contains(&key) && view.pairs.len() == view.capacity && other == view.victim()
            ==> view.contains(&other) && !view.put(key, value).contains(&other),
{
    lemma_borrows_itself_apart::<K>();
    law_put_valid(view, key, value);
    let after = view.put(key, value);
    if view.contains(&key) {
        lemma_present(view, &key);
        let revalued = view.with_value(&key, value);
        assert(after.pairs == revalued.pairs);
        lemma_same_positions(view, after, other);
        if view.contains(&other) {
            lemma_present(view, &other);
            law_with_value_valid(view, &key, value);
            assert(keyed(revalued.pairs, view.index_of(&key), &key));
            assert(keyed(revalued.pairs, view.index_of(&other), &other));
            lemma_other_place(revalued, &key, other);
        }
    } else {
        let roomy = view.with_room();
        lemma_with_room(view, key);
        lemma_ticked(roomy.with_new(key, value));
        lemma_same_positions(roomy, after, other);
        if roomy.contains(&other) {
            lemma_present(roomy, &other);
            let w = roomy.use_of(&other);
            assert(roomy.with_new(key, value).uses[w] == roomy.uses[w]);
            assert(keyed(after.pairs, roomy.index_of(&other), &other));
            assert(rank_keyed(after.uses, w, &other));
            lemma_at(after, &other, roomy.index_of(&other), w);
        }
        if view.pairs.len() >= view.capacity {
            lemma_victim(view);
            law_evicted_keeps(view, other);
        }
    }
}

/// Where all entries stay in place, and another key comes in, a key has the value that it had.
proof fn lemma_same_positions<K, V>(view: LfuView<K, V>, after: LfuView<K, V>, other: K)
    requires
        view.valid(),
        after.valid(),
        view.pairs.len() <= after.pairs.len(),
        forall|i: int|
            0 <= i < view.pairs.len() ==> (#[trigger] after.pairs[i]).0 == view.pairs[i].0 && (
            view.pairs[i].0 == other ==> after.pairs[i].1 == view.pairs[i].1),
        forall|i: int|
            view.pairs.len() <= i < after.pairs.len() ==> (#[trigger] after.pairs[i]).0 != other,
    ensures
        after.contains(&other) == view.contains(&other),
        view.contains(&other) ==> after.value_of(&other) == view.value_of(&other),
{
    lemma_borrows_itself_apart::<K>();
    if view.contains(&other) {
        lemma_present(view, &other);
        let i = view.index_of(&other);
        assert(keyed(after.pairs, i, &other));
        lemma_present(after, &other);
        lemma_at(after, &other, i, after.use_of(&other));
    }
    if after.contains(&other) {
        let i = choose|i: int| #[trigger] keyed(after.pairs, i, &other);
        assert(i < view.pairs.len());
        assert(keyed(view.pairs, i, &other));
    }
}

/// Removing a key that has just been put undoes the put, where the key was not there, the cache was
/// not full and neither operation ends an interval.
pub proof fn law_remove_undoes_put<K, V>(view: LfuView<K, V>, key: K, value: V)
    requires
        view.valid(),
        !view.contains(&key),
        view.pairs.len() < view.capacity,
        !view.ages(),
        !view.put(key, value).ages(),
    ensures
        view.put(key, value).without(&key).ticked() == (LfuView {
            ops: view.put(key, value).without(&key).ticked().ops,
            ..view
        }),
{
    lemma_borrows_itself_apart::<K>();
    let added = view.with_new(key, value);
    let after = view.put(key, value);
    law_with_new_valid(view, key, value);
    law_ticked_valid(added);
    let last = view.pairs.len() as int;
    assert(after.uses == added.uses);
    assert(keyed(after.pairs, last, &key));
    assert(rank_keyed(after.uses, last, &key));
    lemma_at(after, &key, last, last);
    assert(after.pairs.remove(last) =~= view.pairs);
    assert(after.uses.remove(last) =~= view.uses);
}

/// The eviction order goes by count, and for equal counts by last use.
pub proof fn law_eviction_order<K, V>(view: LfuView<K, V>, a: K, b: K)
    requires
        view.valid(),
        view.contains(&a),
        view.contains(&b),
        a != b,
    ensures
        view.rank_of(&a) < view.rank_of(&b) <==> view.count_of(&a) < view.count_of(&b) || (
        view.count_of(&a) == view.count_of(&b) && view.use_of(&a) < view.use_of(&b)),
{
    lemma_borrows_itself_apart::<K>();
    lemma_present(view, &a);
    lemma_present(view, &b);
    lemma_rank(view, &a);
    lemma_rank(view, &b);
    lemma_filed_rising(view.uses);
    let r = view.rank_of(&a);
    let t = view.rank_of(&b);
    let ranks = view.ranks();
    if r < t {
        assert(ranks[r].count <= ranks[t].count);
        if ranks[r].count == ranks[t].count {
            let (i, j) = lemma_filed_ties(view.uses, r, t);
            assert(i == view.use_of(&a) && j == view.use_of(&b));
        }
    } else {
        assert(ranks[t].count <= ranks[r].count);
        assert(t != r);
        if ranks[r].count == ranks[t].count {
            let (j, i) = lemma_filed_ties(view.uses, t, r);
            assert(i == view.use_of(&a) && j == view.use_of(&b));
        }
    }
}

/// A use raises the count of the key by one and leaves all other counts, and all entries, as they
/// are. Where an interval ends, all counts are then halved.
pub proof fn law_used_counts<K, V, Q: ?Sized>(view: LfuView<K, V>, key: &Q, other: K)
    requires
        view.valid(),
        borrows_apart::<K, Q>(),
        view.contains(key),
        view.can_count(key),
    ensures
        view.used(key).pairs == view.pairs,
        !view.ages() ==> view.used(key).count_of(key) == view.count_of(key) + 1,
        view.ages() ==> view.used(key).count_of(key) == halved(view.count_of(key) + 1),
        view.contains(&other) && !key_is(other, key) && !view.ages() ==> view.used(key).count_of(
            &other,
        ) == view.count_of(&other),
        view.contains(&other) && !key_is(other, key) && view.ages() ==> view.used(key).count_of(
            &other,
        ) == halved(view.count_of(&other)),
{
    lemma_used_place(view, key);
    if view.contains(&other) && !key_is(other, key) {
        lemma_other_place(view, key, other);
    }
}

/// Where a use puts the key.
proof fn lemma_used_place<K, V, Q: ?Sized>(view: LfuView<K, V>, key: &Q)
    requires
        view.valid(),
        borrows_apart::<K, Q>(),
        view.contains(key),
        view.can_count(key),
    ensures
        view.used(key).valid(),
        view.used(key).pairs == view.pairs,
        view.used(key).contains(key),
        view.used(key).use_of(key) == view.uses.len() - 1,
        view.used(key).count_of(key) == if view.ages() {
            halved(view.count_of(key) + 1)
        } else {
            view.count_of(key) + 1
        },
{
    law_used_valid(view, key);
    lemma_present(view, key);
    let after = view.used(key);
    let u = view.use_of(key);
    let last = view.uses.len() - 1;
    let raised = LfuView { uses: reused(view.uses, u), ..view };
    lemma_ticked(raised);
    assert(raised.uses[last].item == view.uses[u].item);
    assert(keyed(after.pairs, view.index_of(key), key));
    assert(rank_keyed(after.uses, last, key));
    lemma_at(after, key, view.index_of(key), last);
}

/// Where a use of a key leaves another.
proof fn lemma_other_place<K, V, Q: ?Sized>(view: LfuView<K, V>, key: &Q, other: K)
    requires
        view.valid(),
        borrows_apart::<K, Q>(),
        view.contains(key),
        view.can_count(key),
        view.contains(&other),
        !key_is(other, key),
    ensures
        view.used(key).contains(&other),
        view.used(key).use_of(&other) == if view.use_of(&other) < view.use_of(key) {
            view.use_of(&other)
        } else {
            view.use_of(&other) - 1
        },
        view.use_of(&other) != view.use_of(key),
        view.used(key).count_of(&other) == if view.ages() {
            halved(view.count_of(&other))
        } else {
            view.count_of(&other)
        },
{
    lemma_borrows_itself_apart::<K>();
    law_used_valid(view, key);
    lemma_present(view, key);
    lemma_present(view, &other);
    let after = view.used(key);
    let u = view.use_of(key);
    let w = view.use_of(&other);
    let w1 = if w < u {
        w
    } else {
        w - 1
    };
    let raised = LfuView { uses: reused(view.uses, u), ..view };
    lemma_ticked(raised);
    assert(raised.uses[w1] == view.uses[w]);
    assert(keyed(after.pairs, view.index_of(&other), &other));
    assert(rank_keyed(after.uses, w1, &other));
    lemma_at(after, &other, view.index_of(&other), w1);
}

/// A use that ends no interval leaves the other keys in their eviction order, and brings its own key
/// no closer to eviction.
pub proof fn law_used_order<K, V, Q: ?Sized>(view: LfuView<K, V>, key: &Q, a: K, b: K)
    requires
        view.valid(),
        borrows_apart::<K, Q>(),
        view.contains(key),
        view.can_count(key),
        !view.ages(),
    ensures
        view.used(key).pairs == view.pairs,
        view.used(key).capacity == view.capacity,
        view.used(key).rank_of(key) >= view.rank_of(key),
        view.contains(&a) && view.contains(&b) && !key_is(a, key) && !key_is(b, key) && a != b ==> (
        view.used(key).rank_of(&a) < view.used(key).rank_of(&b) <==> view.rank_of(&a)
            < view.rank_of(&b)),
{
    let after = view.used(key);
    let u = view.use_of(key);
    let r = view.rank_of(key);
    law_used_valid(view, key);
    lemma_present(view, key);
    lemma_rank(view, key);
    lemma_filed_rising(view.uses);
    lemma_filed_removed(view.uses, u, r);
    let rest = filed(view.uses.remove(u));
    let count = view.uses[u].count;
    lemma_filed_rising(view.uses.remove(u));
    lemma_used_at_most_splits(rest, count + 1);
    let at = used_at_most(rest, count + 1) as int;
    assert(after.uses.drop_last() =~= view.uses.remove(u));
    assert(after.ranks() == rest.insert(at, after.uses.last()));
    assert(rank_keyed(after.ranks(), at, key));
    assert(keyed(after.pairs, view.index_of(key), key));
    lemma_rank(after, key);
    if at < r {
        assert(rest[at] == view.ranks()[at]);
        assert(view.ranks()[at].count <= view.ranks()[r].count);
    }
    if view.contains(&a) && view.contains(&b) && !key_is(a, key) && !key_is(b, key) && a != b {
        lemma_other_place(view, key, a);
        lemma_other_place(view, key, b);
        law_eviction_order(view, a, b);
        law_eviction_order(after, a, b);
    }
}

/// The key that is evicted next has been used no more often than any other.
pub proof fn law_victim_least_used<K, V>(view: LfuView<K, V>, key: K)
    requires
        view.valid(),
        view.contains(&key),
    ensures
        view.count_of(&view.victim()) <= view.count_of(&key),
{
    lemma_borrows_itself_apart::<K>();
    lemma_present(view, &key);
    lemma_victim(view);
    lemma_rank(view, &key);
    lemma_rank(view, &view.victim());
    lemma_filed_rising(view.uses);
    assert(view.ranks()[0].count <= view.ranks()[view.rank_of(&key)].count);
}

/// Of the keys used least often, the one that is evicted next is the one whose last use lies
/// furthest back.
pub proof fn law_victim_least_recent<K, V>(
    view: LfuView<K, V>,
    last: spec_fn(K) -> nat,
    key: K,
)
    requires
        view.valid(),
        view.by_recency(last),
        view.contains(&key),
        key != view.victim(),
        view.count_of(&key) == view.count_of(&view.victim()),
    ensures
        last(view.victim()) < last(key),
{
    lemma_borrows_itself_apart::<K>();
    lemma_present(view, &key);
    lemma_victim(view);
    lemma_present(view, &view.victim());
    lemma_rank(view, &key);
    law_eviction_order(view, view.victim(), key);
    assert(view.uses[view.use_of(&view.victim())].item == view.victim());
    assert(view.uses[view.use_of(&key)].item == key);
}

/// A cache without entries goes by any times of last use.
pub proof fn law_fresh_by_recency<K, V>(
    capacity: nat,
    interval: Option<nat>,
    last: spec_fn(K) -> nat,
)
    ensures
        LfuView::<K, V>::fresh(capacity, interval).by_recency(last),
        forall|now: nat| #[trigger]
            LfuView::<K, V>::fresh(capacity, interval).all_before(last, now),
{
}

/// Aging does not change what was used when.
pub proof fn law_aging_by_recency<K, V>(view: LfuView<K, V>, last: spec_fn(K) -> nat)
    requires
        view.by_recency(last),
    ensures
        view.with_aged_counts().by_recency(last),
        view.ticked().by_recency(last),
        forall|now: nat|
            view.all_before(last, now) ==> #[trigger] view.ticked().all_before(last, now),
{
    let after = view.with_aged_counts();
    assert forall|u: int, w: int| 0 <= u < w < after.uses.len() implies last(
        (#[trigger] after.uses[u]).item,
    ) < last((#[trigger] after.uses[w]).item) by {
        assert(last(view.uses[u].item) < last(view.uses[w].item));
    }
    assert forall|now: nat| view.all_before(last, now) implies #[trigger] view.ticked().all_before(
        last,
        now,
    ) by {
        assert forall|u: int| 0 <= u < view.uses.len() implies last(
            (#[trigger] view.ticked().uses[u]).item,
        ) < now by {
            assert(last(view.uses[u].item) < now);
        }
    }
}

/// A key that is added as used now, where it was not there.
proof fn lemma_added_by_recency<K, V>(
    view: LfuView<K, V>,
    after: LfuView<K, V>,
    last: spec_fn(K) -> nat,
    rank: Rank<K>,
    now: nat,
)
    requires
        view.by_recency(last),
        view.all_before(last, now),
        !ranked(view.uses, rank.item),
        after.uses == view.uses.push(rank),
    ensures
        after.by_recency(used_now(last, rank.item, now)),
        after.all_before(used_now(last, rank.item, now), now + 1),
{
    assert forall|u: int| 0 <= u < view.uses.len() implies (#[trigger] after.uses[u])
        == view.uses[u] && after.uses[u].item != rank.item by {
        assert(view.uses[u].item != rank.item);
    }
}

/// A key that is taken out leaves the others in the order of last use.
proof fn lemma_removed_by_recency<K, V>(
    view: LfuView<K, V>,
    after: LfuView<K, V>,
    last: spec_fn(K) -> nat,
    u: int,
)
    requires
        view.by_recency(last),
        0 <= u < view.uses.len(),
        after.uses == view.uses.remove(u),
    ensures
        after.by_recency(last),
        forall|now: nat|
            view.all_before(last, now) ==> #[trigger] after.all_before(last, now),
{
    assert forall|w: int| 0 <= w < after.uses.len() implies #[trigger] after.uses[w]
        == view.uses[if w < u {
        w
    } else {
        w + 1
    }] by {}
}

/// A cache goes by the times of last use after a key has been used.
pub proof fn law_used_by_recency<K, V, Q: ?Sized>(
    view: LfuView<K, V>,
    last: spec_fn(K) -> nat,
    key: &Q,
    now: nat,
)
    requires
        view.valid(),
        borrows_apart::<K, Q>(),
        view.contains(key),
        view.by_recency(last),
        view.all_before(last, now),
    ensures
        view.used(key).by_recency(used_now(last, view.uses[view.use_of(key)].item, now)),
        view.used(key).all_before(
            used_now(last, view.uses[view.use_of(key)].item, now),
            now + 1,
        ),
{
    let u = view.use_of(key);
    let times = used_now(last, view.uses[u].item, now);
    lemma_present(view, key);
    lemma_removed_distinct(view.uses, u);
    let rest = LfuView { uses: view.uses.remove(u), ..view };
    lemma_removed_by_recency(view, rest, last, u);
    assert(rest.all_before(last, now));
    let raised = LfuView { uses: reused(view.uses, u), ..view };
    lemma_added_by_recency(rest, raised, last, raised.uses.last(), now);
    law_aging_by_recency(raised, times);
    assert(raised.ticked().all_before(times, now + 1));
}

/// A cache goes by the times of last use after something has been put.
pub proof fn law_put_by_recency<K, V>(
    view: LfuView<K, V>,
    last: spec_fn(K) -> nat,
    key: K,
    value: V,
    now: nat,
)
    requires
        view.valid(),
        view.by_recency(last),
        view.all_before(last, now),
    ensures
        view.put(key, value).by_recency(used_now(last, key, now)),
        view.put(key, value).all_before(used_now(last, key, now), now + 1),
{
    let times = used_now(last, key, now);
    lemma_borrows_itself_apart::<K>();
    if view.contains(&key) {
        lemma_present(view, &key);
        let revalued = view.with_value(&key, value);
        law_with_value_valid(view, &key, value);
        assert(keyed(revalued.pairs, view.index_of(&key), &key));
        law_used_by_recency(revalued, last, &key, now);
    } else {
        let roomy = view.with_room();
        lemma_with_room(view, key);
        lemma_missing(roomy, key);
        if view.pairs.len() >= view.capacity {
            lemma_victim(view);
            lemma_present(view, &view.victim());
            lemma_removed_by_recency(view, roomy, last, view.use_of(&view.victim()));
        }
        assert(roomy.all_before(last, now));
        let added = roomy.with_new(key, value);
        lemma_added_by_recency(roomy, added, last, Rank { item: key, count: 1 }, now);
        law_aging_by_recency(added, times);
        assert(added.ticked().all_before(times, now + 1));
    }
}

/// A cache goes by the times of last use after a key has been removed, and none of them is later.
pub proof fn law_without_by_recency<K, V, Q: ?Sized>(
    view: LfuView<K, V>,
    last: spec_fn(K) -> nat,
    key: &Q,
)
    requires
        view.valid(),
        borrows_apart::<K, Q>(),
        view.contains(key),
        view.by_recency(last),
    ensures
        view.without(key).by_recency(last),
        view.without(key).ticked().by_recency(last),
        forall|now: nat|
            view.all_before(last, now) ==> #[trigger] view.without(key).all_before(last, now),
        forall|now: nat|
            view.all_before(last, now) ==> #[trigger] view.without(key).ticked().all_before(
                last,
                now,
            ),
{
    lemma_present(view, key);
    lemma_removed_by_recency(view, view.without(key), last, view.use_of(key));
    law_aging_by_recency(view.without(key), last);
    assert forall|now: nat| view.all_before(last, now) implies #[trigger] view.without(
        key,
    ).ticked().all_before(last, now) by {
        assert(view.without(key).all_before(last, now));
    }
}

/// A cache goes by the times of last use after an entry has been evicted, and none of them is later.
pub proof fn law_evicted_by_recency<K, V>(view: LfuView<K, V>, last: spec_fn(K) -> nat)
    requires
        view.valid(),
        view.pairs.len() > 0,
        view.by_recency(last),
    ensures
        view.evicted().by_recency(last),
        view.evicted().ticked().by_recency(last),
        forall|now: nat|
            view.all_before(last, now) ==> #[trigger] view.evicted().all_before(last, now),
        forall|now: nat|
            view.all_before(last, now) ==> #[trigger] view.evicted().ticked().all_before(last, now),
{
    lemma_victim(view);
    law_without_by_recency(view, last, &view.victim());
}

/// Aging halves every count, down to one at least, and changes neither the entries nor the order of
/// last use.
pub proof fn law_aging<K, V, Q: ?Sized>(view: LfuView<K, V>, key: &Q)
    requires
        view.valid(),
        borrows_apart::<K, Q>(),
        view.contains(key),
    ensures
        view.with_aged_counts().valid(),
        view.with_aged_counts().pairs == view.pairs,
        view.with_aged_counts().count_of(key) == halved(view.count_of(key)),
        view.with_aged_counts().use_of(key) == view.use_of(key),
        1 <= view.with_aged_counts().count_of(key) <= view.count_of(key),
        view.count_of(key) >= 2 ==> 2 * view.with_aged_counts().count_of(key) <= view.count_of(key)
            < 2 * view.with_aged_counts().count_of(key) + 2,
        view.count_of(key) == 1 ==> view.with_aged_counts().count_of(key) == 1,
{
    lemma_present(view, key);
    lemma_aged_distinct(view.uses);
    let after = view.with_aged_counts();
    lemma_same_keys(view, after);
    assert(1 <= view.uses[view.use_of(key)].count);
    assert(keyed(after.pairs, view.index_of(key), key));
    assert(rank_keyed(after.uses, view.use_of(key), key));
    lemma_at(after, key, view.index_of(key), view.use_of(key));
}

/// The counts are halved at the end of each interval, and not before.
pub proof fn law_interval<K, V>(view: LfuView<K, V>, interval: nat, times: nat)
    requires
        view.interval == Some(interval),
        view.ops == 0,
        times <= interval,
        interval >= 1,
    ensures
        times < interval ==> view.ticked_times(times) == (LfuView { ops: times, ..view }),
        times == interval ==> view.ticked_times(times) == view.with_aged_counts(),
    decreases times,
{
    if times > 0 {
        law_interval(view, interval, (times - 1) as nat);
    }
}

/// Without an interval, no count ever falls by itself.
pub proof fn law_no_interval<K, V>(view: LfuView<K, V>, times: nat)
    requires
        view.interval is None,
    ensures
        view.ticked_times(times) == view,
    decreases times,
{
    if times > 0 {
        law_no_interval(view, (times - 1) as nat);
    }
}

/// Every operation on a value that is there is counted towards the interval, where one is set: a use,
/// a put, a removal and an eviction.
pub proof fn law_operations_count<K, V, Q: ?Sized>(
    view: LfuView<K, V>,
    borrowed: &Q,
    key: K,
    value: V,
)
    requires
        view.valid(),
        view.interval is Some,
    ensures
        ({
            let ops = if view.ages() {
                0
            } else {
                view.ops + 1
            };
            &&& view.used(borrowed).ops == ops
            &&& view.put(key, value).ops == ops
            &&& view.without(borrowed).ticked().ops == ops
            &&& view.evicted().ticked().ops == ops
        }),
{
}

/// New keys come last in the order of insertion, and other keys keep their places in it, whatever is
/// used or put.
pub proof fn law_insertion_order<K, V>(view: LfuView<K, V>, key: K, value: V)
    requires
        view.valid(),
    ensures
        view.used(&key).pairs == view.pairs,
        view.contains(&key) ==> view.put(key, value).pairs == view.pairs.update(
            view.index_of(&key),
            (key, value),
        ),
        !view.contains(&key) ==> view.put(key, value).pairs == view.with_room().pairs.push(
            (key, value),
        ),
{
    if view.contains(&key) {
        lemma_borrows_itself_apart::<K>();
        lemma_present(view, &key);
    }
}

/// Looking a key up by a borrowed form is looking it up by the key itself.
pub proof fn law_borrowed<K, V, Q: ?Sized>(view: LfuView<K, V>, key: K, borrowed: &Q, value: V)
    requires
        view.valid(),
        borrows_apart::<K, Q>(),
        key_is(key, borrowed),
    ensures
        view.contains(borrowed) == view.contains(&key),
        view.contains(&key) ==> {
            &&& view.value_of(borrowed) == view.value_of(&key)
            &&& view.count_of(borrowed) == view.count_of(&key)
            &&& view.used(borrowed) == view.used(&key)
            &&& view.with_value(borrowed, value) == view.with_value(&key, value)
            &&& view.without(borrowed) == view.without(&key)
        },
{
    lemma_borrows_itself_apart::<K>();
    if view.contains(&key) {
        lemma_present(view, &key);
        assert(keyed(view.pairs, view.index_of(&key), borrowed));
        assert(rank_keyed(view.uses, view.use_of(&key), borrowed));
        lemma_at(view, borrowed, view.index_of(&key), view.use_of(&key));
    }
    if view.contains(borrowed) {
        let i = choose|i: int| #[trigger] keyed(view.pairs, i, borrowed);
        assert(keyed(view.pairs, i, &key));
    }
}

/// Putting under a key that is there is a use of it; another key has then been used once.
pub proof fn law_put_counts<K, V>(view: LfuView<K, V>, key: K, value: V)
    requires
        view.valid(),
        view.can_count(&key),
    ensures
        view.contains(&key) ==> view.put(key, value).count_of(&key) == if view.ages() {
            halved(view.count_of(&key) + 1)
        } else {
            view.count_of(&key) + 1
        },
        !view.contains(&key) ==> view.put(key, value).count_of(&key) == 1,
{
    lemma_borrows_itself_apart::<K>();
    law_put_valid(view, key, value);
    let after = view.put(key, value);
    let roomy = view.with_room();
    let i = if view.contains(&key) {
        lemma_present(view, &key);
        view.index_of(&key)
    } else {
        lemma_with_room(view, key);
        roomy.pairs.len() as int
    };
    let u = after.uses.len() - 1;
    assert(keyed(after.pairs, i, &key));
    assert(rank_keyed(after.uses, u, &key));
    lemma_at(after, &key, i, u);
}

/// A value that has been overwritten is what is read; the other values stay.
pub proof fn law_overwrite<K, V, Q: ?Sized>(view: LfuView<K, V>, key: &Q, value: V, other: K)
    requires
        view.valid(),
        borrows_apart::<K, Q>(),
        view.contains(key),
    ensures
        view.with_value(key, value).contains(key),
        view.with_value(key, value).value_of(key) == value,
        view.with_value(key, value).uses == view.uses,
        view.contains(&other) && !key_is(other, key) ==> view.with_value(key, value).contains(
            &other,
        ) && view.with_value(key, value).value_of(&other) == view.value_of(&other),
{
    lemma_borrows_itself_apart::<K>();
    law_with_value_valid(view, key, value);
    lemma_present(view, key);
    let after = view.with_value(key, value);
    assert(keyed(after.pairs, view.index_of(key), key));
    lemma_at(after, key, view.index_of(key), view.use_of(key));
    if view.contains(&other) && !key_is(other, key) {
        lemma_present(view, &other);
        assert(keyed(after.pairs, view.index_of(&other), &other));
        lemma_at(after, &other, view.index_of(&other), view.use_of(&other));
    }
}

/// Aging halves every count and rounds down, but never below one. It changes nothing else.
pub proof fn law_aging_halves<K, V>(view: LfuView<K, V>)
    ensures
        ({
            let after = view.with_aged_counts();
            &&& after.capacity == view.capacity
            &&& after.interval == view.interval
            &&& after.ops == 0
            &&& after.pairs == view.pairs
            &&& after.uses.len() == view.uses.len()
            &&& forall|u: int|
                0 <= u < view.uses.len() ==> (#[trigger] after.uses[u]).item == view.uses[u].item
            &&& forall|u: int|
                0 <= u < view.uses.len() && view.uses[u].count >= 2 ==> 2 * (
                #[trigger] after.uses[u]).count <= view.uses[u].count < 2 * after.uses[u].count + 2
            &&& forall|u: int|
                0 <= u < view.uses.len() && view.uses[u].count <= 1 ==> (
                #[trigger] after.uses[u]).count == 1
        }),
{
}

/// The clock counts operations. The operation that completes an interval starts the next one and
/// halves every count; no other changes a count, and without an interval nothing ever changes.
pub proof fn law_clock<K, V>(view: LfuView<K, V>)
    ensures
        ({
            let after = view.ticked();
            &&& after.capacity == view.capacity
            &&& after.interval == view.interval
            &&& after.pairs == view.pairs
            &&& view.interval is None ==> after.ops == view.ops && after.uses == view.uses
            &&& view.interval matches Some(interval) ==> {
                &&& view.ops + 1 < interval ==> after.ops == view.ops + 1 && after.uses == view.uses
                &&& view.ops + 1 >= interval ==> {
                    &&& after.ops == 0
                    &&& after.uses.len() == view.uses.len()
                    &&& forall|u: int|
                        0 <= u < view.uses.len() ==> (#[trigger] after.uses[u]).item
                            == view.uses[u].item
                    &&& forall|u: int|
                        0 <= u < view.uses.len() && view.uses[u].count >= 2 ==> 2 * (
                        #[trigger] after.uses[u]).count <= view.uses[u].count < 2
                            * after.uses[u].count + 2
                    &&& forall|u: int|
                        0 <= u < view.uses.len() && view.uses[u].count <= 1 ==> (
                        #[trigger] after.uses[u]).count == 1
                }
            }
        }),
{
}

/// A key is found by what it is: it is there exactly where an entry has it, and then it has the value
/// of that entry and the count of its use.
pub proof fn law_lookup<K, V, Q: ?Sized>(view: LfuView<K, V>, key: &Q)
    requires
        view.valid(),
        borrows_apart::<K, Q>(),
    ensures
        view.contains(key) <==> exists|i: int|
            0 <= i < view.pairs.len() && key_is((#[trigger] view.pairs[i]).0, key),
        view.contains(key) <==> exists|u: int|
            0 <= u < view.uses.len() && key_is((#[trigger] view.uses[u]).item, key),
        forall|i: int|
            0 <= i < view.pairs.len() && key_is((#[trigger] view.pairs[i]).0, key) ==> i
                == view.index_of(key) && view.value_of(key) == view.pairs[i].1,
        forall|u: int|
            0 <= u < view.uses.len() && key_is((#[trigger] view.uses[u]).item, key) ==> u
                == view.use_of(key) && view.count_of(key) == view.uses[u].count,
{
    if view.contains(key) {
        lemma_present(view, key);
    }
    assert forall|i: int|
        0 <= i < view.pairs.len() && key_is((#[trigger] view.pairs[i]).0, key) implies i
        == view.index_of(key) && view.value_of(key) == view.pairs[i].1 && view.contains(key) by {
        assert(keyed(view.pairs, i, key));
        lemma_present(view, key);
    }
    assert forall|u: int|
        0 <= u < view.uses.len() && key_is((#[trigger] view.uses[u]).item, key) implies u
        == view.use_of(key) && view.count_of(key) == view.uses[u].count && view.contains(key) by {
        assert(view.contains(&view.uses[u].item));
        let i = choose|i: int| #[trigger] keyed(view.pairs, i, &view.uses[u].item);
        assert(keyed(view.pairs, i, key));
        assert(rank_keyed(view.uses, u, key));
        lemma_at(view, key, i, u);
    }
}

/// What a borrowed key stands for is what `Borrow` makes of it: in a map that holds a key alone, the
/// borrowed key is found exactly where it is a borrowed form of that key. For a boxed key this is
/// what the box holds.
pub proof fn law_borrowed_form<K, Q: ?Sized>(key: K, borrowed: &Q, boxed: Box<K>, other: K)
    ensures
        key_is(key, borrowed) <==> contains_borrowed_key(
            Map::<K, ()>::empty().insert(key, ()),
            borrowed,
        ),
        key_is(boxed, &other) <==> *boxed == other,
        borrows_apart::<Box<K>, K>(),
{
    broadcast use vstd::std_specs::hash::group_hash_axioms;

    assert forall|b: Box<K>, q: &K| #[trigger] key_is(b, q) <==> *b == *q by {
        assert(contains_borrowed_key(Map::<Box<K>, ()>::empty().insert(b, ()), q) <==> Map::<
            Box<K>,
            (),
        >::empty().insert(b, ()).contains_key(Box::new(*q)));
    }
}

/// A key of the cache's own type is found by equality.
pub proof fn law_found_by_equality<K, V>(view: LfuView<K, V>, key: K, other: K)
    requires
        view.valid(),
    ensures
        key_is(key, &other) <==> key == other,
        view.contains(&key) <==> exists|i: int|
            0 <= i < view.pairs.len() && (#[trigger] view.pairs[i]).0 == key,
        forall|i: int|
            0 <= i < view.pairs.len() && (#[trigger] view.pairs[i]).0 == key ==> view.value_of(&key)
                == view.pairs[i].1,
        forall|u: int|
            0 <= u < view.uses.len() && (#[trigger] view.uses[u]).item == key ==> view.count_of(
                &key,
            ) == view.uses[u].count,
{
    lemma_borrows_itself_apart::<K>();
    law_lookup(view, &key);
}

/// No two entries share a key, every entry has its use and every use its entry, every count is at
/// least one, and there are no more entries than fit.
pub proof fn law_one_use_per_entry<K, V>(view: LfuView<K, V>, i: int, u: int)
    requires
        view.valid(),
    ensures
        1 <= view.capacity,
        view.pairs.len() <= view.capacity,
        view.uses.len() == view.pairs.len(),
        forall|j: int|
            0 <= i < view.pairs.len() && 0 <= j < view.pairs.len() && j != i ==> view.pairs[i].0
                != (#[trigger] view.pairs[j]).0,
        forall|w: int|
            0 <= u < view.uses.len() && 0 <= w < view.uses.len() && w != u ==> view.uses[u].item
                != (#[trigger] view.uses[w]).item,
        0 <= i < view.pairs.len() ==> exists|w: int|
            0 <= w < view.uses.len() && (#[trigger] view.uses[w]).item == view.pairs[i].0,
        0 <= u < view.uses.len() ==> exists|j: int|
            0 <= j < view.pairs.len() && (#[trigger] view.pairs[j]).0 == view.uses[u].item,
        0 <= u < view.uses.len() ==> view.uses[u].count >= 1,
{
    if 0 <= i < view.pairs.len() {
        assert(ranked(view.uses, view.pairs[i].0));
    }
    if 0 <= u < view.uses.len() {
        assert(view.contains(&view.uses[u].item));
        let j = choose|j: int| #[trigger] keyed(view.pairs, j, &view.uses[u].item);
        assert(view.pairs[j].0 == view.uses[u].item);
    }
}

/// The victim is the only key that has been used less often than every other, or as often and less
/// recently.
pub proof fn law_victim<K, V>(view: LfuView<K, V>, u: int)
    requires
        view.valid(),
        0 <= u < view.uses.len(),
    ensures
        view.victim() == view.uses[u].item <==> forall|w: int|
            0 <= w < view.uses.len() && w != u ==> view.uses[u].count < (
            #[trigger] view.uses[w]).count || (view.uses[u].count == view.uses[w].count && u < w),
{
    lemma_borrows_itself_apart::<K>();
    lemma_victim(view);
    lemma_present(view, &view.victim());
    let t = view.use_of(&view.victim());
    assert(view.uses[t].item == view.victim());
    assert forall|w: int| 0 <= w < view.uses.len() && w != t implies view.uses[t].count < (
    #[trigger] view.uses[w]).count || (view.uses[t].count == view.uses[w].count && t < w) by {
        let other = view.uses[w].item;
        assert(view.contains(&other));
        assert(rank_keyed(view.uses, w, &other));
        lemma_present(view, &other);
        assert(view.use_of(&other) == w);
        law_eviction_order(view, view.victim(), other);
        lemma_rank(view, &other);
        lemma_rank(view, &view.victim());
    }
    if u != t {
        assert(view.uses[u].item != view.uses[t].item);
        let count = view.uses[t].count;
    }
}

/// The highest count is the count of some key, and none is higher.
pub proof fn law_peak<K, V>(view: LfuView<K, V>)
    ensures
        forall|u: int| 0 <= u < view.uses.len() ==> (#[trigger] view.uses[u]).count <= view.peak(),
        view.uses.len() == 0 ==> view.peak() == 0,
        view.uses.len() > 0 ==> exists|u: int|
            0 <= u < view.uses.len() && (#[trigger] view.uses[u]).count == view.peak(),
{
    lemma_filed_rising(view.uses);
    assert forall|u: int| 0 <= u < view.uses.len() implies (#[trigger] view.uses[u]).count
        <= view.peak() by {
        let r = lemma_filed_to(view.uses, u);
        assert(view.ranks()[r].count <= view.ranks()[view.uses.len() - 1].count);
    }
    if view.uses.len() > 0 {
        let u = lemma_filed_from(view.uses, view.uses.len() - 1);
        assert(view.uses[u].count == view.peak());
    }
}

/// A use makes its key the one used last and counts one more use of it. All other keys keep their
/// counts and stay in the order of their last use. Where the use completes an interval, every count
/// is then halved.
pub proof fn law_use<K, V, Q: ?Sized>(view: LfuView<K, V>, key: &Q, u: int)
    requires
        view.valid(),
        borrows_apart::<K, Q>(),
        0 <= u < view.uses.len(),
        key_is(view.uses[u].item, key),
    ensures
        ({
            let after = view.used(key);
            let last = view.uses.len() - 1;
            let ends = view.interval matches Some(interval) && view.ops + 1 >= interval;
            &&& after.capacity == view.capacity
            &&& after.interval == view.interval
            &&& after.pairs == view.pairs
            &&& after.ops == if view.interval is None {
                view.ops
            } else if ends {
                0
            } else {
                view.ops + 1
            }
            &&& after.uses.len() == view.uses.len()
            &&& after.uses[last].item == view.uses[u].item
            &&& !ends ==> after.uses[last].count == view.uses[u].count + 1
            &&& ends ==> 2 * after.uses[last].count <= view.uses[u].count + 1 < 2
                * after.uses[last].count + 2
            &&& forall|w: int|
                0 <= w < last ==> {
                    let before = view.uses[if w < u {
                        w
                    } else {
                        w + 1
                    }];
                    &&& (#[trigger] after.uses[w]).item == before.item
                    &&& !ends ==> after.uses[w].count == before.count
                    &&& ends && before.count >= 2 ==> 2 * after.uses[w].count <= before.count < 2
                        * after.uses[w].count + 2
                    &&& ends && before.count <= 1 ==> after.uses[w].count == 1
                }
        }),
{
    law_lookup(view, key);
    assert(1 <= view.uses[u].count);
    let raised = view.uses.remove(u).push(
        Rank { item: view.uses[u].item, count: view.uses[u].count + 1 },
    );
    assert(view.used(key).uses.len() == raised.len());
}

/// Overwriting a value changes the value of that entry and nothing else.
pub proof fn law_value_replaced<K, V, Q: ?Sized>(view: LfuView<K, V>, key: &Q, value: V, i: int)
    requires
        view.valid(),
        borrows_apart::<K, Q>(),
        0 <= i < view.pairs.len(),
        key_is(view.pairs[i].0, key),
    ensures
        ({
            let after = view.with_value(key, value);
            &&& after.capacity == view.capacity
            &&& after.interval == view.interval
            &&& after.ops == view.ops
            &&& after.uses == view.uses
            &&& after.pairs.len() == view.pairs.len()
            &&& after.pairs[i].0 == view.pairs[i].0
            &&& after.pairs[i].1 == value
            &&& forall|j: int|
                0 <= j < view.pairs.len() && j != i ==> #[trigger] after.pairs[j] == view.pairs[j]
        }),
{
    law_lookup(view, key);
}

/// A removal takes out the entry of the key and its use, and leaves all others as they are and in
/// their orders.
pub proof fn law_entry_removed<K, V, Q: ?Sized>(view: LfuView<K, V>, key: &Q, i: int, u: int)
    requires
        view.valid(),
        borrows_apart::<K, Q>(),
        0 <= i < view.pairs.len(),
        key_is(view.pairs[i].0, key),
        0 <= u < view.uses.len(),
        key_is(view.uses[u].item, key),
    ensures
        ({
            let after = view.without(key);
            &&& after.capacity == view.capacity
            &&& after.interval == view.interval
            &&& after.ops == view.ops
            &&& after.pairs.len() == view.pairs.len() - 1
            &&& after.uses.len() == view.uses.len() - 1
            &&& forall|j: int|
                0 <= j < after.pairs.len() ==> #[trigger] after.pairs[j] == view.pairs[if j < i {
                    j
                } else {
                    j + 1
                }]
            &&& forall|w: int|
                0 <= w < after.uses.len() ==> #[trigger] after.uses[w] == view.uses[if w < u {
                    w
                } else {
                    w + 1
                }]
        }),
{
    law_lookup(view, key);
}

/// An eviction is the removal of the key that has been used least often, and of those least recently.
pub proof fn law_least_used_evicted<K, V>(view: LfuView<K, V>, i: int, u: int)
    requires
        view.valid(),
        0 <= i < view.pairs.len(),
        0 <= u < view.uses.len(),
        view.pairs[i].0 == view.uses[u].item,
        forall|w: int|
            0 <= w < view.uses.len() && w != u ==> view.uses[u].count < (
            #[trigger] view.uses[w]).count || (view.uses[u].count == view.uses[w].count && u < w),
    ensures
        ({
            let after = view.evicted();
            &&& after.capacity == view.capacity
            &&& after.interval == view.interval
            &&& after.ops == view.ops
            &&& after.pairs.len() == view.pairs.len() - 1
            &&& after.uses.len() == view.uses.len() - 1
            &&& forall|j: int|
                0 <= j < after.pairs.len() ==> #[trigger] after.pairs[j] == view.pairs[if j < i {
                    j
                } else {
                    j + 1
                }]
            &&& forall|w: int|
                0 <= w < after.uses.len() ==> #[trigger] after.uses[w] == view.uses[if w < u {
                    w
                } else {
                    w + 1
                }]
        }),
{
    lemma_borrows_itself_apart::<K>();
    law_victim(view, u);
    law_entry_removed(view, &view.victim(), i, u);
}

/// Putting under a key that is there exchanges its value and is a use of it.
pub proof fn law_put_present<K, V>(view: LfuView<K, V>, key: K, value: V, i: int, u: int)
    requires
        view.valid(),
        0 <= i < view.pairs.len(),
        view.pairs[i].0 == key,
        0 <= u < view.uses.len(),
        view.uses[u].item == key,
    ensures
        ({
            let after = view.put(key, value);
            let last = view.uses.len() - 1;
            let ends = view.interval matches Some(interval) && view.ops + 1 >= interval;
            &&& after.capacity == view.capacity
            &&& after.interval == view.interval
            &&& after.ops == if view.interval is None {
                view.ops
            } else if ends {
                0
            } else {
                view.ops + 1
            }
            &&& after.pairs.len() == view.pairs.len()
            &&& after.pairs[i].0 == key
            &&& after.pairs[i].1 == value
            &&& forall|j: int|
                0 <= j < view.pairs.len() && j != i ==> #[trigger] after.pairs[j] == view.pairs[j]
            &&& after.uses.len() == view.uses.len()
            &&& after.uses[last].item == key
            &&& !ends ==> after.uses[last].count == view.uses[u].count + 1
            &&& ends ==> 2 * after.uses[last].count <= view.uses[u].count + 1 < 2
                * after.uses[last].count + 2
            &&& forall|w: int|
                0 <= w < last ==> {
                    let before = view.uses[if w < u {
                        w
                    } else {
                        w + 1
                    }];
                    &&& (#[trigger] after.uses[w]).item == before.item
                    &&& !ends ==> after.uses[w].count == before.count
                    &&& ends && before.count >= 2 ==> 2 * after.uses[w].count <= before.count < 2
                        * after.uses[w].count + 2
                    &&& ends && before.count <= 1 ==> after.uses[w].count == 1
                }
        }),
{
    lemma_borrows_itself_apart::<K>();
    law_lookup(view, &key);
    law_value_replaced(view, &key, value, i);
    law_with_value_valid(view, &key, value);
    law_use(view.with_value(&key, value), &key, u);
}

/// Putting under a new key adds one entry behind all others, used once and last, where there is room.
/// All others stay as they are, but for the halving of every count where an interval is completed.
pub proof fn law_put_new<K, V>(view: LfuView<K, V>, key: K, value: V)
    requires
        view.valid(),
        forall|i: int| 0 <= i < view.pairs.len() ==> (#[trigger] view.pairs[i]).0 != key,
        view.pairs.len() < view.capacity,
    ensures
        ({
            let after = view.put(key, value);
            let len = view.pairs.len() as int;
            let ends = view.interval matches Some(interval) && view.ops + 1 >= interval;
            &&& after.capacity == view.capacity
            &&& after.interval == view.interval
            &&& after.ops == if view.interval is None {
                view.ops
            } else if ends {
                0
            } else {
                view.ops + 1
            }
            &&& after.pairs.len() == len + 1
            &&& after.pairs[len].0 == key
            &&& after.pairs[len].1 == value
            &&& forall|j: int| 0 <= j < len ==> #[trigger] after.pairs[j] == view.pairs[j]
            &&& after.uses.len() == len + 1
            &&& after.uses[len].item == key
            &&& after.uses[len].count == 1
            &&& forall|w: int|
                0 <= w < len ==> {
                    let before = view.uses[w];
                    &&& (#[trigger] after.uses[w]).item == before.item
                    &&& !ends ==> after.uses[w].count == before.count
                    &&& ends && before.count >= 2 ==> 2 * after.uses[w].count <= before.count < 2
                        * after.uses[w].count + 2
                    &&& ends && before.count <= 1 ==> after.uses[w].count == 1
                }
        }),
{
    lemma_borrows_itself_apart::<K>();
    law_lookup(view, &key);
}

/// Putting under a new key into a full cache takes out the key that has been used least often, and of
/// those least recently, and adds the new one behind all others, used once and last. All others stay
/// as they are, but for the halving of every count where an interval is completed.
pub proof fn law_put_full<K, V>(view: LfuView<K, V>, key: K, value: V, i: int, u: int)
    requires
        view.valid(),
        forall|j: int| 0 <= j < view.pairs.len() ==> (#[trigger] view.pairs[j]).0 != key,
        view.pairs.len() == view.capacity,
        0 <= i < view.pairs.len(),
        0 <= u < view.uses.len(),
        view.pairs[i].0 == view.uses[u].item,
        forall|w: int|
            0 <= w < view.uses.len() && w != u ==> view.uses[u].count < (
            #[trigger] view.uses[w]).count || (view.uses[u].count == view.uses[w].count && u < w),
    ensures
        ({
            let after = view.put(key, value);
            let last = view.pairs.len() - 1;
            let ends = view.interval matches Some(interval) && view.ops + 1 >= interval;
            &&& after.capacity == view.capacity
            &&& after.interval == view.interval
            &&& after.ops == if view.interval is None {
                view.ops
            } else if ends {
                0
            } else {
                view.ops + 1
            }
            &&& after.pairs.len() == view.pairs.len()
            &&& after.pairs[last].0 == key
            &&& after.pairs[last].1 == value
            &&& forall|j: int|
                0 <= j < last ==> #[trigger] after.pairs[j] == view.pairs[if j < i {
                    j
                } else {
                    j + 1
                }]
            &&& after.uses.len() == view.uses.len()
            &&& after.uses[last].item == key
            &&& after.uses[last].count == 1
            &&& forall|w: int|
                0 <= w < last ==> {
                    let before = view.uses[if w < u {
                        w
                    } else {
                        w + 1
                    }];
                    &&& (#[trigger] after.uses[w]).item == before.item
                    &&& !ends ==> after.uses[w].count == before.count
                    &&& ends && before.count >= 2 ==> 2 * after.uses[w].count <= before.count < 2
                        * after.uses[w].count + 2
                    &&& ends && before.count <= 1 ==> after.uses[w].count == 1
                }
        }),
{
    lemma_borrows_itself_apart::<K>();
    law_lookup(view, &key);
    law_least_used_evicted(view, i, u);
    assert(view.with_room() == view.evicted());
    law_clock(view.with_room().with_new(key, value));
}

/// What an operation does to one entry it does by its positions, whatever the keys: a use, an
/// overwrite, a removal and an insertion.
pub proof fn law_positions<K, V>(view: LfuView<K, V>, i: int, u: int, key: K, value: V)
    requires
        0 <= i < view.pairs.len(),
        0 <= u < view.uses.len(),
    ensures
        view.same_entry(i, u) <==> view.pairs[i].0 == view.uses[u].item,
        ({
            let after = view.used_at(u);
            let raised = LfuView {
                uses: view.uses.remove(u).push(
                    Rank { item: view.uses[u].item, count: view.uses[u].count + 1 },
                ),
                ..view
            };
            after == raised.ticked()
        }),
        ({
            let after = view.with_value_at(i, value);
            &&& after == (LfuView { pairs: after.pairs, ..view })
            &&& after.pairs == view.pairs.update(i, (view.pairs[i].0, value))
        }),
        ({
            let after = view.without_at(i, u);
            &&& after == (LfuView { pairs: after.pairs, uses: after.uses, ..view })
            &&& after.pairs == view.pairs.remove(i)
            &&& after.uses == view.uses.remove(u)
        }),
        ({
            let after = view.with_new(key, value);
            &&& after == (LfuView { pairs: after.pairs, uses: after.uses, ..view })
            &&& after.pairs == view.pairs.push((key, value))
            &&& after.uses == view.uses.push(Rank { item: key, count: 1 })
        }),
{
}

/// A cache without entries is what it is made as, and what clearing leaves of another.
pub proof fn law_no_entries<K, V>(capacity: nat, interval: Option<nat>, view: LfuView<K, V>)
    ensures
        LfuView::<K, V>::fresh(capacity, interval).capacity == capacity,
        LfuView::<K, V>::fresh(capacity, interval).interval == interval,
        LfuView::<K, V>::fresh(capacity, interval).ops == 0,
        LfuView::<K, V>::fresh(capacity, interval).pairs.len() == 0,
        LfuView::<K, V>::fresh(capacity, interval).uses.len() == 0,
        view.cleared().capacity == view.capacity,
        view.cleared().interval == view.interval,
        view.cleared().ops == 0,
        view.cleared().pairs.len() == 0,
        view.cleared().uses.len() == 0,
{
}

/// A cache has the capacity that is asked for, from one up to half of the highest slot number; below
/// and above it has the nearest of these.
pub proof fn law_capacity(capacity: usize)
    ensures
        1 <= capacity <= 0x7fff_ffff ==> clamped(capacity) == capacity,
        capacity == 0 ==> clamped(capacity) == 1,
        capacity > 0x7fff_ffff ==> clamped(capacity) == 0x7fff_ffff,
        DEFAULT_CAPACITY == 128,
        MAX_CAPACITY / 2 == 0x7fff_ffff,
{
}

/// Keys of every cache without entries can be told apart and found, where the key type and the hash
/// builder keep to what they promise; and a lookup finds what it should by every borrowed type that
/// tells keys apart, above all by the key type itself.
pub proof fn law_coherent<K: Hash + Eq, V, Q: Eq + ?Sized, S: BuildHasher>(
    cache: &LfuCache<K, V, S>,
)
    requires
        obeys_key_model::<K>(),
        K::obeys_eq_spec(),
        builds_valid_hashers::<S>(),
    ensures
        cache@.pairs.len() == 0 ==> cache.coherent(),
        cache.coherent() ==> cache.finds::<K>(),
        cache.coherent() && Q::obeys_eq_spec() && (forall|k: K, l: K, q: &Q| #[trigger]
            key_is(k, q) && #[trigger] key_is(l, q) ==> k == l) ==> cache.finds::<Q>(),
{
    lemma_borrows_itself_apart::<K>();
}

/// A use is ruled out only by a count that is at its limit: it is possible where every count is below
/// it, and where lookups find what they should, the count of the key alone has to be.
pub proof fn law_can_use<K: Hash + Eq, V, Q: Eq + ?Sized, S: BuildHasher>(
    cache: &LfuCache<K, V, S>,
    key: &Q,
)
    ensures
        (forall|u: int|
            0 <= u < cache@.uses.len() ==> (#[trigger] cache@.uses[u]).count < u64::MAX)
            ==> cache.can_use(key),
        cache.finds::<Q>() && (forall|u: int|
            0 <= u < cache@.uses.len() && key_is((#[trigger] cache@.uses[u]).item, key)
                ==> cache@.uses[u].count < u64::MAX) ==> cache.can_use(key),
{
    law_peak(cache@);
}

/// An iterator hands out every entry once, the one inserted first in front.
pub proof fn law_iter_visits_all<'a, K, V>(iter: Iter<'a, K, V>)
    ensures
        iter.obeys_prophetic_iter_laws(),
        IteratorSpec::remaining(&iter).len() == iter.pairs().len(),
        forall|i: int|
            0 <= i < iter.pairs().len() ==> *(#[trigger] IteratorSpec::remaining(&iter)[i]).0
                == iter.pairs()[i].0 && *IteratorSpec::remaining(&iter)[i].1 == iter.pairs()[i].1,
{
}

/// An iterator over mutable values hands out every reference once, the one inserted first in front.
pub proof fn law_iter_mut_visits_all<'a, K, V>(iter: IterMut<'a, K, V>)
    ensures
        iter.obeys_prophetic_iter_laws(),
        IteratorSpec::remaining(&iter).len() == iter.items().len(),
        forall|i: int|
            0 <= i < iter.items().len() ==> #[trigger] IteratorSpec::remaining(&iter)[i]
                == iter.items()[i],
{
}

/// An iterator that owns the entries hands out every one once, the one inserted first in front.
pub proof fn law_into_iter_visits_all<K, V>(iter: IntoIter<K, V>)
    ensures
        iter.obeys_prophetic_iter_laws(),
        IteratorSpec::remaining(&iter).len() == iter.pairs().len(),
        forall|i: int|
            0 <= i < iter.pairs().len() ==> #[trigger] IteratorSpec::remaining(&iter)[i]
                == iter.pairs()[i],
{
}

/// An iterator over keys hands out the key of every entry once, the one inserted first in front.
pub proof fn law_keys_visit_all<'a, K, V>(keys: Keys<'a, K, V>)
    ensures
        keys.obeys_prophetic_iter_laws(),
        IteratorSpec::remaining(&keys).len() == keys.pairs().len(),
        forall|i: int|
            0 <= i < keys.pairs().len() ==> *(#[trigger] IteratorSpec::remaining(&keys)[i])
                == keys.pairs()[i].0,
{
}

/// An iterator over values hands out the value of every entry once, the one inserted first in front.
pub proof fn law_values_visit_all<'a, K, V>(values: Values<'a, K, V>)
    ensures
        values.obeys_prophetic_iter_laws(),
        IteratorSpec::remaining(&values).len() == values.pairs().len(),
        forall|i: int|
            0 <= i < values.pairs().len() ==> *(#[trigger] IteratorSpec::remaining(&values)[i])
                == values.pairs()[i].1,
{
}

/// An iterator over mutable values alone hands out every reference once, the one inserted first in
/// front.
pub proof fn law_values_mut_visit_all<'a, V>(values: ValuesMut<'a, V>)
    ensures
        values.obeys_prophetic_iter_laws(),
        IteratorSpec::remaining(&values).len() == values.items().len(),
        forall|i: int|
            0 <= i < values.items().len() ==> #[trigger] IteratorSpec::remaining(&values)[i]
                == values.items()[i],
{
}

} // verus!

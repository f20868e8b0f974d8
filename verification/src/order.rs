//! Putting items in order without changing the order of those that rank
//! alike.

use vstd::prelude::*;
use vstd::set_lib::{lemma_int_range, lemma_set_subset_finite, lemma_subset_equality, set_int_range};

verus! {

/// `after` holds the items of `before` in order of rank, `from[i]` being
/// the place in `before` of the item that stands at `i` in `after`: no item
/// stands before one that ranks lower, and of two that rank alike the one
/// that stood first still stands first. `le` says whether an item ranks as
/// low as another or lower.
pub open spec fn arranged<T>(
    before: Seq<T>,
    after: Seq<T>,
    from: Seq<int>,
    le: spec_fn(T, T) -> bool,
) -> bool {
    &&& after.len() == before.len()
    &&& from.len() == before.len()
    &&& forall|i: int|
        0 <= i < after.len() ==> 0 <= #[trigger] from[i] < before.len() && after[i]
            == before[from[i]]
    &&& forall|i: int, j: int|
        0 <= i < j < after.len() ==> le(#[trigger] after[i], #[trigger] after[j]) && (le(
            after[j],
            after[i],
        ) ==> from[i] < from[j])
}

/// `after` holds the items of `before`, each as often as `before` does, in
/// order of rank, those that rank alike in the order they had.
pub open spec fn sorted_stably<T>(
    before: Seq<T>,
    after: Seq<T>,
    le: spec_fn(T, T) -> bool,
) -> bool {
    exists|from: Seq<int>| arranged(before, after, from, le)
}

/// In an arrangement every item of `before` has its place in `after`, and
/// only one.
pub proof fn lemma_arranged_moves_every_item<T>(
    before: Seq<T>,
    after: Seq<T>,
    from: Seq<int>,
    le: spec_fn(T, T) -> bool,
)
    requires
        arranged(before, after, from, le),
    ensures
        from.no_duplicates(),
        forall|p: int| 0 <= p < before.len() ==> from.contains(p),
{
    assert forall|i: int, j: int| 0 <= i < j < from.len() implies from[i] != from[j] by {
        if from[i] == from[j] {
            assert(after[i] == before[from[i]]);
            assert(after[j] == before[from[j]]);
            assert(le(after[i], after[j]));
        }
    }
    let places = from.to_set();
    let all = set_int_range(0, before.len() as int);
    lemma_int_range(0, before.len() as int);
    assert(places.subset_of(all)) by {
        assert forall|p: int| places.contains(p) implies all.contains(p) by {
            let i = choose|i: int| 0 <= i < from.len() && from[i] == p;
            assert(0 <= from[i] < before.len());
        }
    }
    lemma_set_subset_finite(all, places);
    from.unique_seq_to_set();
    lemma_subset_equality(places, all);
    assert forall|p: int| 0 <= p < before.len() implies from.contains(p) by {
        assert(all.contains(p));
        assert(places.contains(p));
    }
}

/// There is only one way to sort items by rank and leave those that rank
/// alike in their order.
pub proof fn lemma_sorted_stably_is_unique<T>(
    before: Seq<T>,
    first: Seq<T>,
    second: Seq<T>,
    le: spec_fn(T, T) -> bool,
)
    requires
        sorted_stably(before, first, le),
        sorted_stably(before, second, le),
    ensures
        first == second,
{
    let from_first = choose|from: Seq<int>| arranged(before, first, from, le);
    let from_second = choose|from: Seq<int>| arranged(before, second, from, le);
    lemma_arranged_moves_every_item(before, first, from_first, le);
    lemma_arranged_moves_every_item(before, second, from_second, le);
    assert forall|i: int| 0 <= i < before.len() implies from_first[i] == from_second[i] by {
        lemma_same_places(before, first, second, from_first, from_second, le, i);
    }
    assert(first =~= second) by {
        assert forall|i: int| 0 <= i < first.len() implies first[i] == second[i] by {
            assert(first[i] == before[from_first[i]]);
            assert(second[i] == before[from_second[i]]);
        }
    }
}

/// Two arrangements of the same items take the item at each place from the
/// same place.
proof fn lemma_same_places<T>(
    before: Seq<T>,
    first: Seq<T>,
    second: Seq<T>,
    from_first: Seq<int>,
    from_second: Seq<int>,
    le: spec_fn(T, T) -> bool,
    i: int,
)
    requires
        arranged(before, first, from_first, le),
        arranged(before, second, from_second, le),
        forall|p: int| 0 <= p < before.len() ==> from_first.contains(p),
        forall|p: int| 0 <= p < before.len() ==> from_second.contains(p),
        from_first.no_duplicates(),
        from_second.no_duplicates(),
        0 <= i < before.len(),
    ensures
        from_first[i] == from_second[i],
    decreases i,
{
    assert forall|k: int| 0 <= k < i implies from_first[k] == from_second[k] by {
        lemma_same_places(before, first, second, from_first, from_second, le, k);
    }
    let p = from_first[i];
    let q = from_second[i];
    if p != q {
        // The second arrangement has the item from `p` further down, and
        // the first has the item from `q` further down.
        assert(0 <= p < before.len());
        assert(0 <= q < before.len());
        assert(from_second.contains(p));
        assert(from_first.contains(q));
        let j = choose|j: int| 0 <= j < from_second.len() && from_second[j] == p;
        let k = choose|k: int| 0 <= k < from_first.len() && from_first[k] == q;
        if j < i {
            assert(from_first[j] == from_second[j]);
        }
        if k < i {
            assert(from_first[k] == from_second[k]);
        }
        assert(i < j);
        assert(i < k);
        assert(first[i] == before[p]);
        assert(first[k] == before[q]);
        assert(second[i] == before[q]);
        assert(second[j] == before[p]);
        assert(le(first[i], first[k]));
        assert(le(second[i], second[j]));
    }
}

/// An arrangement of items is one of what stands for them, where what
/// stands for them ranks as they do.
pub proof fn lemma_arranged_alike<T, V>(
    before: Seq<T>,
    after: Seq<T>,
    from: Seq<int>,
    le: spec_fn(T, T) -> bool,
    stand_for: spec_fn(T) -> V,
    le_alike: spec_fn(V, V) -> bool,
)
    requires
        arranged(before, after, from, le),
        forall|a: T, b: T| #[trigger] le(a, b) == le_alike(stand_for(a), stand_for(b)),
    ensures
        arranged(before.map_values(stand_for), after.map_values(stand_for), from, le_alike),
{
    let before_alike = before.map_values(stand_for);
    let after_alike = after.map_values(stand_for);
    assert forall|i: int, j: int| 0 <= i < j < after_alike.len() implies le_alike(
        #[trigger] after_alike[i],
        #[trigger] after_alike[j],
    ) && (le_alike(after_alike[j], after_alike[i]) ==> from[i] < from[j]) by {
        assert(le(after[i], after[j]));
        assert(le(after[j], after[i]) == le_alike(after_alike[j], after_alike[i]));
    }
}

/// Items that rank: of any two, one ranks as low as the other or lower.
pub trait Ranked: Sized {
    /// Whether `self` ranks as low as `other` or lower.
    spec fn rank_le(&self, other: &Self) -> bool;

    /// Tests whether `self` ranks as low as `other` or lower.
    fn ranks_le(&self, other: &Self) -> (le: bool)
        ensures
            le == self.rank_le(other),
    ;

    /// Of any two items, one ranks as low as the other or lower.
    proof fn lemma_rank_total(a: &Self, b: &Self)
        ensures
            a.rank_le(b) || b.rank_le(a),
    ;

    /// What ranks no higher than an item that ranks no higher than a third
    /// ranks no higher than the third.
    proof fn lemma_rank_transitive(a: &Self, b: &Self, c: &Self)
        requires
            a.rank_le(b),
            b.rank_le(c),
        ensures
            a.rank_le(c),
    ;
}

/// How items of `T` rank.
pub open spec fn by_rank<T: Ranked>() -> spec_fn(T, T) -> bool {
    |a: T, b: T| a.rank_le(&b)
}

/// Sorts `items` by rank. Items that rank alike keep their order.
pub fn sort_stably<T: Ranked>(items: &mut Vec<T>)
    ensures
        sorted_stably(old(items)@, final(items)@, by_rank::<T>()),
{
    let ghost before = items@;
    let ghost count = before.len();
    // Turn the items round, so that popping hands them out in their order.
    let mut rest: Vec<T> = Vec::new();
    while items.len() > 0
        invariant
            count == before.len(),
            items@.len() + rest@.len() == count,
            items@ == before.take(items@.len() as int),
            forall|m: int| 0 <= m < rest@.len() ==> #[trigger] rest@[m] == before[count - 1 - m],
        decreases items@.len(),
    {
        let item = items.pop().unwrap();
        rest.push(item);
    }
    let ghost mut from: Seq<int> = Seq::empty();
    while rest.len() > 0
        invariant
            count == before.len(),
            items@.len() + rest@.len() == count,
            forall|m: int| 0 <= m < rest@.len() ==> #[trigger] rest@[m] == before[count - 1 - m],
            arranged(before.take(items@.len() as int), items@, from, by_rank::<T>()),
        decreases rest@.len(),
    {
        let ghost done = items@.len() as int;
        let ghost sorted = items@;
        let item = rest.pop().unwrap();
        assert(item == before[done]);
        // The item goes behind all that rank as low or lower.
        let mut at: usize = items.len();
        let mut found = false;
        while at > 0 && !found
            invariant
                items@ == sorted,
                at <= sorted.len(),
                arranged(before.take(done), sorted, from, by_rank::<T>()),
                forall|j: int| at <= j < sorted.len() ==> !(#[trigger] sorted[j]).rank_le(&item),
                found ==> at > 0 && sorted[at - 1].rank_le(&item),
            decreases at + if found { 0int } else { 1int },
        {
            if items[at - 1].ranks_le(&item) {
                found = true;
            } else {
                at = at - 1;
            }
        }
        items.insert(at, item);
        proof {
            let moved = from.insert(at as int, done);
            let now = items@;
            assert(now == sorted.insert(at as int, item));
            assert forall|i: int| 0 <= i < at implies (#[trigger] sorted[i]).rank_le(&item) by {
                if i < at - 1 {
                    assert(by_rank::<T>()(sorted[i], sorted[at - 1]));
                    T::lemma_rank_transitive(&sorted[i], &sorted[at - 1], &item);
                }
            }
            assert forall|i: int| 0 <= i < now.len() implies 0 <= #[trigger] moved[i] < done + 1
                && now[i] == before.take(done + 1)[moved[i]] by {
                if i < at {
                    assert(moved[i] == from[i]);
                    assert(now[i] == sorted[i]);
                    assert(sorted[i] == before.take(done)[from[i]]);
                } else if i > at {
                    assert(moved[i] == from[i - 1]);
                    assert(now[i] == sorted[i - 1]);
                    assert(sorted[i - 1] == before.take(done)[from[i - 1]]);
                }
            }
            assert forall|i: int, j: int| 0 <= i < j < now.len() implies by_rank::<T>()(
                #[trigger] now[i],
                #[trigger] now[j],
            ) && (by_rank::<T>()(now[j], now[i]) ==> moved[i] < moved[j]) by {
                let a = if i < at {
                    i
                } else {
                    i - 1
                };
                let b = if j < at {
                    j
                } else {
                    j - 1
                };
                if i == at {
                    assert(now[j] == sorted[b]);
                    assert(!sorted[b].rank_le(&item));
                    T::lemma_rank_total(&sorted[b], &item);
                } else if j == at {
                    assert(now[i] == sorted[a]);
                    assert(sorted[a].rank_le(&item));
                    assert(0 <= from[a] < done);
                } else {
                    assert(now[i] == sorted[a]);
                    assert(now[j] == sorted[b]);
                    assert(by_rank::<T>()(sorted[a], sorted[b]));
                    assert(moved[i] == from[a]);
                    assert(moved[j] == from[b]);
                }
            }
            from = moved;
        }
    }
    proof {
        assert(before.take(count as int) =~= before);
    }
}

} // verus!

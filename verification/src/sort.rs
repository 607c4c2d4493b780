//! A stable merge sort over owned records.
//!
//! Records are moved, never copied: a list is split in two, each half is
//! sorted, and the halves are merged from their largest records down, which
//! needs nothing of a vector but `pop` and `push`. The merge thus builds its
//! result back to front and turns it round at the end.

use vstd::prelude::*;

use crate::mode::SortMode;
use crate::order::{
    has_key, is_ranking, lemma_ranking_is_permutation, lemma_tier_empty, ordered, tier,
};
use crate::record::Record;

verus! {

/// Tier by tier, `merged` holds the records of `left` followed by those of
/// `right`.
spec fn merges<T>(
    merged: Seq<Record<T>>,
    left: Seq<Record<T>>,
    right: Seq<Record<T>>,
    mode: SortMode,
) -> bool {
    forall|key: int| #[trigger]
        tier(merged, mode, key) == tier(left, mode, key) + tier(right, mode, key)
}

/// No record of the list has a key above the bound.
spec fn all_at_most<T>(records: Seq<Record<T>>, mode: SortMode, bound: int) -> bool {
    forall|i: int| 0 <= i < records.len() ==> records[i].sort_key(mode) <= bound
}

/// Every record of the list has a key above the bound.
spec fn all_above<T>(records: Seq<Record<T>>, mode: SortMode, bound: int) -> bool {
    forall|i: int| 0 <= i < records.len() ==> records[i].sort_key(mode) > bound
}

/// The tiers of a list with one record put in front.
proof fn lemma_tier_prepend<T>(first: Record<T>, rest: Seq<Record<T>>, mode: SortMode, key: int)
    ensures
        tier(seq![first] + rest, mode, key) == if first.sort_key(mode) == key {
            seq![first] + tier(rest, mode, key)
        } else {
            tier(rest, mode, key)
        },
{
    rest.lemma_filter_prepend(first, has_key(mode, key));
}

/// A record put in front of an ordered list, with a key no larger than any
/// in the list, leaves it ordered.
proof fn lemma_ordered_prepend<T>(first: Record<T>, rest: Seq<Record<T>>, mode: SortMode)
    requires
        ordered(rest, mode),
        rest.len() > 0 ==> first.sort_key(mode) <= rest[0].sort_key(mode),
    ensures
        ordered(seq![first] + rest, mode),
{
}

/// An ordered list without its last record is ordered still, and holds no
/// key above that record's.
proof fn lemma_ordered_drop_last<T>(records: Seq<Record<T>>, mode: SortMode)
    requires
        ordered(records, mode),
        records.len() > 0,
    ensures
        ordered(records.drop_last(), mode),
        all_at_most(records.drop_last(), mode, records.last().sort_key(mode)),
{
}

/// An ordered list holds no key above a bound that its last record keeps.
proof fn lemma_ordered_at_most<T>(records: Seq<Record<T>>, mode: SortMode, bound: int)
    requires
        ordered(records, mode),
        records.len() > 0 ==> records.last().sort_key(mode) <= bound,
    ensures
        all_at_most(records, mode, bound),
{
}

/// A record with a key above the bound, put in front of a list of such
/// records, gives a list of such records.
proof fn lemma_all_above_prepend<T>(
    first: Record<T>,
    rest: Seq<Record<T>>,
    mode: SortMode,
    bound: int,
)
    requires
        first.sort_key(mode) > bound,
        all_above(rest, mode, bound),
    ensures
        all_above(seq![first] + rest, mode, bound),
{
}

/// Nothing merges nothing with nothing.
proof fn lemma_merges_nothing<T>(mode: SortMode)
    ensures
        merges(Seq::<Record<T>>::empty(), Seq::empty(), Seq::empty(), mode),
{
    let nothing = Seq::<Record<T>>::empty();
    assert forall|key: int| #[trigger]
        tier(nothing, mode, key) == tier(nothing, mode, key) + tier(nothing, mode, key) by {
        nothing.lemma_filter_len(has_key(mode, key));
    }
}

/// Moving the next record from the left run to the front of the merged list
/// keeps the merge.
proof fn lemma_take_left<T>(
    merged: Seq<Record<T>>,
    left: Seq<Record<T>>,
    right: Seq<Record<T>>,
    next: Record<T>,
    mode: SortMode,
)
    requires
        merges(merged, left, right, mode),
    ensures
        merges(seq![next] + merged, seq![next] + left, right, mode),
{
    assert forall|key: int| #[trigger]
        tier(seq![next] + merged, mode, key) == tier(seq![next] + left, mode, key) + tier(
            right,
            mode,
            key,
        ) by {
        lemma_tier_prepend(next, merged, mode, key);
        lemma_tier_prepend(next, left, mode, key);
    }
}

/// Moving the next record from the right run to the front of the merged list
/// keeps the merge, provided that every record already taken from the left
/// run has a larger key.
proof fn lemma_take_right<T>(
    merged: Seq<Record<T>>,
    left: Seq<Record<T>>,
    right: Seq<Record<T>>,
    next: Record<T>,
    mode: SortMode,
)
    requires
        merges(merged, left, right, mode),
        all_above(left, mode, next.sort_key(mode)),
    ensures
        merges(seq![next] + merged, left, seq![next] + right, mode),
{
    assert forall|key: int| #[trigger]
        tier(seq![next] + merged, mode, key) == tier(left, mode, key) + tier(
            seq![next] + right,
            mode,
            key,
        ) by {
        lemma_tier_prepend(next, merged, mode, key);
        lemma_tier_prepend(next, right, mode, key);
        if next.sort_key(mode) == key {
            lemma_tier_empty(left, mode, key);
        }
    }
}

/// The list back to front.
fn reversed<T>(list: Vec<T>) -> (turned: Vec<T>)
    ensures
        turned@ == list@.reverse(),
{
    let mut list = list;
    let ghost whole = list@;
    let mut turned: Vec<T> = Vec::new();
    while list.len() > 0
        invariant
            list@.len() + turned@.len() == whole.len(),
            list@ == whole.subrange(0, list@.len() as int),
            forall|i: int| 0 <= i < turned@.len() ==> turned@[i] == whole[whole.len() - 1 - i],
        decreases list@.len(),
    {
        if let Some(last) = list.pop() {
            turned.push(last);
        }
    }
    turned
}

/// Merges two ordered runs into one ordered list in which, among records of
/// equal key, those of the left run come first.
///
/// The largest record still in either run goes next onto `descending`; where
/// both runs end in the same key, the right run gives its record first, so
/// that it ends up behind the left run's.
fn merge<T>(left: Vec<Record<T>>, right: Vec<Record<T>>, mode: SortMode) -> (merged: Vec<Record<T>>)
    requires
        ordered(left@, mode),
        ordered(right@, mode),
    ensures
        ordered(merged@, mode),
        merges(merged@, left@, right@, mode),
{
    let mut left = left;
    let mut right = right;
    let ghost left_whole = left@;
    let ghost right_whole = right@;
    let ghost mut left_taken: Seq<Record<T>> = Seq::empty();
    let ghost mut right_taken: Seq<Record<T>> = Seq::empty();
    let mut descending: Vec<Record<T>> = Vec::new();
    proof {
        lemma_merges_nothing::<T>(mode);
    }
    while left.len() > 0 || right.len() > 0
        invariant
            left_whole == left@ + left_taken,
            right_whole == right@ + right_taken,
            ordered(left@, mode),
            ordered(right@, mode),
            ordered(descending@.reverse(), mode),
            merges(descending@.reverse(), left_taken, right_taken, mode),
            descending@.len() > 0 ==> all_at_most(left@, mode, descending@.last().sort_key(mode)),
            descending@.len() > 0 ==> all_at_most(right@, mode, descending@.last().sort_key(mode)),
            right@.len() > 0 ==> all_above(left_taken, mode, right@.last().sort_key(mode)),
        decreases left@.len() + right@.len(),
    {
        let ghost merged = descending@.reverse();
        let ghost left_before = left@;
        let ghost right_before = right@;
        let from_right: bool = if left.len() == 0 {
            true
        } else if right.len() == 0 {
            false
        } else {
            right[right.len() - 1].key_for(mode) >= left[left.len() - 1].key_for(mode)
        };
        if from_right {
            if let Some(next) = right.pop() {
                proof {
                    lemma_ordered_drop_last(right_before, mode);
                    lemma_ordered_at_most(left@, mode, next.sort_key(mode));
                    lemma_ordered_prepend(next, merged, mode);
                    lemma_take_right(merged, left_taken, right_taken, next, mode);
                    right_taken = seq![next] + right_taken;
                    assert(descending@.push(next).reverse() =~= seq![next] + merged);
                }
                descending.push(next);
            }
        } else {
            if let Some(next) = left.pop() {
                proof {
                    lemma_ordered_drop_last(left_before, mode);
                    lemma_ordered_at_most(right@, mode, next.sort_key(mode));
                    lemma_ordered_prepend(next, merged, mode);
                    lemma_take_left(merged, left_taken, right_taken, next, mode);
                    if right@.len() > 0 {
                        lemma_all_above_prepend(
                            next,
                            left_taken,
                            mode,
                            right@.last().sort_key(mode),
                        );
                    }
                    left_taken = seq![next] + left_taken;
                    assert(descending@.push(next).reverse() =~= seq![next] + merged);
                }
                descending.push(next);
            }
        }
    }
    reversed(descending)
}

/// Sorts the records by their sort key, smallest first, keeping records of
/// equal key in the order in which they came.
pub fn stable_sort<T>(items: Vec<Record<T>>, mode: SortMode) -> (sorted: Vec<Record<T>>)
    ensures
        is_ranking(items@, sorted@, mode),
        sorted@.to_multiset() == items@.to_multiset(),
        sorted@.len() == items@.len(),
    decreases items@.len(),
{
    let mut left = items;
    let length: usize = left.len();
    if length <= 1 {
        return left;
    }
    let ghost whole = left@;
    let right = left.split_off(length / 2);
    let ghost left_half = left@;
    let ghost right_half = right@;
    let left_sorted = stable_sort(left, mode);
    let right_sorted = stable_sort(right, mode);
    let sorted = merge(left_sorted, right_sorted, mode);
    proof {
        assert(whole =~= left_half + right_half);
        assert forall|key: int| #[trigger] tier(sorted@, mode, key) == tier(whole, mode, key) by {
            Seq::filter_distributes_over_add(left_half, right_half, has_key(mode, key));
        }
        lemma_ranking_is_permutation(whole, sorted@, mode);
    }
    sorted
}

} // verus!

//! What it means for one list to be the ranking of another, and what follows
//! from it.
//!
//! A ranking is fixed by two conditions. The output is ordered: sort keys
//! never decrease along it, which is to say that ratings never rise, or
//! distances never fall. And the output is stable: for every key, the
//! records with that key are the same in the output as in the input, in the
//! same order. Together they leave exactly one list, which holds the records
//! of the input and no others.

use vstd::prelude::*;

use crate::mode::SortMode;
use crate::number::{lemma_key_orders_as_value, value};
use crate::record::Record;

verus! {

/// Sort keys never decrease along the list.
pub open spec fn ordered<T>(records: Seq<Record<T>>, mode: SortMode) -> bool {
    forall|i: int, j: int|
        0 <= i < j < records.len() ==> records[i].sort_key(mode) <= records[j].sort_key(mode)
}

/// The test for a record to have the given sort key.
pub open spec fn has_key<T>(mode: SortMode, key: int) -> spec_fn(Record<T>) -> bool {
    |record: Record<T>| record.sort_key(mode) == key
}

/// The records with the given sort key, in the order in which the list holds
/// them.
pub open spec fn tier<T>(records: Seq<Record<T>>, mode: SortMode, key: int) -> Seq<Record<T>> {
    records.filter(has_key(mode, key))
}

/// Two lists hold, for every sort key, the same records with that key in the
/// same order.
pub open spec fn same_tiers<T>(
    left: Seq<Record<T>>,
    right: Seq<Record<T>>,
    mode: SortMode,
) -> bool {
    forall|key: int| #[trigger] tier(left, mode, key) == tier(right, mode, key)
}

/// `output` is the ranking of `input`: ordered, and tier by tier the same as
/// the input.
pub open spec fn is_ranking<T>(
    input: Seq<Record<T>>,
    output: Seq<Record<T>>,
    mode: SortMode,
) -> bool {
    &&& ordered(output, mode)
    &&& same_tiers(output, input, mode)
}

/// Along a list ordered by rating the ratings never rise.
pub proof fn lemma_ratings_descend<T>(records: Seq<Record<T>>, earlier: int, later: int)
    requires
        ordered(records, SortMode::Rating),
        0 <= earlier <= later < records.len(),
    ensures
        value(records[earlier].rating_bits()) >= value(records[later].rating_bits()),
{
    lemma_key_orders_as_value(records[later].rating_bits(), records[earlier].rating_bits());
    assert(records[earlier].sort_key(SortMode::Rating) <= records[later].sort_key(
        SortMode::Rating,
    ));
}

/// Along a list ordered by distance the distances never fall.
pub proof fn lemma_distances_ascend<T>(records: Seq<Record<T>>, earlier: int, later: int)
    requires
        ordered(records, SortMode::Distance),
        0 <= earlier <= later < records.len(),
    ensures
        value(records[earlier].distance_bits()) <= value(records[later].distance_bits()),
{
    lemma_key_orders_as_value(records[earlier].distance_bits(), records[later].distance_bits());
    assert(records[earlier].sort_key(SortMode::Distance) <= records[later].sort_key(
        SortMode::Distance,
    ));
}

/// Appending a record extends the tier of its own key and no other.
pub proof fn lemma_tier_push<T>(records: Seq<Record<T>>, last: Record<T>, mode: SortMode, key: int)
    ensures
        tier(records.push(last), mode, key) == if last.sort_key(mode) == key {
            tier(records, mode, key).push(last)
        } else {
            tier(records, mode, key)
        },
{
    reveal(Seq::filter);
    assert(records.push(last).drop_last() =~= records);
}

/// A tier is empty exactly when no record of the list has its key.
pub proof fn lemma_tier_empty<T>(records: Seq<Record<T>>, mode: SortMode, key: int)
    ensures
        tier(records, mode, key).len() == 0 <==> forall|i: int|
            0 <= i < records.len() ==> records[i].sort_key(mode) != key,
{
    let members = tier(records, mode, key);
    if members.len() > 0 {
        // The first member has the key, and stands somewhere in the list.
        records.lemma_filter_pred(has_key(mode, key), 0);
        records.lemma_filter_contains_rev(has_key(mode, key), members[0]);
    } else {
        assert forall|i: int| 0 <= i < records.len() implies records[i].sort_key(mode) != key by {
            if records[i].sort_key(mode) == key {
                records.lemma_filter_contains(has_key(mode, key), i);
            }
        }
    }
}

/// Two entries that pass a test stand in the filtered list in the order in
/// which they stand in the list itself.
proof fn lemma_filter_keeps_order<A>(list: Seq<A>, test: spec_fn(A) -> bool, i: int, j: int)
    requires
        0 <= i < j < list.len(),
        test(list[i]),
        test(list[j]),
    ensures
        exists|a: int, b: int|
            0 <= a < b < list.filter(test).len() && #[trigger] list.filter(test)[a] == list[i]
                && #[trigger] list.filter(test)[b] == list[j],
    decreases list.len(),
{
    reveal(Seq::filter);
    let front = list.drop_last();
    let kept = front.filter(test);
    if j == list.len() - 1 {
        // The later entry is kept last; the earlier one is kept before it.
        front.lemma_filter_contains(test, i);
        let a = choose|a: int| 0 <= a < kept.len() && kept[a] == front[i];
        let b = kept.len() as int;
        assert(list.filter(test)[a] == list[i] && list.filter(test)[b] == list[j]);
    } else {
        lemma_filter_keeps_order(front, test, i, j);
        let (a, b) = choose|a: int, b: int|
            0 <= a < b < kept.len() && #[trigger] kept[a] == front[i] && #[trigger] kept[b]
                == front[j];
        assert(list.filter(test)[a] == list[i] && list.filter(test)[b] == list[j]);
    }
}

/// Two entries of a filtered list stand in the list itself in the order in
/// which they stand in the filtered one.
proof fn lemma_filter_came_in_order<A>(list: Seq<A>, test: spec_fn(A) -> bool, a: int, b: int)
    requires
        0 <= a < b < list.filter(test).len(),
    ensures
        exists|i: int, j: int|
            0 <= i < j < list.len() && #[trigger] list[i] == list.filter(test)[a]
                && #[trigger] list[j] == list.filter(test)[b],
    decreases list.len(),
{
    reveal(Seq::filter);
    let front = list.drop_last();
    let kept = front.filter(test);
    if b == kept.len() {
        // The later entry is the list's last; the earlier one stands before it.
        front.lemma_filter_contains_rev(test, kept[a]);
        let i = choose|i: int| 0 <= i < front.len() && front[i] == kept[a];
        let j = list.len() - 1;
        assert(list[i] == list.filter(test)[a] && list[j] == list.filter(test)[b]);
    } else {
        lemma_filter_came_in_order(front, test, a, b);
        let (i, j) = choose|i: int, j: int|
            0 <= i < j < front.len() && #[trigger] front[i] == kept[a] && #[trigger] front[j]
                == kept[b];
        assert(list[i] == list.filter(test)[a] && list[j] == list.filter(test)[b]);
    }
}

/// A record occurs in a list as often as in the tier of its key.
proof fn lemma_count_in_tier<T>(records: Seq<Record<T>>, mode: SortMode, record: Record<T>)
    ensures
        records.to_multiset().count(record) == tier(
            records,
            mode,
            record.sort_key(mode),
        ).to_multiset().count(record),
    decreases records.len(),
{
    let key = record.sort_key(mode);
    if records.len() == 0 {
        reveal(Seq::filter);
    } else {
        let front = records.drop_last();
        let last = records.last();
        assert(records =~= front.push(last));
        lemma_count_in_tier(front, mode, record);
        lemma_tier_push(front, last, mode, key);
        front.to_multiset_ensures();
        tier(front, mode, key).to_multiset_ensures();
    }
}

/// A ranking holds exactly the records of its input, each as often as the
/// input does.
pub proof fn lemma_ranking_is_permutation<T>(
    input: Seq<Record<T>>,
    output: Seq<Record<T>>,
    mode: SortMode,
)
    requires
        is_ranking(input, output, mode),
    ensures
        output.to_multiset() == input.to_multiset(),
        output.len() == input.len(),
{
    assert forall|record: Record<T>|
        output.to_multiset().count(record) == input.to_multiset().count(record) by {
        lemma_count_in_tier(output, mode, record);
        lemma_count_in_tier(input, mode, record);
    }
    assert(output.to_multiset() =~= input.to_multiset());
    output.to_multiset_ensures();
    input.to_multiset_ensures();
}

/// A ranking is stable: two records of equal sort key stand in the output in
/// the order in which they stand in the input.
pub proof fn lemma_ranking_keeps_ties_in_order<T>(
    input: Seq<Record<T>>,
    output: Seq<Record<T>>,
    mode: SortMode,
    earlier: int,
    later: int,
)
    requires
        is_ranking(input, output, mode),
        0 <= earlier < later < input.len(),
        input[earlier].sort_key(mode) == input[later].sort_key(mode),
    ensures
        exists|i: int, j: int|
            0 <= i < j < output.len() && #[trigger] output[i] == input[earlier]
                && #[trigger] output[j] == input[later],
{
    let key = input[earlier].sort_key(mode);
    let test = has_key::<T>(mode, key);
    lemma_filter_keeps_order(input, test, earlier, later);
    let (a, b) = choose|a: int, b: int|
        0 <= a < b < input.filter(test).len() && #[trigger] input.filter(test)[a] == input[earlier]
            && #[trigger] input.filter(test)[b] == input[later];
    assert(tier(output, mode, key) == tier(input, mode, key));
    lemma_filter_came_in_order(output, test, a, b);
}

/// Two ordered lists with the same tiers are the same list.
pub proof fn lemma_ordered_same_tiers_equal<T>(
    left: Seq<Record<T>>,
    right: Seq<Record<T>>,
    mode: SortMode,
)
    requires
        ordered(left, mode),
        ordered(right, mode),
        same_tiers(left, right, mode),
    ensures
        left == right,
    decreases left.len(),
{
    if left.len() == 0 || right.len() == 0 {
        // A list that holds a record has a tier that is not empty, which the
        // empty list has not: so both are empty.
        if right.len() > 0 {
            let key = right[0].sort_key(mode);
            lemma_tier_empty(left, mode, key);
            lemma_tier_empty(right, mode, key);
        }
        if left.len() > 0 {
            let key = left[0].sort_key(mode);
            lemma_tier_empty(left, mode, key);
            lemma_tier_empty(right, mode, key);
        }
        assert(left =~= right);
    } else {
        let left_front = left.drop_last();
        let right_front = right.drop_last();
        let left_key = left.last().sort_key(mode);
        let right_key = right.last().sort_key(mode);
        assert(left =~= left_front.push(left.last()));
        assert(right =~= right_front.push(right.last()));

        // Each list ends in its largest key, and holds the other's last key
        // too: so both end in the same key.
        assert(right_key <= left_key) by {
            lemma_tier_empty(left, mode, right_key);
            lemma_tier_empty(right, mode, right_key);
        }
        assert(left_key <= right_key) by {
            lemma_tier_empty(left, mode, left_key);
            lemma_tier_empty(right, mode, left_key);
        }

        // The tier of that key ends in the last record of either list, and
        // without those two records the tiers are the same still.
        assert forall|key: int| #[trigger]
            tier(left_front, mode, key) == tier(right_front, mode, key) by {
            lemma_tier_push(left_front, left.last(), mode, key);
            lemma_tier_push(right_front, right.last(), mode, key);
            if key == left_key {
                assert(tier(left, mode, key).drop_last() =~= tier(left_front, mode, key));
            }
        }
        assert(left.last() == right.last()) by {
            lemma_tier_push(left_front, left.last(), mode, left_key);
            lemma_tier_push(right_front, right.last(), mode, left_key);
            assert(tier(left, mode, left_key).last() == left.last());
        }
        assert(ordered(left_front, mode));
        assert(ordered(right_front, mode));
        lemma_ordered_same_tiers_equal(left_front, right_front, mode);
    }
}

/// A list has one ranking only.
pub proof fn lemma_ranking_unique<T>(
    input: Seq<Record<T>>,
    first: Seq<Record<T>>,
    second: Seq<Record<T>>,
    mode: SortMode,
)
    requires
        is_ranking(input, first, mode),
        is_ranking(input, second, mode),
    ensures
        first == second,
{
    assert(same_tiers(first, second, mode)) by {
        assert forall|key: int| #[trigger]
            tier(first, mode, key) == tier(second, mode, key) by {
            assert(tier(first, mode, key) == tier(input, mode, key));
        }
    }
    lemma_ordered_same_tiers_equal(first, second, mode);
}

/// Ranking a list that is already ordered gives that list.
pub proof fn lemma_ordered_input_unchanged<T>(
    input: Seq<Record<T>>,
    output: Seq<Record<T>>,
    mode: SortMode,
)
    requires
        ordered(input, mode),
        is_ranking(input, output, mode),
    ensures
        output == input,
{
    lemma_ordered_same_tiers_equal(output, input, mode);
}

/// Ranking twice by the same mode gives what ranking once gives.
pub proof fn lemma_rank_idempotent<T>(
    input: Seq<Record<T>>,
    once: Seq<Record<T>>,
    twice: Seq<Record<T>>,
    mode: SortMode,
)
    requires
        is_ranking(input, once, mode),
        is_ranking(once, twice, mode),
    ensures
        twice == once,
{
    lemma_ordered_input_unchanged(once, twice, mode);
}

} // verus!

//! The ranker: a list of records and a mode in, the reordered list out.

use vstd::prelude::*;

use crate::mode::{mode_of, SortMode};
use crate::order::is_ranking;
use crate::record::Record;
use crate::sort::stable_sort;

verus! {

/// Ranks the records by an already decoded mode.
///
/// By rating the records come back from the highest rating down, by distance
/// from the nearest out, and records that tie stay in the order in which
/// they came. Without a sort the list comes back as it is. Whatever the mode,
/// the result holds the records that were handed in, each as often as it was
/// handed in, and nothing else.
pub fn rank_by<T>(items: Vec<Record<T>>, mode: SortMode) -> (ranked: Vec<Record<T>>)
    ensures
        is_ranking(items@, ranked@, mode),
        ranked@.to_multiset() == items@.to_multiset(),
        ranked@.len() == items@.len(),
        items@.len() == 0 ==> ranked@ == Seq::<Record<T>>::empty(),
        mode is Unsorted ==> ranked@ == items@,
{
    let ranked = match mode {
        SortMode::Unsorted => items,
        _ => stable_sort(items, mode),
    };
    assert(ranked@.len() == 0 ==> ranked@ =~= Seq::<Record<T>>::empty());
    ranked
}

/// Ranks the records by the mode that the token names.
///
/// The token `rating` ranks by rating and `distance` by distance, as
/// [`rank_by`] does. Any other token, the empty one included, is no error:
/// the list comes back unchanged.
pub fn rank<T>(items: Vec<Record<T>>, mode: &str) -> (ranked: Vec<Record<T>>)
    ensures
        is_ranking(items@, ranked@, mode_of(mode@)),
        ranked@.to_multiset() == items@.to_multiset(),
        ranked@.len() == items@.len(),
        items@.len() == 0 ==> ranked@ == Seq::<Record<T>>::empty(),
        mode_of(mode@) is Unsorted ==> ranked@ == items@,
{
    rank_by(items, SortMode::parse(mode))
}

} // verus!

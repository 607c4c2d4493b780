//! The sort mode: which field a ranking goes by, decoded once from the
//! request's token.

use vstd::prelude::*;
use vstd::string::*;

verus! {

/// What a ranking orders by.
#[derive(Clone, Copy, Debug, PartialEq, Eq, Structural)]
pub enum SortMode {
    /// Highest rating first; an absent rating counts as zero.
    Rating,
    /// Nearest first; an absent distance counts as infinitely far.
    Distance,
    /// No reordering.
    Unsorted,
}

/// The mode that a token selects. Only the two exact tokens select a sort;
/// every other text, the empty one included, selects none.
pub open spec fn mode_of(token: Seq<char>) -> SortMode {
    if token == "rating"@ {
        SortMode::Rating
    } else if token == "distance"@ {
        SortMode::Distance
    } else {
        SortMode::Unsorted
    }
}

/// Whether two strings hold the same characters. The characters are only
/// compared where the lengths agree, so against a short literal the cost is
/// that of counting the other string's characters.
fn same_text(left: &str, right: &str) -> (same: bool)
    ensures
        same == (left@ == right@),
{
    let length: usize = left.unicode_len();
    if length != right.unicode_len() {
        return false;
    }
    let mut index: usize = 0;
    while index < length
        invariant
            index <= length,
            length == left@.len(),
            length == right@.len(),
            forall|i: int| 0 <= i < index ==> left@[i] == right@[i],
        decreases length - index,
    {
        if left.get_char(index) != right.get_char(index) {
            return false;
        }
        index += 1;
    }
    assert(left@ =~= right@);
    true
}

impl SortMode {
    /// Decodes a request's sort token.
    pub fn parse(token: &str) -> (mode: SortMode)
        ensures
            mode == mode_of(token@),
    {
        if same_text(token, "rating") {
            SortMode::Rating
        } else if same_text(token, "distance") {
            SortMode::Distance
        } else {
            SortMode::Unsorted
        }
    }
}

} // verus!

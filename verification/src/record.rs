//! Records: whatever the caller ranks, together with the two optional
//! numbers that the ranker reads from it.

use vstd::prelude::*;

use crate::mode::SortMode;
use crate::number::{is_nan, order_key, Number, INFINITY_BITS};

verus! {

/// The name under which a record holds its rating.
pub const RATING_FIELD: &'static str = "rating_avg";

/// The name under which a record holds its distance.
pub const DISTANCE_FIELD: &'static str = "distance_km";

/// A record to rank.
///
/// The payload is the record itself, of whatever shape; the ranker never
/// looks inside it and hands it back untouched. The two fields beside it hold
/// what the record says about rating and distance. A field is `None` where
/// the record has no such entry or holds something there that is no number.
#[derive(Clone, Debug)]
pub struct Record<T> {
    pub payload: T,
    pub rating: Option<Number>,
    pub distance: Option<Number>,
}

/// Whether `field` is what the bit pattern read for it decodes to: the number
/// with that pattern, or nothing where nothing was read or the pattern is a
/// NaN.
pub open spec fn decodes_to(bits: Option<u64>, field: Option<Number>) -> bool {
    match bits {
        Some(b) if !is_nan(b) => field matches Some(n) && n@ == b,
        _ => field is None,
    }
}

impl<T> Record<T> {
    /// The pattern of the rating that the record counts as having: its own,
    /// or that of zero.
    pub open spec fn rating_bits(self) -> u64 {
        match self.rating {
            Some(n) => n@,
            None => 0,
        }
    }

    /// The pattern of the distance that the record counts as having: its
    /// own, or that of positive infinity.
    pub open spec fn distance_bits(self) -> u64 {
        match self.distance {
            Some(n) => n@,
            None => INFINITY_BITS,
        }
    }

    /// The integer by which a mode orders the record, smallest first.
    ///
    /// Ratings rank from the highest down, so their key is negated. Without a
    /// sort every record has the same key.
    pub open spec fn sort_key(self, mode: SortMode) -> int {
        match mode {
            SortMode::Rating => -order_key(self.rating_bits()),
            SortMode::Distance => order_key(self.distance_bits()),
            SortMode::Unsorted => 0,
        }
    }

    /// The executable form of [`Record::sort_key`].
    pub fn key_for(&self, mode: SortMode) -> (key: i64)
        ensures
            key == self.sort_key(mode),
    {
        match mode {
            SortMode::Rating => {
                let rating: i64 = self.effective_rating().key();
                -rating
            },
            SortMode::Distance => self.effective_distance().key(),
            SortMode::Unsorted => 0,
        }
    }

    /// The rating that the record counts as having: its own, or zero.
    pub fn effective_rating(&self) -> (rating: Number)
        ensures
            rating@ == self.rating_bits(),
    {
        match self.rating {
            Some(n) => n,
            None => Number::zero(),
        }
    }

    /// The distance that the record counts as having: its own, or positive
    /// infinity.
    pub fn effective_distance(&self) -> (distance: Number)
        ensures
            distance@ == self.distance_bits(),
    {
        match self.distance {
            Some(n) => n,
            None => Number::infinity(),
        }
    }

    /// A record with the given fields.
    pub fn new(payload: T, rating: Option<Number>, distance: Option<Number>) -> (record: Self)
        ensures
            record.payload == payload,
            record.rating == rating,
            record.distance == distance,
    {
        Record { payload, rating, distance }
    }

    /// A record whose fields are decoded from the bit patterns read for them.
    pub fn from_bits(payload: T, rating: Option<u64>, distance: Option<u64>) -> (record: Self)
        ensures
            record.payload == payload,
            decodes_to(rating, record.rating),
            decodes_to(distance, record.distance),
    {
        let rating: Option<Number> = match rating {
            Some(bits) => Number::from_bits(bits),
            None => None,
        };
        let distance: Option<Number> = match distance {
            Some(bits) => Number::from_bits(bits),
            None => None,
        };
        Record { payload, rating, distance }
    }
}

} // verus!

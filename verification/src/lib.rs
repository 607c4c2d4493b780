//! Ranking of loosely-typed records by one of two optional numeric fields.
//!
//! A record carries an arbitrary payload together with the two numbers the
//! ranker reads: a rating and a distance. Ranking by rating puts the highest
//! rating first and treats an absent rating as zero; ranking by distance puts
//! the nearest first and treats an absent distance as infinitely far. Any
//! other mode leaves the list as it is. Records that tie keep the order they
//! came in.
//!
//! Every function here is verified: the contracts say which list comes back,
//! and the proof functions in [`order`] state what follows from them.

pub mod mode;
pub mod number;
pub mod order;
pub mod rank;
pub mod record;
pub mod service;
pub mod sort;

pub use mode::SortMode;
pub use number::Number;
pub use rank::{rank, rank_by};
pub use record::{Record, DISTANCE_FIELD, RATING_FIELD};
pub use service::{health, Health, RankRequest, RankResponse};

//! The shapes that the service exchanges with its callers: the ranking
//! request and response, and the liveness report.

use vstd::prelude::*;

use crate::mode::mode_of;
use crate::order::is_ranking;
use crate::rank::rank;
use crate::record::Record;

verus! {

/// The liveness report: who answers, and how it fares.
#[derive(Clone, Copy, Debug)]
pub struct Health {
    pub service: &'static str,
    pub status: &'static str,
}

/// The report of a service that is up. It is the same on every call and
/// depends on nothing.
pub fn health() -> (report: Health)
    ensures
        report.service@ == "omnixius-rust"@,
        report.status@ == "ok"@,
{
    Health { service: "omnixius-rust", status: "ok" }
}

/// A request to rank: the records, and the token that names the sort mode.
#[derive(Clone, Debug)]
pub struct RankRequest<T> {
    pub items: Vec<Record<T>>,
    pub sort: String,
}

/// The answer to a request: its records, ranked.
#[derive(Clone, Debug)]
pub struct RankResponse<T> {
    pub items: Vec<Record<T>>,
}

impl<T> Default for RankRequest<T> {
    /// The request that a body without either field stands for: no records
    /// and the empty token.
    fn default() -> (request: Self)
        ensures
            request.items@ == Seq::<Record<T>>::empty(),
            request.sort@ == Seq::<char>::empty(),
    {
        RankRequest { items: Vec::new(), sort: String::new() }
    }
}

impl<T> RankRequest<T> {
    /// Answers the request with its records ranked by the mode that its
    /// token names.
    pub fn respond(self) -> (response: RankResponse<T>)
        ensures
            is_ranking(self.items@, response.items@, mode_of(self.sort@)),
            response.items@.to_multiset() == self.items@.to_multiset(),
            response.items@.len() == self.items@.len(),
            self.items@.len() == 0 ==> response.items@ == Seq::<Record<T>>::empty(),
            mode_of(self.sort@) is Unsorted ==> response.items@ == self.items@,
    {
        let RankRequest { items, sort } = self;
        RankResponse { items: rank(items, sort.as_str()) }
    }
}

} // verus!

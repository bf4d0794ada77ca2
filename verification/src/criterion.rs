//! The criteria by which a round ranks the parties.

use vstd::prelude::*;
use crate::data::{Count, Seats, SeatState, Votes};
use crate::fraction::{frac, Fraction, product, rating, Ratio};

verus! {

/// A rule that gives each party its quality for the round at hand, or none
/// where the party cannot receive a seat in it.
pub trait Criterion {
    /// The quality of a party with `votes` votes whose entry is `seats`.
    spec fn quality(&self, votes: Votes, seats: SeatState) -> Option<Ratio>;

    /// Computes [`Criterion::quality`].
    fn rate(&self, votes: Votes, seats: Seats) -> (q: Option<Fraction>)
        requires
            seats@.held < Count::MAX,
        ensures
            rating(q) == self.quality(votes, seats@),
            q matches Some(f) ==> f@.proper(),
    ;
}

/// `votes` are at least `seats` times the quota `vote_count / seat_count`.
pub open spec fn clears_quota(votes: int, seats: int, vote_count: int, seat_count: int) -> bool {
    votes * seat_count >= seats * vote_count
}

/// `votes` are at least three quarters of the quota `vote_count / seat_count`.
pub open spec fn clears_three_quarters(votes: int, vote_count: int, seat_count: int) -> bool {
    4 * (votes * seat_count) >= 3 * vote_count
}

/// The average of a party: its votes over the seats it would hold with one
/// more.
pub open spec fn average(votes: Votes, seats: SeatState) -> Ratio {
    Ratio { num: votes.0 as nat, den: seats.held + 1 }
}

/// The surplus of a party: the votes it has beyond a quota for each seat it
/// holds, counted in units of `1 / seat_count` votes.
pub open spec fn surplus(votes: Votes, seats: SeatState, vote_count: int, seat_count: int) -> Ratio {
    Ratio { num: (votes.0 * seat_count - seats.held * vote_count) as nat, den: 1 }
}

/// The criteria of the law. `vote_count` is the number of votes cast and
/// `seat_count` the number of seats to award; their quotient is the quota.
#[derive(Clone, Copy, Debug)]
pub enum Strategy {
    /// Largest averages.
    LargestAverages,
    /// Largest surpluses, for the parties that reach three quarters of the
    /// quota and have a quota for every seat they hold.
    LargestSurpluses { vote_count: Count, seat_count: Count },
    /// Largest averages for what the surpluses left over: one seat more for
    /// each party.
    RestByAverages { vote_count: Count, seat_count: Count },
    /// Largest averages among the parties that reach the quota.
    Threshold { vote_count: Count, seat_count: Count },
}

impl Criterion for Strategy {
    open spec fn quality(&self, votes: Votes, seats: SeatState) -> Option<Ratio> {
        match *self {
            Strategy::LargestAverages => Some(average(votes, seats)),
            Strategy::LargestSurpluses { vote_count, seat_count } => {
                if clears_quota(votes.0 as int, seats.held as int, vote_count as int, seat_count as int)
                    && clears_three_quarters(votes.0 as int, vote_count as int, seat_count as int) {
                    Some(surplus(votes, seats, vote_count as int, seat_count as int))
                } else {
                    None
                }
            },
            Strategy::RestByAverages { vote_count, seat_count } => {
                let entitled = if clears_three_quarters(
                    votes.0 as int,
                    vote_count as int,
                    seat_count as int,
                ) {
                    seats.held - 1
                } else {
                    seats.held as int
                };
                if clears_quota(votes.0 as int, entitled, vote_count as int, seat_count as int) {
                    Some(average(votes, seats))
                } else {
                    None
                }
            },
            Strategy::Threshold { vote_count, seat_count } => {
                if clears_quota(votes.0 as int, 1, vote_count as int, seat_count as int) {
                    Some(average(votes, seats))
                } else {
                    None
                }
            },
        }
    }

    fn rate(&self, votes: Votes, seats: Seats) -> (q: Option<Fraction>) {
        match *self {
            Strategy::LargestAverages => Some(frac(votes.0, seats.count() + 1)),
            Strategy::LargestSurpluses { vote_count, seat_count } => {
                let won = product(votes.0, seat_count);
                let owed = product(seats.count(), vote_count);
                if won >= owed && has_three_quarters(votes.0, vote_count, seat_count) {
                    Some(Fraction::whole(won - owed))
                } else {
                    None
                }
            },
            Strategy::RestByAverages { vote_count, seat_count } => {
                let held = seats.count();
                let entitled = if has_three_quarters(votes.0, vote_count, seat_count) {
                    held == 0 || has_quota(votes.0, held - 1, vote_count, seat_count)
                } else {
                    has_quota(votes.0, held, vote_count, seat_count)
                };
                if entitled {
                    Some(frac(votes.0, held + 1))
                } else {
                    None
                }
            },
            Strategy::Threshold { vote_count, seat_count } => {
                if has_quota(votes.0, 1, vote_count, seat_count) {
                    Some(frac(votes.0, seats.count() + 1))
                } else {
                    None
                }
            },
        }
    }
}

/// Whatever quality the criterion gives is the average.
pub open spec fn by_average<C: Criterion>(criterion: C) -> bool {
    forall|v: Votes, s: SeatState|
        (#[trigger] criterion.quality(v, s)) matches Some(q) ==> q == average(v, s)
}

/// The criterion has a quality for a party with these votes, whatever
/// seats it holds.
pub open spec fn always_rated<C: Criterion>(criterion: C, votes: Votes) -> bool {
    forall|seats: SeatState| (#[trigger] criterion.quality(votes, seats)) is Some
}

/// The criterion has no quality for a party with these votes, whatever
/// seats it holds.
pub open spec fn never_rated<C: Criterion>(criterion: C, votes: Votes) -> bool {
    forall|seats: SeatState| (#[trigger] criterion.quality(votes, seats)) is None
}

/// Computes [`clears_quota`].
pub fn has_quota(votes: Count, seats: Count, vote_count: Count, seat_count: Count) -> (b: bool)
    ensures
        b == clears_quota(votes as int, seats as int, vote_count as int, seat_count as int),
{
    product(votes, seat_count) >= product(seats, vote_count)
}

/// Computes [`clears_three_quarters`].
pub fn has_three_quarters(votes: Count, vote_count: Count, seat_count: Count) -> (b: bool)
    ensures
        b == clears_three_quarters(votes as int, vote_count as int, seat_count as int),
{
    let won = product(votes, seat_count);
    won >= 0x4000_0000_0000_0000_0000_0000_0000_0000u128 || 4 * won >= 3 * (vote_count as u128)
}

} // verus!

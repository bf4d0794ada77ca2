//! The national threshold.

use vstd::prelude::*;
use crate::allocation::{
    allocation_of, lemma_rounds_keep, lemma_unrated_wins_nothing, lots_fit, rounds, settled,
};
use crate::criterion::{Criterion, never_rated};
use crate::data::{Count, SeatState, Votes};
use crate::election::by_threshold;
use crate::ledger::{lemma_marked, lemma_two_within_total, total_votes};
use crate::majority::{claimant, corrected, donors, gains, is_claimant};

verus! {

/// Threshold exclusion: in a national election a party with less than the
/// quota, the votes cast over the seats to award, ends with the seats it
/// started with. The one exception is a party that has more than half of
/// the votes all the same, as it can in a body of one seat: it may receive
/// the seat of the correction.
pub proof fn law_threshold_excludes(
    votes: Seq<Votes>,
    start: Seq<SeatState>,
    pool: nat,
    end: Seq<SeatState>,
    left: nat,
    i: int,
)
    requires
        allocation_of(by_threshold(votes, pool), votes, start, pool, end, left),
        votes.len() == start.len(),
        total_votes(votes) <= Count::MAX,
        pool <= Count::MAX,
        0 <= i < start.len(),
        votes[i].0 * pool < total_votes(votes),
    ensures
        end[i] == start[i] || (2 * votes[i].0 > total_votes(votes) && end[i] == start[i].gain()),
{
    let criterion = by_threshold(votes, pool);
    let lots = choose|lots: Seq<int>|
        {
            let tally = #[trigger] rounds(criterion, votes, start, pool, lots);
            &&& lots_fit(criterion, votes, start, pool, lots)
            &&& settled(votes, tally, end, left)
        };
    let tally = rounds(criterion, votes, start, pool, lots);
    lemma_rounds_keep(criterion, votes, start, pool, lots);
    lemma_unrated_wins_nothing(criterion, votes, start, pool, lots, i);
    if let Some(winner) = claimant(votes, tally.ledger) {
        assert(is_claimant(votes, tally.ledger, winner));
        if donors(tally.ledger, tally.before, winner).len() > 0 {
            let donor = choose|donor: int|
                donors(tally.ledger, tally.before, winner).contains(donor) && end
                    == #[trigger] corrected(tally.ledger, winner, donor);
            lemma_marked(gains(tally.ledger, tally.before, winner));
            let k = choose|k: int|
                0 <= k < donors(tally.ledger, tally.before, winner).len() && donors(
                    tally.ledger,
                    tally.before,
                    winner,
                )[k] == donor;
            assert(gains(tally.ledger, tally.before, winner)[donor]);
            assert(donor != i);
            if winner == i {
                if never_rated(criterion, votes[donor]) {
                    lemma_unrated_wins_nothing(criterion, votes, start, pool, lots, donor);
                }
                let rated = choose|seats: SeatState|
                    (#[trigger] criterion.quality(votes[donor], seats)) is Some;
                assert(votes[donor].0 * pool >= total_votes(votes));
                if donor < i {
                    lemma_two_within_total(votes, donor, i);
                } else {
                    lemma_two_within_total(votes, i, donor);
                }
                assert(false) by (nonlinear_arith)
                    requires
                        votes[donor].0 * pool >= total_votes(votes),
                        votes[i].0 * pool < total_votes(votes),
                        2 * votes[i].0 > total_votes(votes),
                        votes[i].0 + votes[donor].0 <= total_votes(votes),
                        votes[i].0 >= 0,
                        votes[donor].0 >= 0,
                        pool >= 0,
                ;
            }
        }
    }
}

} // verus!

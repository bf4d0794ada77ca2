//! What is left to chance.

use vstd::prelude::*;
use crate::allocation::{allocation_of, lots_fit, rounds, settled, takes_from_pool, Tally};
use crate::criterion::Criterion;
use crate::data::{SeatState, Votes};
use crate::election::{by_rest, by_surpluses, surplus_allocation_of};
use crate::ledger::award;
use crate::majority::{claimant, corrected, donors};
use crate::round::round_leaders;

verus! {

/// The correction of `ledger` where the lot for the donor fell on `donor`.
pub open spec fn correction_by(
    votes: Seq<Votes>,
    ledger: Seq<SeatState>,
    before: Seq<SeatState>,
    donor: int,
    after: Seq<SeatState>,
) -> bool {
    match claimant(votes, ledger) {
        Some(winner) => {
            if donors(ledger, before, winner).len() > 0 {
                donors(ledger, before, winner).contains(donor) && after == corrected(
                    ledger,
                    winner,
                    donor,
                )
            } else {
                after == ledger
            }
        },
        None => after == ledger,
    }
}

/// What follows the rounds where the lot for the donor fell on `donor`.
pub open spec fn settled_by(
    votes: Seq<Votes>,
    tally: Tally,
    donor: int,
    end: Seq<SeatState>,
    left: nat,
) -> bool {
    if takes_from_pool(votes, tally) {
        settled(votes, tally, end, left)
    } else {
        correction_by(votes, tally.ledger, tally.before, donor, end) && left == tally.pool
    }
}

/// The allocation in which the lots of the last round fell on `lots` and
/// the lot for the donor on `donor`.
pub open spec fn allocation_by_lots<C: Criterion>(
    criterion: C,
    votes: Seq<Votes>,
    start: Seq<SeatState>,
    pool: nat,
    lots: Seq<int>,
    donor: int,
    end: Seq<SeatState>,
    left: nat,
) -> bool {
    let tally = rounds(criterion, votes, start, pool, lots);
    &&& lots_fit(criterion, votes, start, pool, lots)
    &&& settled_by(votes, tally, donor, end, left)
}

/// Every allocation is the allocation by some lots.
pub proof fn law_allocation_has_lots<C: Criterion>(
    criterion: C,
    votes: Seq<Votes>,
    start: Seq<SeatState>,
    pool: nat,
    end: Seq<SeatState>,
    left: nat,
) -> (drawn: (Seq<int>, int))
    requires
        allocation_of(criterion, votes, start, pool, end, left),
    ensures
        allocation_by_lots(criterion, votes, start, pool, drawn.0, drawn.1, end, left),
{
    let lots = choose|lots: Seq<int>|
        {
            let tally = #[trigger] rounds(criterion, votes, start, pool, lots);
            &&& lots_fit(criterion, votes, start, pool, lots)
            &&& settled(votes, tally, end, left)
        };
    let tally = rounds(criterion, votes, start, pool, lots);
    let donor = match claimant(votes, tally.ledger) {
        Some(winner) => {
            if donors(tally.ledger, tally.before, winner).len() > 0 {
                choose|donor: int|
                    donors(tally.ledger, tally.before, winner).contains(donor) && end
                        == #[trigger] corrected(tally.ledger, winner, donor)
            } else {
                0
            }
        },
        None => 0,
    };
    (lots, donor)
}

/// Determinism: the lots are all that is left to chance. Two allocations
/// from the same votes, ledger and pool in which the same lots fell end
/// with the same ledger and leave the same seats in the pool.
pub proof fn law_same_lots_same_seats<C: Criterion>(
    criterion: C,
    votes: Seq<Votes>,
    start: Seq<SeatState>,
    pool: nat,
    lots: Seq<int>,
    donor: int,
    end: Seq<SeatState>,
    left: nat,
    other_end: Seq<SeatState>,
    other_left: nat,
)
    requires
        allocation_by_lots(criterion, votes, start, pool, lots, donor, end, left),
        allocation_by_lots(criterion, votes, start, pool, lots, donor, other_end, other_left),
    ensures
        end == other_end,
        left == other_left,
{
}

/// The allocation by largest surpluses in which the lots fell on `lots`
/// and `donor` in the pass by surpluses, and on `rest_lots` and
/// `rest_donor` in the pass by averages.
pub open spec fn surplus_allocation_by_lots(
    votes: Seq<Votes>,
    start: Seq<SeatState>,
    pool: nat,
    lots: Seq<int>,
    donor: int,
    rest_lots: Seq<int>,
    rest_donor: int,
    end: Seq<SeatState>,
    left: nat,
) -> bool {
    exists|mid: Seq<SeatState>, mid_left: nat|
        {
            &&& #[trigger] allocation_by_lots(
                by_surpluses(votes, pool),
                votes,
                start,
                pool,
                lots,
                donor,
                mid,
                mid_left,
            )
            &&& if mid_left > 0 {
                allocation_by_lots(
                    by_rest(votes, pool),
                    votes,
                    mid,
                    mid_left,
                    rest_lots,
                    rest_donor,
                    end,
                    left,
                )
            } else {
                end == mid && left == 0
            }
        }
}

/// Every allocation by largest surpluses is the allocation by some lots.
pub proof fn law_surplus_allocation_has_lots(
    votes: Seq<Votes>,
    start: Seq<SeatState>,
    pool: nat,
    end: Seq<SeatState>,
    left: nat,
) -> (drawn: ((Seq<int>, int), (Seq<int>, int)))
    requires
        surplus_allocation_of(votes, start, pool, end, left),
    ensures
        surplus_allocation_by_lots(
            votes,
            start,
            pool,
            drawn.0.0,
            drawn.0.1,
            drawn.1.0,
            drawn.1.1,
            end,
            left,
        ),
{
    let (mid, mid_left) = choose|mid: Seq<SeatState>, mid_left: nat|
        {
            &&& #[trigger] allocation_of(by_surpluses(votes, pool), votes, start, pool, mid, mid_left)
            &&& if mid_left > 0 {
                allocation_of(by_rest(votes, pool), votes, mid, mid_left, end, left)
            } else {
                end == mid && left == 0
            }
        };
    let first = law_allocation_has_lots(by_surpluses(votes, pool), votes, start, pool, mid, mid_left);
    let rest = if mid_left > 0 {
        law_allocation_has_lots(by_rest(votes, pool), votes, mid, mid_left, end, left)
    } else {
        (Seq::empty(), 0int)
    };
    assert(allocation_by_lots(
        by_surpluses(votes, pool),
        votes,
        start,
        pool,
        first.0,
        first.1,
        mid,
        mid_left,
    ));
    (first, rest)
}

/// Determinism of an allocation by largest surpluses: two allocations from
/// the same votes, ledger and pool in which the same lots fell in both
/// passes end with the same ledger and leave the same seats in the pool.
pub proof fn law_same_lots_same_seats_by_surpluses(
    votes: Seq<Votes>,
    start: Seq<SeatState>,
    pool: nat,
    lots: Seq<int>,
    donor: int,
    rest_lots: Seq<int>,
    rest_donor: int,
    end: Seq<SeatState>,
    left: nat,
    other_end: Seq<SeatState>,
    other_left: nat,
)
    requires
        surplus_allocation_by_lots(votes, start, pool, lots, donor, rest_lots, rest_donor, end, left),
        surplus_allocation_by_lots(
            votes,
            start,
            pool,
            lots,
            donor,
            rest_lots,
            rest_donor,
            other_end,
            other_left,
        ),
    ensures
        end == other_end,
        left == other_left,
{
    let first = by_surpluses(votes, pool);
    let rest = by_rest(votes, pool);
    let (mid, mid_left) = choose|mid: Seq<SeatState>, mid_left: nat|
        {
            &&& #[trigger] allocation_by_lots(first, votes, start, pool, lots, donor, mid, mid_left)
            &&& if mid_left > 0 {
                allocation_by_lots(rest, votes, mid, mid_left, rest_lots, rest_donor, end, left)
            } else {
                end == mid && left == 0
            }
        };
    let (other_mid, other_mid_left) = choose|mid: Seq<SeatState>, mid_left: nat|
        {
            &&& #[trigger] allocation_by_lots(first, votes, start, pool, lots, donor, mid, mid_left)
            &&& if mid_left > 0 {
                allocation_by_lots(
                    rest,
                    votes,
                    mid,
                    mid_left,
                    rest_lots,
                    rest_donor,
                    other_end,
                    other_left,
                )
            } else {
                other_end == mid && other_left == 0
            }
        };
    law_same_lots_same_seats(
        first,
        votes,
        start,
        pool,
        lots,
        donor,
        mid,
        mid_left,
        other_mid,
        other_mid_left,
    );
    if mid_left > 0 {
        law_same_lots_same_seats(
            rest,
            votes,
            mid,
            mid_left,
            rest_lots,
            rest_donor,
            end,
            left,
            other_end,
            other_left,
        );
    }
}

/// No round from `ledger` has more leaders than the pool has seats, so no
/// lot is drawn in the rounds.
pub open spec fn without_ties<C: Criterion>(
    criterion: C,
    votes: Seq<Votes>,
    ledger: Seq<SeatState>,
    pool: nat,
) -> bool
    decreases pool,
{
    let tied = round_leaders(criterion, votes, ledger);
    if pool == 0 || tied.len() == 0 {
        true
    } else if tied.len() < pool {
        without_ties(criterion, votes, award(ledger, tied), (pool - tied.len()) as nat)
    } else {
        tied.len() == pool
    }
}

/// Rounds in which no lot is drawn end the same whatever the lots.
pub proof fn lemma_rounds_without_ties<C: Criterion>(
    criterion: C,
    votes: Seq<Votes>,
    ledger: Seq<SeatState>,
    pool: nat,
    lots: Seq<int>,
    other_lots: Seq<int>,
)
    requires
        without_ties(criterion, votes, ledger, pool),
    ensures
        rounds(criterion, votes, ledger, pool, lots) == rounds(
            criterion,
            votes,
            ledger,
            pool,
            other_lots,
        ),
    decreases pool,
{
    let tied = round_leaders(criterion, votes, ledger);
    if pool > 0 && 0 < tied.len() < pool {
        lemma_rounds_without_ties(
            criterion,
            votes,
            award(ledger, tied),
            (pool - tied.len()) as nat,
            lots,
            other_lots,
        );
    }
}

/// Determinism without lots: where no round has more leaders than the pool
/// has seats and the correction has no more than one donor to draw from,
/// the allocation ends in one way only.
pub proof fn law_no_tie_no_chance<C: Criterion>(
    criterion: C,
    votes: Seq<Votes>,
    start: Seq<SeatState>,
    pool: nat,
    end: Seq<SeatState>,
    left: nat,
    other_end: Seq<SeatState>,
    other_left: nat,
)
    requires
        allocation_of(criterion, votes, start, pool, end, left),
        allocation_of(criterion, votes, start, pool, other_end, other_left),
        without_ties(criterion, votes, start, pool),
        ({
            let tally = rounds(criterion, votes, start, pool, Seq::empty());
            claimant(votes, tally.ledger) matches Some(winner) ==> donors(
                tally.ledger,
                tally.before,
                winner,
            ).len() <= 1
        }),
    ensures
        end == other_end,
        left == other_left,
{
    let drawn = law_allocation_has_lots(criterion, votes, start, pool, end, left);
    let other = law_allocation_has_lots(criterion, votes, start, pool, other_end, other_left);
    lemma_rounds_without_ties(criterion, votes, start, pool, drawn.0, Seq::empty());
    lemma_rounds_without_ties(criterion, votes, start, pool, other.0, Seq::empty());
    let tally = rounds(criterion, votes, start, pool, Seq::empty());
    if let Some(winner) = claimant(votes, tally.ledger) {
        let among = donors(tally.ledger, tally.before, winner);
        if among.len() > 0 {
            let k = choose|k: int| 0 <= k < among.len() && among[k] == drawn.1;
            let m = choose|m: int| 0 <= m < among.len() && among[m] == other.1;
            assert(drawn.1 == other.1);
        }
    }
}

} // verus!

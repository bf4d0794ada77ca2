//! The elections of the law: which criterion allocates the seats of which
//! body.

use vstd::prelude::*;
use crate::allocation::{allocate_seats, allocation_of};
use crate::criterion::Strategy;
use crate::data::{Count, Seats, SeatState, Votes};
use crate::fraction::product;
use crate::laws::keeping::{
    law_leftover, law_leftover_by_averages, law_leftover_national, law_unbounded_averages_fill,
    law_unbounded_surpluses_fill, lemma_strategies_are_steady, unbounded,
};
use crate::laws::majority::{law_majority_by_largest_averages, law_majority_national};
use crate::laws::surplus::law_majority_by_surpluses;
use crate::laws::threshold::law_threshold_excludes;
use crate::ledger::{
    fresh, in_order, ledger, lemma_held_within_total, same_capacities, total_held, total_votes,
};
use crate::lottery::Lottery;
use crate::majority::{count_seats, count_votes, majority_served};
use crate::round::qualities;

verus! {

/// A body with at least this many seats is allocated by largest averages,
/// a smaller one by largest surpluses.
pub const LARGE_BODY: Count = 19;

/// The seats that an allocation from `start` with a pool of `pool` seats
/// left in the pool, given the ledger `end` that it came to.
pub open spec fn left_over(start: Seq<SeatState>, pool: nat, end: Seq<SeatState>) -> nat {
    (total_held(start) + pool - total_held(end)) as nat
}

/// Between the ledgers `start` and `end` seats were added, no more than
/// `pool`, no party lost a seat, no capacity changed, and every party is
/// within its own.
pub open spec fn conserved(start: Seq<SeatState>, pool: nat, end: Seq<SeatState>) -> bool {
    &&& total_held(start) <= total_held(end) <= total_held(start) + pool
    &&& forall|i: int| 0 <= i < start.len() ==> (#[trigger] end[i]).held >= start[i].held
    &&& same_capacities(start, end)
    &&& in_order(end)
}

/// The criterion of the first pass of an allocation by largest surpluses.
pub open spec fn by_surpluses(votes: Seq<Votes>, pool: nat) -> Strategy {
    Strategy::LargestSurpluses { vote_count: total_votes(votes) as Count, seat_count: pool as Count }
}

/// The criterion of the second pass of an allocation by largest surpluses.
pub open spec fn by_rest(votes: Seq<Votes>, pool: nat) -> Strategy {
    Strategy::RestByAverages { vote_count: total_votes(votes) as Count, seat_count: pool as Count }
}

/// The criterion of a national election.
pub open spec fn by_threshold(votes: Seq<Votes>, pool: nat) -> Strategy {
    Strategy::Threshold { vote_count: total_votes(votes) as Count, seat_count: pool as Count }
}

/// An allocation by largest surpluses takes the ledger `start` and a pool
/// of `pool` seats to the ledger `end` and a pool of `left` seats: an
/// allocation by surpluses and, where that leaves seats in the pool, an
/// allocation of those by averages, one more for each party.
pub open spec fn surplus_allocation_of(
    votes: Seq<Votes>,
    start: Seq<SeatState>,
    pool: nat,
    end: Seq<SeatState>,
    left: nat,
) -> bool {
    exists|mid: Seq<SeatState>, mid_left: nat|
        {
            &&& #[trigger] allocation_of(by_surpluses(votes, pool), votes, start, pool, mid, mid_left)
            &&& if mid_left > 0 {
                allocation_of(by_rest(votes, pool), votes, mid, mid_left, end, left)
            } else {
                end == mid && left == 0
            }
        }
}

/// Allocates `total_seats` by largest averages.
pub fn allocate_per_average(
    lots: &mut Lottery,
    total_seats: Seats,
    votes: Vec<Votes>,
    seats: &mut Vec<Seats>,
)
    requires
        votes@.len() == old(seats)@.len(),
        total_held(ledger(old(seats)@)) + total_seats@.held < Count::MAX,
    ensures
        final(seats)@.len() == old(seats)@.len(),
        allocation_of(
            Strategy::LargestAverages,
            votes@,
            ledger(old(seats)@),
            total_seats@.held,
            ledger(final(seats)@),
            left_over(ledger(old(seats)@), total_seats@.held, ledger(final(seats)@)),
        ),
        conserved(ledger(old(seats)@), total_seats@.held, ledger(final(seats)@)),
        left_over(ledger(old(seats)@), total_seats@.held, ledger(final(seats)@)) > 0
            ==> forall|i: int|
            0 <= i < votes@.len() ==> !(#[trigger] ledger(final(seats)@)[i]).has_capacity(),
        votes@.len() > 0 && unbounded(ledger(old(seats)@)) ==> left_over(
            ledger(old(seats)@),
            total_seats@.held,
            ledger(final(seats)@),
        ) == 0,
        fresh(ledger(old(seats)@)) && total_seats@.held > 0 ==> forall|w: int|
            0 <= w < votes@.len() ==> majority_served(votes@, ledger(final(seats)@), w),
{
    let mut pool = total_seats;
    let ghost start = ledger(seats@);
    allocate_seats(lots, &votes, seats, &mut pool, &Strategy::LargestAverages);
    proof {
        if pool@.held > 0 {
            law_leftover_by_averages(votes@, start, total_seats@.held, ledger(seats@), pool@.held);
        }
        if votes@.len() > 0 && unbounded(start) {
            law_unbounded_averages_fill(
                votes@,
                start,
                total_seats@.held,
                ledger(seats@),
                pool@.held,
            );
        }
        if fresh(start) && total_seats@.held > 0 {
            assert forall|w: int| 0 <= w < votes@.len() implies majority_served(
                votes@,
                ledger(seats@),
                w,
            ) by {
                if 2 * votes@[w].0 > total_votes(votes@) {
                    law_majority_by_largest_averages(
                        votes@,
                        start,
                        total_seats@.held,
                        ledger(seats@),
                        pool@.held,
                        w,
                    );
                }
            }
        }
    }
}

/// Allocates `total_seats` by largest surpluses, and what those leave over
/// by largest averages.
pub fn allocate_per_surplus(
    lots: &mut Lottery,
    total_seats: Seats,
    votes: Vec<Votes>,
    seats: &mut Vec<Seats>,
)
    requires
        votes@.len() == old(seats)@.len(),
        total_votes(votes@) <= Count::MAX,
        total_held(ledger(old(seats)@)) + total_seats@.held < Count::MAX,
    ensures
        final(seats)@.len() == old(seats)@.len(),
        surplus_allocation_of(
            votes@,
            ledger(old(seats)@),
            total_seats@.held,
            ledger(final(seats)@),
            left_over(ledger(old(seats)@), total_seats@.held, ledger(final(seats)@)),
        ),
        conserved(ledger(old(seats)@), total_seats@.held, ledger(final(seats)@)),
        left_over(ledger(old(seats)@), total_seats@.held, ledger(final(seats)@)) > 0
            ==> forall|i: int|
            0 <= i < votes@.len() ==> (#[trigger] qualities(
                by_rest(votes@, total_seats@.held),
                votes@,
                ledger(final(seats)@),
            )[i]) is None,
        votes@.len() > 0 && fresh(ledger(old(seats)@)) && unbounded(ledger(old(seats)@))
            ==> left_over(ledger(old(seats)@), total_seats@.held, ledger(final(seats)@)) == 0,
        fresh(ledger(old(seats)@)) && total_seats@.held > 0 ==> forall|w: int|
            0 <= w < votes@.len() ==> majority_served(votes@, ledger(final(seats)@), w),
{
    let vote_count = count_votes(&votes) as Count;
    let seat_count = total_seats.count();
    let mut pool = total_seats;
    let ghost start = ledger(seats@);
    allocate_seats(
        lots,
        &votes,
        seats,
        &mut pool,
        &Strategy::LargestSurpluses { vote_count, seat_count },
    );
    let ghost mid = ledger(seats@);
    let ghost mid_left = pool@.held;
    if pool.count() > 0 {
        allocate_seats(
            lots,
            &votes,
            seats,
            &mut pool,
            &Strategy::RestByAverages { vote_count, seat_count },
        );
    }
    proof {
        assert(allocation_of(
            by_surpluses(votes@, total_seats@.held),
            votes@,
            start,
            total_seats@.held,
            mid,
            mid_left,
        ));
        assert(surplus_allocation_of(
            votes@,
            start,
            total_seats@.held,
            ledger(seats@),
            pool@.held,
        ));
        if votes@.len() > 0 && fresh(start) && unbounded(start) {
            law_unbounded_surpluses_fill(
                votes@,
                start,
                total_seats@.held,
                ledger(seats@),
                pool@.held,
            );
        }
        if pool@.held > 0 {
            lemma_strategies_are_steady(by_rest(votes@, total_seats@.held));
            law_leftover(
                by_rest(votes@, total_seats@.held),
                votes@,
                mid,
                mid_left,
                ledger(seats@),
                pool@.held,
            );
        }
        if fresh(start) && total_seats@.held > 0 {
            assert forall|w: int| 0 <= w < votes@.len() implies majority_served(
                votes@,
                ledger(seats@),
                w,
            ) by {
                if 2 * votes@[w].0 > total_votes(votes@) {
                    law_majority_by_surpluses(
                        votes@,
                        start,
                        total_seats@.held,
                        ledger(seats@),
                        pool@.held,
                        w,
                    );
                }
            }
        }
    }
}

/// Allocates `total_seats` as the law has it for a body of that size: by
/// largest averages from 19 seats on, by largest surpluses below.
pub fn allocate(lots: &mut Lottery, total_seats: Seats, votes: Vec<Votes>, seats: &mut Vec<Seats>)
    requires
        votes@.len() == old(seats)@.len(),
        total_seats@.held < LARGE_BODY ==> total_votes(votes@) <= Count::MAX,
        total_held(ledger(old(seats)@)) + total_seats@.held < Count::MAX,
    ensures
        final(seats)@.len() == old(seats)@.len(),
        if total_seats@.held >= LARGE_BODY {
            allocation_of(
                Strategy::LargestAverages,
                votes@,
                ledger(old(seats)@),
                total_seats@.held,
                ledger(final(seats)@),
                left_over(ledger(old(seats)@), total_seats@.held, ledger(final(seats)@)),
            )
        } else {
            surplus_allocation_of(
                votes@,
                ledger(old(seats)@),
                total_seats@.held,
                ledger(final(seats)@),
                left_over(ledger(old(seats)@), total_seats@.held, ledger(final(seats)@)),
            )
        },
        conserved(ledger(old(seats)@), total_seats@.held, ledger(final(seats)@)),
        left_over(ledger(old(seats)@), total_seats@.held, ledger(final(seats)@)) > 0
            ==> if total_seats@.held >= LARGE_BODY {
            forall|i: int|
                0 <= i < votes@.len() ==> !(#[trigger] ledger(final(seats)@)[i]).has_capacity()
        } else {
            forall|i: int|
                0 <= i < votes@.len() ==> (#[trigger] qualities(
                    by_rest(votes@, total_seats@.held),
                    votes@,
                    ledger(final(seats)@),
                )[i]) is None
        },
        votes@.len() > 0 && fresh(ledger(old(seats)@)) && unbounded(ledger(old(seats)@))
            ==> left_over(ledger(old(seats)@), total_seats@.held, ledger(final(seats)@)) == 0,
        fresh(ledger(old(seats)@)) && total_seats@.held > 0 ==> forall|w: int|
            0 <= w < votes@.len() ==> majority_served(votes@, ledger(final(seats)@), w),
{
    if total_seats.count() >= LARGE_BODY {
        allocate_per_average(lots, total_seats, votes, seats);
    } else {
        allocate_per_surplus(lots, total_seats, votes, seats);
    }
}

/// Allocates `total_seats` by largest averages among the parties that have
/// at least the quota, whatever the size of the body.
pub fn allocate_national(
    lots: &mut Lottery,
    total_seats: Seats,
    votes: Vec<Votes>,
    seats: &mut Vec<Seats>,
)
    requires
        votes@.len() == old(seats)@.len(),
        total_votes(votes@) <= Count::MAX,
        total_held(ledger(old(seats)@)) + total_seats@.held < Count::MAX,
    ensures
        final(seats)@.len() == old(seats)@.len(),
        allocation_of(
            by_threshold(votes@, total_seats@.held),
            votes@,
            ledger(old(seats)@),
            total_seats@.held,
            ledger(final(seats)@),
            left_over(ledger(old(seats)@), total_seats@.held, ledger(final(seats)@)),
        ),
        conserved(ledger(old(seats)@), total_seats@.held, ledger(final(seats)@)),
        left_over(ledger(old(seats)@), total_seats@.held, ledger(final(seats)@)) > 0
            ==> forall|i: int|
            0 <= i < votes@.len() ==> !(#[trigger] ledger(final(seats)@)[i]).has_capacity()
                || votes@[i].0 * total_seats@.held < total_votes(votes@),
        forall|i: int|
            0 <= i < votes@.len() && votes@[i].0 * total_seats@.held < total_votes(votes@)
                ==> (#[trigger] ledger(final(seats)@)[i]) == ledger(old(seats)@)[i] || (2
                * votes@[i].0 > total_votes(votes@) && ledger(final(seats)@)[i] == ledger(
                old(seats)@,
            )[i].gain()),
        fresh(ledger(old(seats)@)) && total_seats@.held > 0 ==> forall|w: int|
            0 <= w < votes@.len() ==> majority_served(votes@, ledger(final(seats)@), w),
{
    let vote_count = count_votes(&votes) as Count;
    let seat_count = total_seats.count();
    let mut pool = total_seats;
    let ghost start = ledger(seats@);
    allocate_seats(lots, &votes, seats, &mut pool, &Strategy::Threshold { vote_count, seat_count });
    proof {
        if pool@.held > 0 {
            law_leftover_national(votes@, start, total_seats@.held, ledger(seats@), pool@.held);
        }
        assert forall|i: int|
            0 <= i < votes@.len() && votes@[i].0 * total_seats@.held < total_votes(
                votes@,
            ) implies (#[trigger] ledger(seats@)[i]) == start[i] || (2 * votes@[i].0
            > total_votes(votes@) && ledger(seats@)[i] == start[i].gain()) by {
            law_threshold_excludes(votes@, start, total_seats@.held, ledger(seats@), pool@.held, i);
        }
        if fresh(start) && total_seats@.held > 0 {
            assert forall|w: int| 0 <= w < votes@.len() implies majority_served(
                votes@,
                ledger(seats@),
                w,
            ) by {
                if 2 * votes@[w].0 > total_votes(votes@) {
                    law_majority_national(
                        votes@,
                        start,
                        total_seats@.held,
                        ledger(seats@),
                        pool@.held,
                        w,
                    );
                }
            }
        }
    }
}

/// Party `i` has a quota for one seat more than it holds, the quota being
/// the votes cast over the seats of the ledger and the pool together.
pub open spec fn reaches_whole_seat(
    votes: Seq<Votes>,
    ledger: Seq<SeatState>,
    pool: nat,
    i: int,
) -> bool {
    votes[i].0 * (pool + total_held(ledger)) >= total_votes(votes) * (ledger[i].held + 1)
}

/// Whether some party still has a quota for one seat more than it holds.
/// `seats_awarded` is the pool of seats that are still to be awarded.
pub fn whole_seats_available(votes: &Vec<Votes>, seats: &Vec<Seats>, seats_awarded: Seats) -> (b:
    bool)
    requires
        votes@.len() == seats@.len(),
        total_votes(votes@) <= Count::MAX,
        total_held(ledger(seats@)) + seats_awarded@.held < Count::MAX,
    ensures
        b == exists|i: int|
            0 <= i < seats@.len() && reaches_whole_seat(
                votes@,
                ledger(seats@),
                seats_awarded@.held,
                i,
            ),
{
    let total_seats = seats_awarded.count() + count_seats(seats) as Count;
    let total_votes = count_votes(votes) as Count;
    let mut i: usize = 0;
    while i < seats.len()
        invariant
            i <= seats@.len(),
            votes@.len() == seats@.len(),
            total_seats == seats_awarded@.held + total_held(ledger(seats@)),
            total_votes == crate::ledger::total_votes(votes@),
            total_seats < Count::MAX,
            forall|j: int|
                0 <= j < i ==> !reaches_whole_seat(votes@, ledger(seats@), seats_awarded@.held, j),
        decreases seats@.len() - i,
    {
        proof {
            lemma_held_within_total(ledger(seats@), i as int);
        }
        if product(votes[i].0, total_seats) >= product(total_votes, seats[i].count() + 1) {
            assert(reaches_whole_seat(votes@, ledger(seats@), seats_awarded@.held, i as int));
            return true;
        }
        i = i + 1;
    }
    false
}

} // verus!

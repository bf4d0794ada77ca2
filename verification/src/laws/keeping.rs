//! Conservation and capacity.

use vstd::prelude::*;
use crate::allocation::{
    allocation_of, lemma_rounds_keep, lemma_rounds_only_add, lemma_settled_keeps, lots_fit, rounds,
    settled,
};
use crate::criterion::{Criterion, Strategy};
use crate::data::{Count, SeatState, Votes};
use crate::election::{by_rest, by_surpluses, by_threshold, surplus_allocation_of};
use crate::ledger::{
    fresh, in_order, lemma_fresh_ledger_is_empty, same_capacities, total_held, total_votes,
};
use crate::majority::{claimant, is_claimant, lemma_no_gain_no_donor};
use crate::round::{lemma_no_leader_no_quality, qualities};

verus! {

/// Conservation: an allocation moves seats from the pool into the ledger
/// and nowhere else, so the seats awarded are those that left the pool,
/// and no party ends with fewer seats than it started with. Capacity: no
/// capacity changes, and a ledger in which every party is within its
/// capacity stays so.
pub proof fn law_allocation_conserves<C: Criterion>(
    criterion: C,
    votes: Seq<Votes>,
    start: Seq<SeatState>,
    pool: nat,
    end: Seq<SeatState>,
    left: nat,
)
    requires
        allocation_of(criterion, votes, start, pool, end, left),
    ensures
        total_held(end) + left == total_held(start) + pool,
        left <= pool,
        same_capacities(start, end),
        in_order(start) ==> in_order(end),
        forall|i: int| 0 <= i < start.len() ==> (#[trigger] end[i]).held >= start[i].held,
{
    let lots = choose|lots: Seq<int>|
        {
            let tally = #[trigger] rounds(criterion, votes, start, pool, lots);
            &&& lots_fit(criterion, votes, start, pool, lots)
            &&& settled(votes, tally, end, left)
        };
    let tally = rounds(criterion, votes, start, pool, lots);
    lemma_rounds_keep(criterion, votes, start, pool, lots);
    lemma_rounds_only_add(criterion, votes, start, pool, lots);
    lemma_settled_keeps(votes, tally, end, left);
}

/// Conservation and capacity for an allocation by largest surpluses.
pub proof fn law_surplus_allocation_conserves(
    votes: Seq<Votes>,
    start: Seq<SeatState>,
    pool: nat,
    end: Seq<SeatState>,
    left: nat,
)
    requires
        surplus_allocation_of(votes, start, pool, end, left),
    ensures
        total_held(end) + left == total_held(start) + pool,
        left <= pool,
        same_capacities(start, end),
        in_order(start) ==> in_order(end),
        forall|i: int| 0 <= i < start.len() ==> (#[trigger] end[i]).held >= start[i].held,
{
    let (mid, mid_left) = choose|mid: Seq<SeatState>, mid_left: nat|
        {
            &&& #[trigger] allocation_of(by_surpluses(votes, pool), votes, start, pool, mid, mid_left)
            &&& if mid_left > 0 {
                allocation_of(by_rest(votes, pool), votes, mid, mid_left, end, left)
            } else {
                end == mid && left == 0
            }
        };
    law_allocation_conserves(by_surpluses(votes, pool), votes, start, pool, mid, mid_left);
    if mid_left > 0 {
        law_allocation_conserves(by_rest(votes, pool), votes, mid, mid_left, end, left);
    }
}

/// Every quality that the criterion gives has a denominator, and a party
/// for which it has no quality has none with one seat more.
pub open spec fn steady<C: Criterion>(criterion: C) -> bool {
    &&& forall|v: Votes, s: SeatState|
        (#[trigger] criterion.quality(v, s)) matches Some(q) ==> q.proper()
    &&& forall|v: Votes, s: SeatState|
        (#[trigger] criterion.quality(v, s)) is None ==> criterion.quality(v, s.gain()) is None
}

/// Each criterion of the law is steady.
pub proof fn lemma_strategies_are_steady(criterion: Strategy)
    ensures
        steady(criterion),
{
    assert forall|v: Votes, s: SeatState| (#[trigger] criterion.quality(v, s)) is None implies criterion.quality(
        v,
        s.gain(),
    ) is None by {
        let cast = v.0 as int;
        let held = s.held as int;
        match criterion {
            Strategy::LargestAverages => {},
            Strategy::LargestSurpluses { vote_count, seat_count } => {
                let quota = vote_count as int;
                let body = seat_count as int;
                assert(cast * body >= (held + 1) * quota ==> cast * body >= held * quota)
                    by (nonlinear_arith)
                    requires
                        quota >= 0,
                ;
            },
            Strategy::RestByAverages { vote_count, seat_count } => {
                let quota = vote_count as int;
                let body = seat_count as int;
                assert(cast * body >= (held + 1) * quota ==> cast * body >= held * quota)
                    by (nonlinear_arith)
                    requires
                        quota >= 0,
                ;
                assert(cast * body >= held * quota ==> cast * body >= (held - 1) * quota)
                    by (nonlinear_arith)
                    requires
                        quota >= 0,
                ;
            },
            Strategy::Threshold { vote_count, seat_count } => {},
        }
    }
}

/// Exhaustion: seats that an allocation by a steady criterion leaves in the
/// pool find no party with a quality.
pub proof fn law_leftover<C: Criterion>(
    criterion: C,
    votes: Seq<Votes>,
    start: Seq<SeatState>,
    pool: nat,
    end: Seq<SeatState>,
    left: nat,
)
    requires
        allocation_of(criterion, votes, start, pool, end, left),
        steady(criterion),
        left > 0,
    ensures
        forall|i: int|
            0 <= i < end.len() ==> (#[trigger] qualities(criterion, votes, end)[i]) is None,
{
    let lots = choose|lots: Seq<int>|
        {
            let tally = #[trigger] rounds(criterion, votes, start, pool, lots);
            &&& lots_fit(criterion, votes, start, pool, lots)
            &&& settled(votes, tally, end, left)
        };
    let tally = rounds(criterion, votes, start, pool, lots);
    lemma_rounds_keep(criterion, votes, start, pool, lots);
    lemma_rounds_only_add(criterion, votes, start, pool, lots);
    lemma_settled_keeps(votes, tally, end, left);
    let rated = qualities(criterion, votes, tally.ledger);
    lemma_no_leader_no_quality(rated);
    if let Some(winner) = claimant(votes, tally.ledger) {
        lemma_no_gain_no_donor(tally.ledger, winner);
        assert(is_claimant(votes, tally.ledger, winner));
    }
    assert forall|i: int| 0 <= i < end.len() implies (#[trigger] qualities(
        criterion,
        votes,
        end,
    )[i]) is None by {
        assert(rated[i] is None);
    }
}

/// Seats that an allocation by largest averages leaves in the pool find no
/// party that can take one.
pub proof fn law_leftover_by_averages(
    votes: Seq<Votes>,
    start: Seq<SeatState>,
    pool: nat,
    end: Seq<SeatState>,
    left: nat,
)
    requires
        allocation_of(Strategy::LargestAverages, votes, start, pool, end, left),
        left > 0,
    ensures
        forall|i: int| 0 <= i < end.len() ==> !(#[trigger] end[i]).has_capacity(),
{
    let method = Strategy::LargestAverages;
    lemma_strategies_are_steady(method);
    law_leftover(method, votes, start, pool, end, left);
    let rated = qualities(method, votes, end);
    assert forall|i: int| 0 <= i < end.len() implies !(#[trigger] end[i]).has_capacity() by {
        assert(rated[i] is None);
    }
}

/// Seats that a national election leaves in the pool find no party that
/// has the quota and can take one.
pub proof fn law_leftover_national(
    votes: Seq<Votes>,
    start: Seq<SeatState>,
    pool: nat,
    end: Seq<SeatState>,
    left: nat,
)
    requires
        allocation_of(by_threshold(votes, pool), votes, start, pool, end, left),
        total_votes(votes) <= Count::MAX,
        pool <= Count::MAX,
        left > 0,
    ensures
        forall|i: int|
            0 <= i < end.len() ==> !(#[trigger] end[i]).has_capacity() || votes[i].0 * pool
                < total_votes(votes),
{
    let method = by_threshold(votes, pool);
    lemma_strategies_are_steady(method);
    law_leftover(method, votes, start, pool, end, left);
    let rated = qualities(method, votes, end);
    assert forall|i: int| 0 <= i < end.len() implies !(#[trigger] end[i]).has_capacity()
        || votes[i].0 * pool < total_votes(votes) by {
        assert(rated[i] is None);
    }
}

/// No capacity bounds a party.
pub open spec fn unbounded(ledger: Seq<SeatState>) -> bool {
    forall|i: int| 0 <= i < ledger.len() ==> (#[trigger] ledger[i]).capacity is None
}

/// Summing over the first `n` parties: where each of them holds seats
/// worth more than its votes, at `price` a seat and `worth` a vote, so do
/// they all together, by at least one for each party.
pub proof fn lemma_votes_under_seats(
    votes: Seq<Votes>,
    ledger: Seq<SeatState>,
    price: int,
    worth: int,
    n: int,
)
    requires
        votes.len() == ledger.len(),
        0 <= n <= ledger.len(),
        forall|i: int|
            0 <= i < ledger.len() ==> votes[i].0 * worth + 1 <= (#[trigger] ledger[i]).held * price,
    ensures
        total_votes(votes.take(n)) * worth + n <= total_held(ledger.take(n)) * price,
    decreases n,
{
    let cast_now = total_votes(votes.take(n)) as int;
    let held_now = total_held(ledger.take(n)) as int;
    if n == 0 {
        assert(cast_now * worth + n <= held_now * price) by (nonlinear_arith)
            requires
                cast_now == 0,
                held_now == 0,
                n == 0,
        ;
    } else {
        lemma_votes_under_seats(votes, ledger, price, worth, n - 1);
        assert(ledger.take(n).drop_last() == ledger.take(n - 1));
        assert(votes.take(n).drop_last() == votes.take(n - 1));
        let cast = total_votes(votes.take(n - 1)) as int;
        let held = total_held(ledger.take(n - 1)) as int;
        let vi = votes[n - 1].0 as int;
        let hi = ledger[n - 1].held as int;
        assert(votes[n - 1].0 * worth + 1 <= ledger[n - 1].held * price);
        assert(cast_now * worth + n <= held_now * price) by (nonlinear_arith)
            requires
                cast_now == cast + vi,
                held_now == held + hi,
                cast * worth + (n - 1) <= held * price,
                vi * worth + 1 <= hi * price,
        ;
    }
}

/// Where no capacity bounds a party, an allocation by largest averages
/// awards every seat of the pool.
pub proof fn law_unbounded_averages_fill(
    votes: Seq<Votes>,
    start: Seq<SeatState>,
    pool: nat,
    end: Seq<SeatState>,
    left: nat,
)
    requires
        allocation_of(Strategy::LargestAverages, votes, start, pool, end, left),
        start.len() > 0,
        unbounded(start),
    ensures
        left == 0,
{
    law_allocation_conserves(Strategy::LargestAverages, votes, start, pool, end, left);
    if left > 0 {
        law_leftover_by_averages(votes, start, pool, end, left);
        assert(start[0].capacity is None);
        assert(!end[0].has_capacity());
    }
}

/// Where the parties start without seats and no capacity bounds them, an
/// allocation by largest surpluses awards every seat of the pool.
pub proof fn law_unbounded_surpluses_fill(
    votes: Seq<Votes>,
    start: Seq<SeatState>,
    pool: nat,
    end: Seq<SeatState>,
    left: nat,
)
    requires
        surplus_allocation_of(votes, start, pool, end, left),
        votes.len() == start.len(),
        start.len() > 0,
        fresh(start),
        unbounded(start),
        total_votes(votes) <= Count::MAX,
        pool <= Count::MAX,
    ensures
        left == 0,
{
    let rest = by_rest(votes, pool);
    let (mid, mid_left) = choose|mid: Seq<SeatState>, mid_left: nat|
        {
            &&& #[trigger] allocation_of(by_surpluses(votes, pool), votes, start, pool, mid, mid_left)
            &&& if mid_left > 0 {
                allocation_of(rest, votes, mid, mid_left, end, left)
            } else {
                end == mid && left == 0
            }
        };
    if mid_left > 0 && left > 0 {
        // Seats are left, so no party has a quota for the seats it holds; all
        // together the parties then hold more seats than the body has.
        lemma_strategies_are_steady(rest);
        law_leftover(rest, votes, mid, mid_left, end, left);
        law_surplus_allocation_conserves(votes, start, pool, end, left);
        lemma_fresh_ledger_is_empty(start);
        let quota = total_votes(votes) as int;
        let body = pool as int;
        let rated = qualities(rest, votes, end);
        assert forall|i: int| 0 <= i < end.len() implies votes[i].0 * body + 1 <= (
        #[trigger] end[i]).held * quota by {
            assert(start[i].capacity is None);
            assert(end[i].has_capacity());
            assert(rated[i] is None);
            let cast = votes[i].0 as int;
            let held = end[i].held as int;
            assert(cast * body >= held * quota ==> cast * body >= (held - 1) * quota)
                by (nonlinear_arith)
                requires
                    quota >= 0,
            ;
        }
        lemma_votes_under_seats(votes, end, quota, body, end.len() as int);
        assert(votes.take(votes.len() as int) == votes);
        assert(end.take(end.len() as int) == end);
        let held = total_held(end) as int;
        assert(false) by (nonlinear_arith)
            requires
                quota * body + end.len() <= held * quota,
                held <= body,
                quota >= 0,
                end.len() > 0,
        ;
    }
}

} // verus!

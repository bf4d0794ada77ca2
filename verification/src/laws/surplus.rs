//! The majority of seats in a body that is allocated by largest surpluses.

use vstd::prelude::*;
use crate::allocation::{
    allocation_of, lemma_full_party_wins_nothing, lemma_round_keeps, lemma_rounds_keep,
    lemma_rounds_only_add, lots_fit, rounds, settled,
};
use crate::criterion::{clears_quota, clears_three_quarters, Criterion, Strategy, surplus};
use crate::data::{Count, SeatState, Votes};
use crate::election::{by_rest, by_surpluses, surplus_allocation_of};
use crate::laws::majority::{law_correction_restores_majority, lemma_others_within};
use crate::ledger::{
    award, fresh, lemma_fresh_ledger_is_empty, lemma_held_within_total, lemma_marked,
    lemma_total_held_update, lemma_two_within_total, lemma_votes_within_total, total_held,
    total_votes,
};
use crate::lottery::{drawn_from, lemma_drawn_apart};
use crate::majority::{
    claimant, corrected, donors, gains, is_claimant, lemma_claimant_has_majority,
    lemma_no_gain_no_donor, majority_served, owed_majority,
};
use crate::round::{
    leads, lemma_leaders_have_capacity, lemma_no_leader_no_quality, qualities, round_leaders,
};

verus! {

/// While party `w` has a quota for one seat more than it holds, every party
/// has a quota for each seat it holds.
pub open spec fn whole_seats_only(
    votes: Seq<Votes>,
    ledger: Seq<SeatState>,
    vote_count: int,
    seat_count: int,
    w: int,
) -> bool {
    (ledger[w].held + 1) * vote_count <= votes[w].0 * seat_count ==> forall|i: int|
        0 <= i < ledger.len() ==> (#[trigger] ledger[i]).held * vote_count <= votes[i].0
            * seat_count
}

/// A party that can take no seat ends an allocation as it started.
pub proof fn lemma_full_party_stays<C: Criterion>(
    criterion: C,
    votes: Seq<Votes>,
    start: Seq<SeatState>,
    pool: nat,
    end: Seq<SeatState>,
    left: nat,
    i: int,
)
    requires
        allocation_of(criterion, votes, start, pool, end, left),
        0 <= i < start.len(),
        !start[i].has_capacity(),
    ensures
        end[i] == start[i],
{
    let lots = choose|lots: Seq<int>|
        {
            let tally = #[trigger] rounds(criterion, votes, start, pool, lots);
            &&& lots_fit(criterion, votes, start, pool, lots)
            &&& settled(votes, tally, end, left)
        };
    let tally = rounds(criterion, votes, start, pool, lots);
    lemma_rounds_keep(criterion, votes, start, pool, lots);
    lemma_full_party_wins_nothing(criterion, votes, start, pool, lots, i);
    if let Some(winner) = claimant(votes, tally.ledger) {
        assert(is_claimant(votes, tally.ledger, winner));
        if donors(tally.ledger, tally.before, winner).len() > 0 {
            let donor = choose|donor: int|
                donors(tally.ledger, tally.before, winner).contains(donor) && end
                    == #[trigger] corrected(tally.ledger, winner, donor);
            lemma_marked(gains(tally.ledger, tally.before, winner));
            let k = choose|k: int|
                0 <= k < donors(tally.ledger, tally.before, winner).len() && donors(
                    tally.ledger,
                    tally.before,
                    winner,
                )[k] == donor;
            assert(gains(tally.ledger, tally.before, winner)[donor]);
        }
    }
}

/// A round by surpluses in which party `w` can take a seat awards whole
/// seats only while `w` has a quota for one more.
pub proof fn lemma_round_whole_seats(
    vote_count: Count,
    seat_count: Count,
    votes: Seq<Votes>,
    ledger: Seq<SeatState>,
    pool: nat,
    drawn: Seq<int>,
    w: int,
)
    requires
        votes.len() == ledger.len(),
        0 <= w < ledger.len(),
        whole_seats_only(votes, ledger, vote_count as int, seat_count as int, w),
        ledger[w].has_capacity(),
        clears_three_quarters(votes[w].0 as int, vote_count as int, seat_count as int),
        drawn_from(
            drawn,
            round_leaders(Strategy::LargestSurpluses { vote_count, seat_count }, votes, ledger),
            pool,
        ),
    ensures
        whole_seats_only(votes, award(ledger, drawn), vote_count as int, seat_count as int, w),
{
    let criterion = Strategy::LargestSurpluses { vote_count, seat_count };
    let rated = qualities(criterion, votes, ledger);
    let tied = round_leaders(criterion, votes, ledger);
    let after = award(ledger, drawn);
    let quota = vote_count as int;
    let body = seat_count as int;
    let vw = votes[w].0 as int;
    let hw = ledger[w].held as int;
    lemma_leaders_have_capacity(criterion, votes, ledger);
    lemma_drawn_apart(drawn, tied, pool);
    if (after[w].held + 1) * quota <= vw * body {
        assert((hw + 1) * quota <= vw * body) by (nonlinear_arith)
            requires
                (after[w].held + 1) * quota <= vw * body,
                after[w].held >= hw,
                quota >= 0,
        ;
        assert(hw * quota <= vw * body) by (nonlinear_arith)
            requires
                (hw + 1) * quota <= vw * body,
                quota >= 0,
        ;
        assert(clears_quota(vw, hw, quota, body));
        assert(rated[w] == Some(surplus(votes[w], ledger[w], quota, body)));
        assert forall|i: int| 0 <= i < after.len() implies (#[trigger] after[i]).held * quota
            <= votes[i].0 * body by {
            let hi = ledger[i].held as int;
            let vi = votes[i].0 as int;
            assert(ledger[i].held * quota <= votes[i].0 * body);
            if drawn.contains(i) {
                let k = choose|k: int| 0 <= k < drawn.len() && drawn[k] == i;
                assert(tied.contains(drawn[k]));
                let at = choose|at: int| 0 <= at < tied.len() && tied[at] == i;
                assert(leads(rated, tied[at]));
                assert(rated[i] == Some(surplus(votes[i], ledger[i], quota, body)));
                assert(rated[i].unwrap().at_least(rated[w].unwrap()));
                assert(clears_quota(vi, hi, quota, body));
                assert(vi * body - hi * quota >= vw * body - hw * quota);
                assert((hi + 1) * quota <= vi * body) by (nonlinear_arith)
                    requires
                        vi * body - hi * quota >= vw * body - hw * quota,
                        (hw + 1) * quota <= vw * body,
                ;
            }
        }
    }
}

/// Rounds by surpluses that leave party `w` able to take a seat award
/// whole seats only while `w` has a quota for one more, to the end and up
/// to their last round, and award a seat in their last round where they
/// empty the pool.
pub proof fn lemma_rounds_whole_seats(
    vote_count: Count,
    seat_count: Count,
    votes: Seq<Votes>,
    ledger: Seq<SeatState>,
    pool: nat,
    lots: Seq<int>,
    w: int,
)
    requires
        votes.len() == ledger.len(),
        0 <= w < ledger.len(),
        whole_seats_only(votes, ledger, vote_count as int, seat_count as int, w),
        clears_three_quarters(votes[w].0 as int, vote_count as int, seat_count as int),
        lots_fit(Strategy::LargestSurpluses { vote_count, seat_count }, votes, ledger, pool, lots),
        rounds(
            Strategy::LargestSurpluses { vote_count, seat_count },
            votes,
            ledger,
            pool,
            lots,
        ).ledger[w].has_capacity(),
    ensures
        ({
            let tally = rounds(
                Strategy::LargestSurpluses { vote_count, seat_count },
                votes,
                ledger,
                pool,
                lots,
            );
            &&& whole_seats_only(votes, tally.ledger, vote_count as int, seat_count as int, w)
            &&& whole_seats_only(votes, tally.before, vote_count as int, seat_count as int, w)
            &&& pool > 0 && tally.pool == 0 ==> total_held(tally.ledger) > total_held(tally.before)
        }),
    decreases pool,
{
    let criterion = Strategy::LargestSurpluses { vote_count, seat_count };
    let tied = round_leaders(criterion, votes, ledger);
    lemma_rounds_only_add(criterion, votes, ledger, pool, lots);
    if pool == 0 || tied.len() == 0 {
    } else if tied.len() < pool {
        lemma_round_whole_seats(vote_count, seat_count, votes, ledger, pool, tied, w);
        lemma_rounds_whole_seats(
            vote_count,
            seat_count,
            votes,
            award(ledger, tied),
            (pool - tied.len()) as nat,
            lots,
            w,
        );
    } else if tied.len() == pool {
        lemma_round_whole_seats(vote_count, seat_count, votes, ledger, pool, tied, w);
        lemma_round_keeps(criterion, votes, ledger, pool, tied);
    } else {
        lemma_round_whole_seats(vote_count, seat_count, votes, ledger, pool, lots, w);
        lemma_round_keeps(criterion, votes, ledger, pool, lots);
    }
}

/// Where all seats of the body are awarded in whole seats as long as the
/// party with more than half of the votes has a quota for one more, that
/// party is less than one seat short of half of the seats.
pub proof fn lemma_whole_seats_near_half(
    votes: Seq<Votes>,
    ledger: Seq<SeatState>,
    seat_count: int,
    w: int,
)
    requires
        votes.len() == ledger.len(),
        0 <= w < ledger.len(),
        whole_seats_only(votes, ledger, total_votes(votes) as int, seat_count, w),
        total_held(ledger) == seat_count,
        2 * votes[w].0 > total_votes(votes),
    ensures
        2 * ledger[w].held + 2 > total_held(ledger),
{
    let quota = total_votes(votes) as int;
    let vw = votes[w].0 as int;
    let hw = ledger[w].held as int;
    lemma_votes_within_total(votes, w);
    if (hw + 1) * quota <= vw * seat_count {
        lemma_others_within(votes, ledger, w, quota, seat_count);
        assert(false) by (nonlinear_arith)
            requires
                (seat_count - hw) * quota <= (quota - vw) * seat_count,
                (hw + 1) * quota <= vw * seat_count,
                quota > 0,
        ;
    }
    assert(2 * hw + 2 > seat_count) by (nonlinear_arith)
        requires
            (hw + 1) * quota > vw * seat_count,
            2 * vw > quota,
            quota > 0,
            seat_count >= 0,
            hw >= 0,
    ;
}

/// Where the last round awarded a seat, the body is full, and the party
/// with more than half of the votes holds no more than half of the seats,
/// another party won a seat in the last round.
pub proof fn lemma_whole_seats_leave_donor(
    votes: Seq<Votes>,
    ledger: Seq<SeatState>,
    before: Seq<SeatState>,
    seat_count: int,
    w: int,
)
    requires
        votes.len() == ledger.len(),
        before.len() == ledger.len(),
        0 <= w < ledger.len(),
        whole_seats_only(votes, before, total_votes(votes) as int, seat_count, w),
        forall|i: int|
            0 <= i < ledger.len() ==> (#[trigger] before[i]).held <= ledger[i].held
                && before[i].capacity == ledger[i].capacity,
        total_held(ledger) == seat_count,
        total_held(ledger) > total_held(before),
        2 * votes[w].0 > total_votes(votes),
        2 * ledger[w].held <= total_held(ledger),
    ensures
        donors(ledger, before, w).len() > 0,
{
    if donors(ledger, before, w).len() == 0 {
        lemma_marked(gains(ledger, before, w));
        assert forall|i: int| 0 <= i < ledger.len() && i != w implies ledger[i] == before[i] by {
            if ledger[i].held > before[i].held {
                assert(gains(ledger, before, w)[i]);
                assert(donors(ledger, before, w).contains(i));
            }
            assert(before[i].held <= ledger[i].held);
        }
        assert(ledger =~= before.update(w, ledger[w]));
        lemma_total_held_update(before, w, ledger[w]);
        let quota = total_votes(votes) as int;
        let vw = votes[w].0 as int;
        let hw = ledger[w].held as int;
        let bw = before[w].held as int;
        lemma_votes_within_total(votes, w);
        assert(hw * quota < vw * seat_count) by (nonlinear_arith)
            requires
                2 * hw <= seat_count,
                2 * vw > quota,
                quota > 0,
                hw >= 0,
                seat_count > 0,
        ;
        assert((bw + 1) * quota <= hw * quota) by (nonlinear_arith)
            requires
                bw + 1 <= hw,
                quota > 0,
        ;
        lemma_others_within(votes, before, w, quota, seat_count);
        assert(false) by (nonlinear_arith)
            requires
                (seat_count - hw) * quota <= (quota - vw) * seat_count,
                hw * quota < vw * seat_count,
        ;
    }
}

/// Majority in a body that is allocated by largest surpluses: where every
/// party starts without seats and at least one seat is to be awarded, the
/// party with more than half of the votes ends with more than half of the
/// seats awarded, or cannot take another seat.
pub proof fn law_majority_by_surpluses(
    votes: Seq<Votes>,
    start: Seq<SeatState>,
    pool: nat,
    end: Seq<SeatState>,
    left: nat,
    w: int,
)
    requires
        surplus_allocation_of(votes, start, pool, end, left),
        votes.len() == start.len(),
        total_votes(votes) <= Count::MAX,
        pool <= Count::MAX,
        0 <= w < start.len(),
        fresh(start),
        pool > 0,
        2 * votes[w].0 > total_votes(votes),
    ensures
        majority_served(votes, end, w),
{
    let first = by_surpluses(votes, pool);
    let rest = by_rest(votes, pool);
    let quota = total_votes(votes) as int;
    let body = pool as int;
    let vw = votes[w].0 as int;
    let (mid, mid_left) = choose|mid: Seq<SeatState>, mid_left: nat|
        {
            &&& #[trigger] allocation_of(first, votes, start, pool, mid, mid_left)
            &&& if mid_left > 0 {
                allocation_of(rest, votes, mid, mid_left, end, left)
            } else {
                end == mid && left == 0
            }
        };
    let lots = choose|lots: Seq<int>|
        {
            let tally = #[trigger] rounds(first, votes, start, pool, lots);
            &&& lots_fit(first, votes, start, pool, lots)
            &&& settled(votes, tally, mid, mid_left)
        };
    let tally = rounds(first, votes, start, pool, lots);
    lemma_rounds_keep(first, votes, start, pool, lots);
    lemma_rounds_only_add(first, votes, start, pool, lots);
    lemma_claimant_has_majority(votes, tally.ledger, w);
    lemma_fresh_ledger_is_empty(start);
    lemma_votes_within_total(votes, w);
    if tally.pool == 0 {
        // The surpluses emptied the pool, so the ledger ends with their correction.
        if tally.ledger[w].has_capacity() {
            if clears_three_quarters(vw, quota, body) {
                assert(whole_seats_only(votes, start, quota, body, w)) by {
                    assert forall|i: int| 0 <= i < start.len() implies (#[trigger] start[i]).held
                        * quota <= votes[i].0 * body by {
                        assert(start[i].held * quota <= votes[i].0 * body) by (nonlinear_arith)
                            requires
                                start[i].held == 0,
                                votes[i].0 >= 0,
                                body >= 0,
                        ;
                    }
                }
                lemma_rounds_whole_seats(
                    total_votes(votes) as Count,
                    pool as Count,
                    votes,
                    start,
                    pool,
                    lots,
                    w,
                );
                lemma_whole_seats_near_half(votes, tally.ledger, body, w);
                if 2 * tally.ledger[w].held <= total_held(tally.ledger) {
                    lemma_whole_seats_leave_donor(votes, tally.ledger, tally.before, body, w);
                    law_correction_restores_majority(votes, tally.ledger, tally.before, mid, w);
                }
            } else {
                // In a body of one seat nobody reaches three quarters of the quota, so
                // the surpluses award nothing and cannot have emptied the pool.
                assert(body == 1) by (nonlinear_arith)
                    requires
                        4 * (vw * body) < 3 * quota,
                        2 * vw > quota,
                        body > 0,
                        quota >= 0,
                        vw >= 0,
                ;
                lemma_leaders_have_capacity(first, votes, start);
                let tied = round_leaders(first, votes, start);
                if tied.len() > 0 {
                    let p = tied[0];
                    assert(leads(qualities(first, votes, start), p));
                    assert(first.quality(votes[p], start[p]) is Some);
                    if p != w {
                        if p < w {
                            lemma_two_within_total(votes, p, w);
                        } else {
                            lemma_two_within_total(votes, w, p);
                        }
                    }
                    assert(!clears_three_quarters(votes[p].0 as int, quota, body));
                    assert(false);
                }
                assert(tally.pool == pool);
                assert(false);
            }
        }
    } else {
        // The surpluses left seats over, so no party won in their last round: a
        // claimant takes a seat of the pool, and the averages go on from there.
        if let Some(winner) = claimant(votes, tally.ledger) {
            lemma_no_gain_no_donor(tally.ledger, winner);
        }
        if !tally.ledger[w].has_capacity() {
            assert(mid == tally.ledger);
            lemma_full_party_stays(rest, votes, mid, mid_left, end, left, w);
        } else if clears_three_quarters(vw, quota, body) {
            let rated = qualities(first, votes, tally.ledger);
            assert forall|i: int| 0 <= i < rated.len() implies ((#[trigger] rated[i]) matches Some(
                q,
            ) ==> q.proper()) by {
                if rated[i] is Some {
                    assert(rated[i] == Some(surplus(votes[i], tally.ledger[i], quota, body)));
                }
            }
            // The party could take a seat but had no surplus left: it holds more than
            // its quota gives, which is more than half of the body.
            lemma_no_leader_no_quality(rated);
            assert(rated[w] is None);
            assert(!clears_quota(vw, tally.ledger[w].held as int, quota, body));
            assert(2 * tally.ledger[w].held > body) by (nonlinear_arith)
                requires
                    vw * body < tally.ledger[w].held * quota,
                    2 * vw > quota,
                    quota > 0,
                    body > 0,
            ;
            assert(mid == tally.ledger);
            let second = choose|second: Seq<int>|
                {
                    let after = #[trigger] rounds(rest, votes, mid, mid_left, second);
                    &&& lots_fit(rest, votes, mid, mid_left, second)
                    &&& settled(votes, after, end, left)
                };
            let after = rounds(rest, votes, mid, mid_left, second);
            lemma_rounds_keep(rest, votes, mid, mid_left, second);
            lemma_rounds_only_add(rest, votes, mid, mid_left, second);
            lemma_claimant_has_majority(votes, after.ledger, w);
            assert(after.ledger[w].held >= mid[w].held);
        } else {
            // In a body of one seat nobody reaches three quarters of the quota: the
            // surpluses award nothing, and the party takes the seat as the claimant.
            assert(body == 1) by (nonlinear_arith)
                requires
                    4 * (vw * body) < 3 * quota,
                    2 * vw > quota,
                    body > 0,
                    quota >= 0,
                    vw >= 0,
            ;
            assert(tally.ledger =~= start) by {
                assert forall|i: int| 0 <= i < start.len() implies tally.ledger[i] == start[i] by {
                    assert(tally.ledger[i].held >= start[i].held);
                    lemma_held_within_total(tally.ledger, i);
                }
            }
            assert(owed_majority(votes, tally.ledger, w));
            lemma_total_held_update(tally.ledger, w, tally.ledger[w].gain());
        }
    }
}

} // verus!

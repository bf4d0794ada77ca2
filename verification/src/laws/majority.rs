//! The majority of seats for a majority of votes.

use vstd::prelude::*;
use crate::allocation::{
    allocation_of, lemma_round_keeps, lemma_rounds_keep, lemma_rounds_only_add,
    lemma_unrated_wins_nothing, lots_fit, rounds, settled,
};
use crate::criterion::{always_rated, average, by_average, Criterion, never_rated, Strategy};
use crate::data::{Count, SeatState, Votes};
use crate::election::by_threshold;
use crate::ledger::{
    award, fresh, lemma_fresh_ledger_is_empty, lemma_held_within_total, lemma_marked,
    lemma_total_held_update, lemma_two_within_total, lemma_votes_within_total, total_held,
    total_votes,
};
use crate::lottery::{drawn_from, lemma_drawn_apart};
use crate::majority::{
    claimant, corrected, correction_of, donors, gains, lemma_claimant_has_majority,
    lemma_correction_keeps, lemma_no_gain_no_donor, majority_served, owed_majority,
};
use crate::round::{
    lead_flags, leads, lemma_leaders_have_capacity, lemma_some_party_leads, qualities,
    round_leaders,
};

verus! {

/// After the correction the claimant holds more than half of the seats,
/// where it was no more than one seat short of that and a donor was found.
pub proof fn law_correction_restores_majority(
    votes: Seq<Votes>,
    ledger: Seq<SeatState>,
    before: Seq<SeatState>,
    after: Seq<SeatState>,
    winner: int,
)
    requires
        correction_of(votes, ledger, before, after),
        before.len() == ledger.len(),
        claimant(votes, ledger) == Some(winner),
        donors(ledger, before, winner).len() > 0,
        2 * ledger[winner].held + 2 > total_held(ledger),
    ensures
        2 * after[winner].held > total_held(after),
        total_held(after) == total_held(ledger),
{
    lemma_correction_keeps(votes, ledger, before, after);
    let donor = choose|donor: int|
        donors(ledger, before, winner).contains(donor) && after == #[trigger] corrected(
            ledger,
            winner,
            donor,
        );
    lemma_marked(gains(ledger, before, winner));
    let k = choose|k: int|
        0 <= k < donors(ledger, before, winner).len() && donors(ledger, before, winner)[k]
            == donor;
    assert(gains(ledger, before, winner)[donor]);
}

/// The criterion ranks by the average, and always rates party `w`.
pub open spec fn ranks_by_average<C: Criterion>(criterion: C, votes: Seq<Votes>, w: int) -> bool {
    by_average(criterion) && always_rated(criterion, votes[w])
}

/// No party holds more seats than its votes would give it at the average
/// of party `w`: for every party, the seats it holds times the votes of `w`
/// are no more than its votes times the seats of `w` and one.
pub open spec fn abreast(votes: Seq<Votes>, ledger: Seq<SeatState>, w: int) -> bool {
    forall|i: int|
        0 <= i < ledger.len() ==> (#[trigger] ledger[i]).held * votes[w].0 <= votes[i].0 * (
        ledger[w].held + 1)
}

/// A round by averages in which party `w` can take a seat has a leader,
/// and leaves the parties abreast of `w`.
pub proof fn lemma_round_abreast<C: Criterion>(
    criterion: C,
    votes: Seq<Votes>,
    ledger: Seq<SeatState>,
    pool: nat,
    drawn: Seq<int>,
    w: int,
)
    requires
        ranks_by_average(criterion, votes, w),
        votes.len() == ledger.len(),
        0 <= w < ledger.len(),
        abreast(votes, ledger, w),
        ledger[w].has_capacity(),
        drawn_from(drawn, round_leaders(criterion, votes, ledger), pool),
    ensures
        round_leaders(criterion, votes, ledger).len() > 0,
        abreast(votes, award(ledger, drawn), w),
        forall|i: int|
            0 <= i < ledger.len() ==> (#[trigger] award(ledger, drawn)[i]).held >= ledger[i].held,
{
    let rated = qualities(criterion, votes, ledger);
    let tied = round_leaders(criterion, votes, ledger);
    let after = award(ledger, drawn);
    lemma_leaders_have_capacity(criterion, votes, ledger);
    lemma_drawn_apart(drawn, tied, pool);
    assert(rated[w] == Some(average(votes[w], ledger[w])));
    assert forall|i: int| 0 <= i < rated.len() implies ((#[trigger] rated[i]) matches Some(q)
        ==> q.proper()) by {
        if rated[i] is Some {
            assert(rated[i] == Some(average(votes[i], ledger[i])));
        }
    }
    let p = lemma_some_party_leads(rated, rated.len() as int);
    assert(leads(rated, p));
    lemma_marked(lead_flags(rated));
    assert(lead_flags(rated)[p]);
    assert(tied.contains(p));
    assert forall|i: int| 0 <= i < ledger.len() implies (#[trigger] after[i]).held * votes[w].0
        <= votes[i].0 * (after[w].held + 1) by {
        let hi = ledger[i].held as int;
        let hw = ledger[w].held as int;
        let vi = votes[i].0 as int;
        let vw = votes[w].0 as int;
        let hw2 = after[w].held as int;
        assert(ledger[i].held * votes[w].0 <= votes[i].0 * (ledger[w].held + 1));
        assert(hw2 >= hw);
        if drawn.contains(i) {
            let k = choose|k: int| 0 <= k < drawn.len() && drawn[k] == i;
            assert(tied.contains(drawn[k]));
            let at = choose|at: int| 0 <= at < tied.len() && tied[at] == i;
            assert(leads(rated, tied[at]));
            assert(rated[i] == Some(average(votes[i], ledger[i])));
            assert(rated[i].unwrap().at_least(rated[w].unwrap()));
            assert(vi * (hw + 1) >= vw * (hi + 1));
            assert((hi + 1) * vw <= vi * (hw2 + 1)) by (nonlinear_arith)
                requires
                    vi * (hw + 1) >= vw * (hi + 1),
                    hw2 >= hw,
                    vi >= 0,
            ;
        } else {
            assert(hi * vw <= vi * (hw2 + 1)) by (nonlinear_arith)
                requires
                    hi * vw <= vi * (hw + 1),
                    hw2 >= hw,
                    vi >= 0,
            ;
        }
    }
}

/// Rounds by averages that leave party `w` able to take a seat empty the
/// pool, award a seat in their last round, and leave the parties abreast of
/// `w`, as they were ahead of the last round.
pub proof fn lemma_rounds_abreast<C: Criterion>(
    criterion: C,
    votes: Seq<Votes>,
    ledger: Seq<SeatState>,
    pool: nat,
    lots: Seq<int>,
    w: int,
)
    requires
        ranks_by_average(criterion, votes, w),
        votes.len() == ledger.len(),
        0 <= w < ledger.len(),
        abreast(votes, ledger, w),
        lots_fit(criterion, votes, ledger, pool, lots),
        rounds(criterion, votes, ledger, pool, lots).ledger[w].has_capacity(),
    ensures
        ({
            let tally = rounds(criterion, votes, ledger, pool, lots);
            &&& tally.pool == 0
            &&& abreast(votes, tally.ledger, w)
            &&& abreast(votes, tally.before, w)
            &&& pool > 0 ==> total_held(tally.ledger) > total_held(tally.before)
        }),
    decreases pool,
{
    let tied = round_leaders(criterion, votes, ledger);
    lemma_rounds_only_add(criterion, votes, ledger, pool, lots);
    if pool == 0 {
    } else if tied.len() == 0 {
        lemma_round_abreast(criterion, votes, ledger, pool, tied, w);
    } else if tied.len() < pool {
        lemma_round_abreast(criterion, votes, ledger, pool, tied, w);
        lemma_rounds_abreast(criterion, votes, award(ledger, tied), (pool - tied.len()) as nat, lots, w);
    } else if tied.len() == pool {
        lemma_round_abreast(criterion, votes, ledger, pool, tied, w);
        lemma_round_keeps(criterion, votes, ledger, pool, tied);
    } else {
        lemma_round_abreast(criterion, votes, ledger, pool, lots, w);
        lemma_round_keeps(criterion, votes, ledger, pool, lots);
    }
}

/// Summing over the first `n` parties but `w`: where each of them holds
/// seats worth no more than its votes, at `price` a seat and `worth` a vote,
/// so do they all together.
pub proof fn lemma_weighted_sum(
    votes: Seq<Votes>,
    ledger: Seq<SeatState>,
    w: int,
    price: int,
    worth: int,
    n: int,
)
    requires
        votes.len() == ledger.len(),
        0 <= w < ledger.len(),
        0 <= n <= ledger.len(),
        forall|i: int|
            0 <= i < ledger.len() && i != w ==> (#[trigger] ledger[i]).held * price <= votes[i].0
                * worth,
    ensures
        (total_held(ledger.take(n)) - if w < n {
            ledger[w].held
        } else {
            0
        }) * price <= (total_votes(votes.take(n)) - if w < n {
            votes[w].0 as nat
        } else {
            0
        }) * worth,
    decreases n,
{
    let vw = votes[w].0 as int;
    let hw = ledger[w].held as int;
    let seats_now = total_held(ledger.take(n)) - if w < n {
        hw
    } else {
        0
    };
    let cast_now = total_votes(votes.take(n)) - if w < n {
        vw
    } else {
        0
    };
    if n == 0 {
        assert(seats_now * price <= cast_now * worth) by (nonlinear_arith)
            requires
                seats_now == 0,
                cast_now == 0,
        ;
    } else {
        lemma_weighted_sum(votes, ledger, w, price, worth, n - 1);
        assert(ledger.take(n).drop_last() == ledger.take(n - 1));
        assert(votes.take(n).drop_last() == votes.take(n - 1));
        let i = n - 1;
        let hi = ledger[i].held as int;
        let vi = votes[i].0 as int;
        let seats = total_held(ledger.take(n - 1)) - if w < n - 1 {
            hw
        } else {
            0
        };
        let cast = total_votes(votes.take(n - 1)) - if w < n - 1 {
            vw
        } else {
            0
        };
        if i != w {
            assert(ledger[i].held * price <= votes[i].0 * worth);
            assert(seats_now * price <= cast_now * worth) by (nonlinear_arith)
                requires
                    seats_now == seats + hi,
                    cast_now == cast + vi,
                    seats * price <= cast * worth,
                    hi * price <= vi * worth,
            ;
        } else {
            assert(seats_now == seats);
            assert(cast_now == cast);
        }
    }
}

/// What the parties but `w` hold and have together, where each of them
/// holds seats worth no more than its votes.
pub proof fn lemma_others_within(
    votes: Seq<Votes>,
    ledger: Seq<SeatState>,
    w: int,
    price: int,
    worth: int,
)
    requires
        votes.len() == ledger.len(),
        0 <= w < ledger.len(),
        forall|i: int|
            0 <= i < ledger.len() && i != w ==> (#[trigger] ledger[i]).held * price <= votes[i].0
                * worth,
    ensures
        (total_held(ledger) - ledger[w].held) * price <= (total_votes(votes) - votes[w].0) * worth,
        total_held(ledger) >= ledger[w].held,
        total_votes(votes) >= votes[w].0,
{
    lemma_weighted_sum(votes, ledger, w, price, worth, ledger.len() as int);
    assert(ledger.take(ledger.len() as int) == ledger);
    assert(votes.take(votes.len() as int) == votes);
    lemma_held_within_total(ledger, w);
    lemma_votes_within_total(votes, w);
}

/// Where the parties are abreast of a party with more than half of the
/// votes, that party holds at least half of the seats.
pub proof fn lemma_abreast_holds_half(votes: Seq<Votes>, ledger: Seq<SeatState>, w: int)
    requires
        votes.len() == ledger.len(),
        0 <= w < ledger.len(),
        abreast(votes, ledger, w),
        2 * votes[w].0 > total_votes(votes),
    ensures
        2 * ledger[w].held >= total_held(ledger),
{
    let vw = votes[w].0 as int;
    let hw = ledger[w].held as int;
    lemma_others_within(votes, ledger, w, vw, hw + 1);
    let others = total_held(ledger) - hw;
    let cast = total_votes(votes) - vw;
    assert(others <= hw) by (nonlinear_arith)
        requires
            others * vw <= cast * (hw + 1),
            cast < vw,
            hw >= 0,
            cast >= 0,
            others >= 0,
    ;
}

/// Parties without seats are abreast of every party.
pub proof fn lemma_fresh_is_abreast(votes: Seq<Votes>, start: Seq<SeatState>, w: int)
    requires
        fresh(start),
        0 <= w < start.len(),
    ensures
        abreast(votes, start, w),
{
    assert forall|i: int| 0 <= i < start.len() implies (#[trigger] start[i]).held * votes[w].0
        <= votes[i].0 * (start[w].held + 1) by {
        assert(start[i].held * votes[w].0 == 0) by (nonlinear_arith)
            requires
                start[i].held == 0,
        ;
        assert(votes[i].0 * (start[w].held + 1) >= 0) by (nonlinear_arith)
            requires
                votes[i].0 >= 0,
                start[w].held >= 0,
        ;
    }
}

/// Rounds by averages from a ledger without seats, which leave the party
/// with more than half of the votes able to take a seat: they empty the
/// pool, that party holds at least half of the seats, and where it holds no
/// more than half, another party won a seat in the last round.
pub proof fn lemma_rounds_by_average_settle<C: Criterion>(
    criterion: C,
    votes: Seq<Votes>,
    start: Seq<SeatState>,
    pool: nat,
    lots: Seq<int>,
    w: int,
)
    requires
        ranks_by_average(criterion, votes, w),
        votes.len() == start.len(),
        0 <= w < start.len(),
        fresh(start),
        pool > 0,
        lots_fit(criterion, votes, start, pool, lots),
        2 * votes[w].0 > total_votes(votes),
        rounds(criterion, votes, start, pool, lots).ledger[w].has_capacity(),
    ensures
        ({
            let tally = rounds(criterion, votes, start, pool, lots);
            &&& tally.pool == 0
            &&& abreast(votes, tally.ledger, w)
            &&& 2 * tally.ledger[w].held >= total_held(tally.ledger)
            &&& 2 * tally.ledger[w].held <= total_held(tally.ledger) ==> claimant(
                votes,
                tally.ledger,
            ) == Some(w) && donors(tally.ledger, tally.before, w).len() > 0
        }),
{
    let tally = rounds(criterion, votes, start, pool, lots);
    lemma_rounds_keep(criterion, votes, start, pool, lots);
    lemma_rounds_only_add(criterion, votes, start, pool, lots);
    lemma_claimant_has_majority(votes, tally.ledger, w);
    lemma_fresh_is_abreast(votes, start, w);
    lemma_rounds_abreast(criterion, votes, start, pool, lots, w);
    lemma_abreast_holds_half(votes, tally.ledger, w);
    lemma_abreast_holds_half(votes, tally.before, w);
    if 2 * tally.ledger[w].held <= total_held(tally.ledger) {
        assert(owed_majority(votes, tally.ledger, w));
        if donors(tally.ledger, tally.before, w).len() == 0 {
            // Had the last round awarded to this party alone, it would hold more than
            // half of the seats, as it held at least half ahead of that round.
            lemma_marked(gains(tally.ledger, tally.before, w));
            assert forall|i: int| 0 <= i < tally.ledger.len() && i != w implies tally.ledger[i]
                == tally.before[i] by {
                if tally.ledger[i].held > tally.before[i].held {
                    assert(gains(tally.ledger, tally.before, w)[i]);
                    assert(donors(tally.ledger, tally.before, w).contains(i));
                }
                assert(tally.before[i].held <= tally.ledger[i].held);
            }
            assert(tally.ledger =~= tally.before.update(w, tally.ledger[w]));
            lemma_total_held_update(tally.before, w, tally.ledger[w]);
            assert(false);
        }
    }
}

/// Majority: where every party starts without seats and at least one seat
/// is to be awarded by a criterion that ranks by the average and always
/// rates the party with more than half of the votes, that party ends with
/// more than half of the seats awarded, or cannot take another seat.
pub proof fn law_majority_by_average<C: Criterion>(
    criterion: C,
    votes: Seq<Votes>,
    start: Seq<SeatState>,
    pool: nat,
    end: Seq<SeatState>,
    left: nat,
    w: int,
)
    requires
        allocation_of(criterion, votes, start, pool, end, left),
        ranks_by_average(criterion, votes, w),
        votes.len() == start.len(),
        0 <= w < start.len(),
        fresh(start),
        pool > 0,
        2 * votes[w].0 > total_votes(votes),
    ensures
        majority_served(votes, end, w),
{
    let lots = choose|lots: Seq<int>|
        {
            let tally = #[trigger] rounds(criterion, votes, start, pool, lots);
            &&& lots_fit(criterion, votes, start, pool, lots)
            &&& settled(votes, tally, end, left)
        };
    let tally = rounds(criterion, votes, start, pool, lots);
    lemma_rounds_keep(criterion, votes, start, pool, lots);
    lemma_rounds_only_add(criterion, votes, start, pool, lots);
    lemma_claimant_has_majority(votes, tally.ledger, w);
    if tally.ledger[w].has_capacity() {
        lemma_rounds_by_average_settle(criterion, votes, start, pool, lots, w);
        if 2 * tally.ledger[w].held <= total_held(tally.ledger) {
            law_correction_restores_majority(votes, tally.ledger, tally.before, end, w);
        }
    }
}

/// Majority in a body that is allocated by largest averages.
pub proof fn law_majority_by_largest_averages(
    votes: Seq<Votes>,
    start: Seq<SeatState>,
    pool: nat,
    end: Seq<SeatState>,
    left: nat,
    w: int,
)
    requires
        allocation_of(Strategy::LargestAverages, votes, start, pool, end, left),
        votes.len() == start.len(),
        0 <= w < start.len(),
        fresh(start),
        pool > 0,
        2 * votes[w].0 > total_votes(votes),
    ensures
        majority_served(votes, end, w),
{
    law_majority_by_average(Strategy::LargestAverages, votes, start, pool, end, left, w);
}

/// Majority in a national election: where every party starts without
/// seats and at least one seat is to be awarded, the party with more than
/// half of the votes ends with more than half of the seats awarded, or
/// cannot take another seat.
pub proof fn law_majority_national(
    votes: Seq<Votes>,
    start: Seq<SeatState>,
    pool: nat,
    end: Seq<SeatState>,
    left: nat,
    w: int,
)
    requires
        allocation_of(by_threshold(votes, pool), votes, start, pool, end, left),
        votes.len() == start.len(),
        total_votes(votes) <= Count::MAX,
        pool <= Count::MAX,
        0 <= w < start.len(),
        fresh(start),
        pool > 0,
        2 * votes[w].0 > total_votes(votes),
    ensures
        majority_served(votes, end, w),
{
    let criterion = by_threshold(votes, pool);
    if votes[w].0 * pool >= total_votes(votes) {
        law_majority_by_average(criterion, votes, start, pool, end, left, w);
    } else {
        // The party is short of the quota, which takes a body of one seat. No
        // party has the quota then, the rounds award nothing, and the party takes
        // the seat as the claimant.
        let lots = choose|lots: Seq<int>|
            {
                let tally = #[trigger] rounds(criterion, votes, start, pool, lots);
                &&& lots_fit(criterion, votes, start, pool, lots)
                &&& settled(votes, tally, end, left)
            };
        let tally = rounds(criterion, votes, start, pool, lots);
        lemma_rounds_keep(criterion, votes, start, pool, lots);
        lemma_rounds_only_add(criterion, votes, start, pool, lots);
        lemma_fresh_ledger_is_empty(start);
        let cast = total_votes(votes) as int;
        let vw = votes[w].0 as int;
        let body = pool as int;
        assert(body == 1) by (nonlinear_arith)
            requires
                vw * body < cast,
                2 * vw > cast,
                body > 0,
                vw >= 0,
        ;
        assert forall|i: int| 0 <= i < start.len() implies tally.ledger[i] == start[i]
            && tally.before[i] == start[i] by {
            if i < w {
                lemma_two_within_total(votes, i, w);
            } else if w < i {
                lemma_two_within_total(votes, w, i);
            }
            assert(never_rated(criterion, votes[i]));
            lemma_unrated_wins_nothing(criterion, votes, start, pool, lots, i);
        }
        assert(tally.ledger =~= start);
        assert(tally.before =~= start);
        lemma_claimant_has_majority(votes, tally.ledger, w);
        lemma_no_gain_no_donor(tally.ledger, w);
        if start[w].has_capacity() {
            assert(owed_majority(votes, tally.ledger, w));
            lemma_total_held_update(tally.ledger, w, tally.ledger[w].gain());
        }
    }
}

} // verus!

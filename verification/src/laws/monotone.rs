//! More votes cost no seats.

use vstd::prelude::*;
use crate::allocation::{
    allocation_of, lemma_last_round, lemma_rounds_keep, lemma_rounds_only_add,
    lemma_unrated_wins_nothing, lemma_winner_is_rated, lots_fit, rounds,
};
use crate::criterion::{always_rated, average, by_average, Criterion, never_rated, Strategy};
use crate::data::{Count, SeatState, Votes};
use crate::election::by_threshold;
use crate::laws::chance::{allocation_by_lots, correction_by, law_allocation_has_lots, settled_by};
use crate::laws::majority::{
    abreast, lemma_fresh_is_abreast, lemma_round_abreast, lemma_rounds_abreast,
    lemma_rounds_by_average_settle,
};
use crate::ledger::{
    award, fresh, lemma_fresh_ledger_is_empty, lemma_marked, lemma_two_within_total,
    lemma_votes_within_total, total_held, total_votes,
};
use crate::majority::{
    claimant, donors, gains, is_claimant, lemma_claimant_has_majority, lemma_no_gain_no_donor,
    owed_majority,
};
use crate::round::{leads, lemma_leaders_have_capacity, qualities, round_leaders};

verus! {

/// `more` are the votes `votes` but for party `a`, which has more.
pub open spec fn raised(votes: Seq<Votes>, more: Seq<Votes>, a: int) -> bool {
    &&& votes.len() == more.len()
    &&& 0 <= a < votes.len()
    &&& more[a].0 > votes[a].0
    &&& forall|i: int| 0 <= i < votes.len() && i != a ==> more[i] == votes[i]
}

/// The criterion `first` for the votes `votes` and the criterion `second`
/// for the votes `more` go together: both rank by the average and rate a
/// party always or never; where party `a` is rated for `votes` it is rated
/// for `more`, as it is where it has more than half of the votes and some
/// other party is rated; and another party that is rated for `more` is
/// rated for `votes`.
pub open spec fn criteria_follow<C: Criterion, D: Criterion>(
    first: C,
    votes: Seq<Votes>,
    second: D,
    more: Seq<Votes>,
    a: int,
) -> bool {
    &&& by_average(first)
    &&& by_average(second)
    &&& forall|i: int|
        0 <= i < votes.len() ==> always_rated(first, #[trigger] votes[i]) || never_rated(
            first,
            votes[i],
        )
    &&& forall|i: int|
        0 <= i < more.len() ==> always_rated(second, #[trigger] more[i]) || never_rated(
            second,
            more[i],
        )
    &&& always_rated(first, votes[a]) ==> always_rated(second, more[a])
    &&& (2 * votes[a].0 > total_votes(votes) && exists|j: int|
        0 <= j < votes.len() && j != a && always_rated(first, #[trigger] votes[j]))
        ==> always_rated(second, more[a])
    &&& forall|i: int|
        0 <= i < more.len() && i != a && always_rated(second, #[trigger] more[i])
            ==> always_rated(first, votes[i])
}

/// Raising the votes of one party raises the total by as much.
pub proof fn lemma_total_votes_raised(votes: Seq<Votes>, more: Seq<Votes>, a: int)
    requires
        raised(votes, more, a),
    ensures
        total_votes(more) - more[a].0 == total_votes(votes) - votes[a].0,
    decreases votes.len(),
{
    let n = votes.len() - 1;
    if a < n {
        assert(more.last() == votes.last());
        lemma_total_votes_raised(votes.drop_last(), more.drop_last(), a);
    } else {
        assert(more.drop_last() =~= votes.drop_last());
    }
}

/// Summing over the first `n` parties but `a`: where none of them holds
/// more in `now` than in `then`, neither do they all together.
pub proof fn lemma_others_hold_no_more(
    then: Seq<SeatState>,
    now: Seq<SeatState>,
    a: int,
    n: int,
)
    requires
        then.len() == now.len(),
        0 <= a < then.len(),
        0 <= n <= then.len(),
        forall|i: int| 0 <= i < then.len() && i != a ==> (#[trigger] now[i]).held <= then[i].held,
    ensures
        total_held(now.take(n)) - if a < n {
            now[a].held
        } else {
            0
        } <= total_held(then.take(n)) - if a < n {
            then[a].held
        } else {
            0
        },
    decreases n,
{
    if n > 0 {
        lemma_others_hold_no_more(then, now, a, n - 1);
        assert(now.take(n).drop_last() == now.take(n - 1));
        assert(then.take(n).drop_last() == then.take(n - 1));
        if n - 1 != a {
            assert(now[n - 1].held <= then[n - 1].held);
        }
    }
}

/// Where the parties hold at least as many seats in `now` as in `then`
/// together, and party `a` fewer, some other party holds more.
pub proof fn lemma_some_party_gained(then: Seq<SeatState>, now: Seq<SeatState>, a: int) -> (j: int)
    requires
        then.len() == now.len(),
        0 <= a < then.len(),
        total_held(now) >= total_held(then),
        now[a].held < then[a].held,
    ensures
        0 <= j < then.len(),
        j != a,
        now[j].held > then[j].held,
{
    if forall|i: int| 0 <= i < then.len() && i != a ==> (#[trigger] now[i]).held <= then[i].held {
        lemma_others_hold_no_more(then, now, a, then.len() as int);
        assert(now.take(now.len() as int) == now);
        assert(then.take(then.len() as int) == then);
        assert(false);
    }
    choose|j: int| 0 <= j < then.len() && j != a && !((#[trigger] now[j]).held <= then[j].held)
}

/// Rounds by averages leave the parties abreast of party `w` ahead of the
/// last round, where `w` could take a seat then.
pub proof fn lemma_rounds_abreast_before<C: Criterion>(
    criterion: C,
    votes: Seq<Votes>,
    ledger: Seq<SeatState>,
    pool: nat,
    lots: Seq<int>,
    w: int,
)
    requires
        by_average(criterion),
        always_rated(criterion, votes[w]),
        votes.len() == ledger.len(),
        0 <= w < ledger.len(),
        abreast(votes, ledger, w),
        lots_fit(criterion, votes, ledger, pool, lots),
        rounds(criterion, votes, ledger, pool, lots).before[w].has_capacity(),
    ensures
        abreast(votes, rounds(criterion, votes, ledger, pool, lots).before, w),
    decreases pool,
{
    let tied = round_leaders(criterion, votes, ledger);
    lemma_rounds_only_add(criterion, votes, ledger, pool, lots);
    if pool == 0 || tied.len() == 0 {
    } else if tied.len() < pool {
        lemma_round_abreast(criterion, votes, ledger, pool, tied, w);
        lemma_rounds_abreast_before(
            criterion,
            votes,
            award(ledger, tied),
            (pool - tied.len()) as nat,
            lots,
            w,
        );
    } else {
    }
}

/// Where party `g` won a seat in the last round of rounds by averages
/// from a ledger without seats, no party holds a seat that is worth less
/// than the last of `g`: for every party, the seats it holds times the
/// votes of `g` are no more than its votes times the seats of `g`.
pub proof fn lemma_last_round_level<C: Criterion>(
    criterion: C,
    votes: Seq<Votes>,
    start: Seq<SeatState>,
    pool: nat,
    lots: Seq<int>,
    g: int,
)
    requires
        by_average(criterion),
        always_rated(criterion, votes[g]),
        votes.len() == start.len(),
        0 <= g < start.len(),
        fresh(start),
        lots_fit(criterion, votes, start, pool, lots),
        rounds(criterion, votes, start, pool, lots).before[g].held < rounds(
            criterion,
            votes,
            start,
            pool,
            lots,
        ).ledger[g].held,
    ensures
        ({
            let tally = rounds(criterion, votes, start, pool, lots);
            &&& tally.pool == 0
            &&& pool > 0
            &&& total_held(tally.ledger) == pool
            &&& forall|x: int|
                0 <= x < start.len() ==> (#[trigger] tally.ledger[x]).held * votes[g].0
                    <= votes[x].0 * tally.ledger[g].held
        }),
{
    let tally = rounds(criterion, votes, start, pool, lots);
    lemma_rounds_keep(criterion, votes, start, pool, lots);
    lemma_rounds_only_add(criterion, votes, start, pool, lots);
    lemma_fresh_ledger_is_empty(start);
    let won = lemma_last_round(criterion, votes, start, pool, lots);
    let before = tally.before;
    let rated = qualities(criterion, votes, before);
    lemma_leaders_have_capacity(criterion, votes, before);
    assert(won.contains(g));
    let at = choose|at: int| 0 <= at < won.len() && won[at] == g;
    assert(round_leaders(criterion, votes, before).contains(won[at]));
    let place = choose|place: int|
        0 <= place < round_leaders(criterion, votes, before).len() && round_leaders(
            criterion,
            votes,
            before,
        )[place] == g;
    assert(leads(rated, round_leaders(criterion, votes, before)[place]));
    assert(before[g].has_capacity());
    lemma_fresh_is_abreast(votes, start, g);
    lemma_rounds_abreast_before(criterion, votes, start, pool, lots, g);
    assert(rated[g] == Some(average(votes[g], before[g])));
    assert forall|x: int| 0 <= x < start.len() implies (#[trigger] tally.ledger[x]).held
        * votes[g].0 <= votes[x].0 * tally.ledger[g].held by {
        let bx = before[x].held as int;
        let bg = before[g].held as int;
        let vx = votes[x].0 as int;
        let vg = votes[g].0 as int;
        assert(before[x].held * votes[g].0 <= votes[x].0 * (before[g].held + 1));
        assert(tally.ledger[g].held == bg + 1);
        if won.contains(x) {
            let k = choose|k: int| 0 <= k < won.len() && won[k] == x;
            assert(round_leaders(criterion, votes, before).contains(won[k]));
            let spot = choose|spot: int|
                0 <= spot < round_leaders(criterion, votes, before).len() && round_leaders(
                    criterion,
                    votes,
                    before,
                )[spot] == x;
            assert(leads(rated, round_leaders(criterion, votes, before)[spot]));
            assert(rated[x] == Some(average(votes[x], before[x])));
            assert(rated[g].unwrap().at_least(rated[x].unwrap()));
            assert(vg * (bx + 1) >= vx * (bg + 1));
            assert(tally.ledger[x].held == bx + 1);
            assert((bx + 1) * vg <= vx * (bg + 1)) by (nonlinear_arith)
                requires
                    vg * (bx + 1) >= vx * (bg + 1),
                    rated[x].unwrap().at_least(rated[g].unwrap()),
                    rated[x].unwrap().num == vx,
                    rated[x].unwrap().den == bx + 1,
                    rated[g].unwrap().num == vg,
                    rated[g].unwrap().den == bg + 1,
            ;
        } else {
            assert(tally.ledger[x].held == bx);
        }
    }
}

/// Monotonicity of the rounds: in rounds by averages from a ledger without
/// seats, a party that has more votes, all else being the same, wins no
/// fewer seats, whatever the lots.
pub proof fn lemma_rounds_monotone<C: Criterion, D: Criterion>(
    first: C,
    second: D,
    votes: Seq<Votes>,
    more: Seq<Votes>,
    start: Seq<SeatState>,
    pool: nat,
    lots: Seq<int>,
    more_lots: Seq<int>,
    a: int,
)
    requires
        raised(votes, more, a),
        criteria_follow(first, votes, second, more, a),
        votes.len() == start.len(),
        fresh(start),
        lots_fit(first, votes, start, pool, lots),
        lots_fit(second, more, start, pool, more_lots),
    ensures
        rounds(second, more, start, pool, more_lots).ledger[a].held >= rounds(
            first,
            votes,
            start,
            pool,
            lots,
        ).ledger[a].held,
{
    let then = rounds(first, votes, start, pool, lots);
    let now = rounds(second, more, start, pool, more_lots);
    lemma_rounds_keep(first, votes, start, pool, lots);
    lemma_rounds_keep(second, more, start, pool, more_lots);
    lemma_rounds_only_add(first, votes, start, pool, lots);
    lemma_rounds_only_add(second, more, start, pool, more_lots);
    lemma_fresh_ledger_is_empty(start);
    assert(start[a].within_capacity());
    if now.ledger[a].held < then.ledger[a].held {
        assert(then.ledger[a].within_capacity());
        assert(now.ledger[a].has_capacity());
        lemma_winner_is_rated(first, votes, start, pool, lots, a);
        lemma_fresh_is_abreast(more, start, a);
        lemma_rounds_abreast(second, more, start, pool, more_lots, a);
        let j = lemma_some_party_gained(then.ledger, now.ledger, a);
        assert(start[j].within_capacity());
        assert(now.ledger[j].within_capacity());
        assert(then.ledger[j].has_capacity());
        lemma_winner_is_rated(second, more, start, pool, more_lots, j);
        lemma_fresh_is_abreast(votes, start, j);
        lemma_rounds_abreast(first, votes, start, pool, lots, j);
        let ha = then.ledger[a].held as int;
        let hj = then.ledger[j].held as int;
        let ha2 = now.ledger[a].held as int;
        let hj2 = now.ledger[j].held as int;
        let va = votes[a].0 as int;
        let va2 = more[a].0 as int;
        let vj = votes[j].0 as int;
        assert(then.ledger[a].held * votes[j].0 <= votes[a].0 * (then.ledger[j].held + 1));
        assert(now.ledger[j].held * more[a].0 <= more[j].0 * (now.ledger[a].held + 1));
        assert(false) by (nonlinear_arith)
            requires
                ha * vj <= va * (hj + 1),
                hj2 * va2 <= vj * (ha2 + 1),
                hj2 >= hj + 1,
                ha >= ha2 + 1,
                va2 >= va + 1,
                ha2 >= 0,
                hj >= 0,
                va >= 0,
                vj >= 0,
        ;
    }
}

/// Where the correction of the allocation for `more` takes a seat from
/// party `a`, which won as many seats in the rounds for `more` as in those
/// for `votes`, the correction of the allocation for `votes` takes a seat
/// from `a` too.
pub proof fn lemma_donor_then_and_now<C: Criterion, D: Criterion>(
    first: C,
    second: D,
    votes: Seq<Votes>,
    more: Seq<Votes>,
    start: Seq<SeatState>,
    pool: nat,
    lots: Seq<int>,
    donor: int,
    end: Seq<SeatState>,
    left: nat,
    more_lots: Seq<int>,
    a: int,
    w: int,
)
    requires
        raised(votes, more, a),
        criteria_follow(first, votes, second, more, a),
        votes.len() == start.len(),
        fresh(start),
        lots_fit(first, votes, start, pool, lots),
        lots_fit(second, more, start, pool, more_lots),
        ({
            let then = rounds(first, votes, start, pool, lots);
            let now = rounds(second, more, start, pool, more_lots);
            &&& settled_by(votes, then, donor, end, left)
            &&& claimant(more, now.ledger) == Some(w)
            &&& w != a
            &&& donors(now.ledger, now.before, w).contains(a)
            &&& now.ledger[a].held == then.ledger[a].held
        }),
    ensures
        end[a].held + 1 == rounds(first, votes, start, pool, lots).ledger[a].held,
{
    let then = rounds(first, votes, start, pool, lots);
    let now = rounds(second, more, start, pool, more_lots);
    let n = start.len() as int;
    lemma_rounds_keep(first, votes, start, pool, lots);
    lemma_rounds_keep(second, more, start, pool, more_lots);
    lemma_rounds_only_add(first, votes, start, pool, lots);
    lemma_rounds_only_add(second, more, start, pool, more_lots);
    lemma_fresh_ledger_is_empty(start);
    lemma_total_votes_raised(votes, more, a);
    let h = then.ledger[a].held as int;
    let va = votes[a].0 as int;
    let va2 = more[a].0 as int;

    // Party `a` won a seat in the last round for `more`.
    lemma_marked(gains(now.ledger, now.before, w));
    let at = choose|at: int|
        0 <= at < donors(now.ledger, now.before, w).len() && donors(now.ledger, now.before, w)[at]
            == a;
    assert(gains(now.ledger, now.before, w)[a]);
    assert(now.ledger[a].held > now.before[a].held);
    lemma_winner_is_rated(second, more, start, pool, more_lots, a);
    lemma_last_round_level(second, more, start, pool, more_lots, a);

    // No other party won more seats for `more` than for `votes`.
    assert forall|i: int| 0 <= i < n && i != a implies (#[trigger] now.ledger[i]).held
        <= then.ledger[i].held by {
        if now.ledger[i].held > then.ledger[i].held {
            assert(start[i].within_capacity());
            assert(now.ledger[i].within_capacity());
            assert(then.ledger[i].has_capacity());
            lemma_winner_is_rated(second, more, start, pool, more_lots, i);
            lemma_fresh_is_abreast(votes, start, i);
            lemma_rounds_abreast(first, votes, start, pool, lots, i);
            let hi = then.ledger[i].held as int;
            let hi2 = now.ledger[i].held as int;
            let vi = votes[i].0 as int;
            assert(then.ledger[a].held * votes[i].0 <= votes[a].0 * (then.ledger[i].held + 1));
            assert(now.ledger[i].held * more[a].0 <= more[i].0 * now.ledger[a].held);
            assert(false) by (nonlinear_arith)
                requires
                    h * vi <= va * (hi + 1),
                    hi2 * va2 <= vi * h,
                    hi2 >= hi + 1,
                    va2 >= va + 1,
                    hi >= 0,
                    va >= 0,
            ;
        }
    }
    // So every party won as many.
    lemma_others_hold_no_more(then.ledger, now.ledger, a, n);
    assert(now.ledger.take(n) == now.ledger);
    assert(then.ledger.take(n) == then.ledger);
    assert(total_held(then.ledger) == pool);
    assert forall|i: int| 0 <= i < n implies (#[trigger] then.ledger[i]).held
        == now.ledger[i].held by {
        if then.ledger[i].held != now.ledger[i].held {
            let j = lemma_some_party_gained(then.ledger, now.ledger, i);
        }
    }
    assert(then.ledger =~= now.ledger);

    assert(then.pool == 0);
    assert(correction_by(votes, then.ledger, then.before, donor, end));

    // The party with more than half of the votes claims a seat for `votes` as well.
    assert(is_claimant(more, now.ledger, w));
    lemma_claimant_has_majority(votes, then.ledger, w);
    assert(owed_majority(votes, then.ledger, w));

    // No party but `a` won a seat in the last round for `votes`.
    assert forall|i: int| 0 <= i < n && i != a implies !((#[trigger] then.ledger[i]).held
        > then.before[i].held) by {
        if then.ledger[i].held > then.before[i].held {
            lemma_winner_is_rated(first, votes, start, pool, lots, i);
            lemma_last_round_level(first, votes, start, pool, lots, i);
            let hi = then.ledger[i].held as int;
            let vi = votes[i].0 as int;
            assert(then.ledger[a].held * votes[i].0 <= votes[a].0 * then.ledger[i].held);
            assert(now.ledger[i].held * more[a].0 <= more[i].0 * now.ledger[a].held);
            assert(false) by (nonlinear_arith)
                requires
                    h * vi <= va * hi,
                    hi * va2 <= vi * h,
                    va2 >= va + 1,
                    hi >= 1,
                    va >= 0,
            ;
        }
    }
    let won = lemma_last_round(first, votes, start, pool, lots);
    lemma_leaders_have_capacity(first, votes, then.before);
    assert(round_leaders(first, votes, then.before).contains(won[0]));
    let place = choose|place: int|
        0 <= place < round_leaders(first, votes, then.before).len() && round_leaders(
            first,
            votes,
            then.before,
        )[place] == won[0];
    assert(0 <= round_leaders(first, votes, then.before)[place] < n);
    assert(won.contains(won[0]));
    assert(then.ledger[won[0]].held > then.before[won[0]].held);
    assert(won[0] == a);
    lemma_marked(gains(then.ledger, then.before, w));
    assert(gains(then.ledger, then.before, w)[a]);
    assert(donors(then.ledger, then.before, w).contains(a));
    assert(donors(then.ledger, then.before, w).contains(donor));
    let k = choose|k: int|
        0 <= k < donors(then.ledger, then.before, w).len() && donors(then.ledger, then.before, w)[k]
            == donor;
    assert(gains(then.ledger, then.before, w)[donor]);
    assert(donor == a);
}

/// More votes cost no seats, where the criteria for the one and the other
/// votes go together.
pub proof fn lemma_more_votes<C: Criterion, D: Criterion>(
    first: C,
    second: D,
    votes: Seq<Votes>,
    more: Seq<Votes>,
    start: Seq<SeatState>,
    pool: nat,
    lots: Seq<int>,
    donor: int,
    end: Seq<SeatState>,
    left: nat,
    more_lots: Seq<int>,
    more_donor: int,
    more_end: Seq<SeatState>,
    more_left: nat,
    a: int,
)
    requires
        raised(votes, more, a),
        criteria_follow(first, votes, second, more, a),
        votes.len() == start.len(),
        fresh(start),
        allocation_by_lots(first, votes, start, pool, lots, donor, end, left),
        allocation_by_lots(second, more, start, pool, more_lots, more_donor, more_end, more_left),
    ensures
        more_end[a].held >= end[a].held,
{
    let then = rounds(first, votes, start, pool, lots);
    let now = rounds(second, more, start, pool, more_lots);
    lemma_rounds_monotone(first, second, votes, more, start, pool, lots, more_lots, a);
    lemma_rounds_keep(first, votes, start, pool, lots);
    lemma_rounds_keep(second, more, start, pool, more_lots);
    lemma_rounds_only_add(first, votes, start, pool, lots);
    lemma_rounds_only_add(second, more, start, pool, more_lots);
    lemma_fresh_ledger_is_empty(start);
    lemma_total_votes_raised(votes, more, a);
    lemma_marked(gains(then.ledger, then.before, a));
    let taken = match claimant(more, now.ledger) {
        Some(w) => w != a && donors(now.ledger, now.before, w).len() > 0 && more_donor == a,
        None => false,
    };
    if taken {
        let w = claimant(more, now.ledger).unwrap();
        assert(is_claimant(more, now.ledger, w));
        lemma_claimant_has_majority(votes, then.ledger, w);
        assert(end[a].held <= then.ledger[a].held) by {
            if claimant(votes, then.ledger) == Some(w) {
                assert(is_claimant(votes, then.ledger, w));
            }
            if claimant(votes, then.ledger) == Some(w) && donors(then.ledger, then.before, w).len()
                > 0 {
                lemma_marked(gains(then.ledger, then.before, w));
                let k = choose|k: int|
                    0 <= k < donors(then.ledger, then.before, w).len() && donors(
                        then.ledger,
                        then.before,
                        w,
                    )[k] == donor;
                assert(gains(then.ledger, then.before, w)[donor]);
            }
        }
        lemma_marked(gains(now.ledger, now.before, w));
        let m = choose|m: int|
            0 <= m < donors(now.ledger, now.before, w).len() && donors(now.ledger, now.before, w)[m]
                == a;
        assert(gains(now.ledger, now.before, w)[a]);
        assert(more_end[a].held + 1 == now.ledger[a].held);
        if now.ledger[a].held == then.ledger[a].held {
            lemma_donor_then_and_now(
                first,
                second,
                votes,
                more,
                start,
                pool,
                lots,
                donor,
                end,
                left,
                more_lots,
                a,
                w,
            );
        }
    } else {
        assert(more_end[a].held >= now.ledger[a].held) by {
            if let Some(w) = claimant(more, now.ledger) {
                assert(is_claimant(more, now.ledger, w));
                if donors(now.ledger, now.before, w).len() > 0 {
                    lemma_marked(gains(now.ledger, now.before, w));
                    let m = choose|m: int|
                        0 <= m < donors(now.ledger, now.before, w).len() && donors(
                            now.ledger,
                            now.before,
                            w,
                        )[m] == more_donor;
                    assert(gains(now.ledger, now.before, w)[more_donor]);
                }
            }
        }
        if end[a].held > then.ledger[a].held {
            // Party `a` received the seat of the correction for `votes`.
            let winner = claimant(votes, then.ledger).unwrap();
            assert(is_claimant(votes, then.ledger, winner));
            if donors(then.ledger, then.before, winner).len() > 0 {
                lemma_marked(gains(then.ledger, then.before, winner));
                let k = choose|k: int|
                    0 <= k < donors(then.ledger, then.before, winner).len() && donors(
                        then.ledger,
                        then.before,
                        winner,
                    )[k] == donor;
                assert(gains(then.ledger, then.before, winner)[donor]);
                lemma_winner_is_rated(first, votes, start, pool, lots, donor);
            }
            assert(winner == a);
            assert(end[a].held == then.ledger[a].held + 1);
            assert(pool > 0);
            if now.ledger[a].held == then.ledger[a].held {
                assert(now.ledger[a].has_capacity());
                lemma_claimant_has_majority(more, now.ledger, a);
                if always_rated(second, more[a]) {
                    lemma_rounds_by_average_settle(second, more, start, pool, more_lots, a);
                    assert(total_held(now.ledger) == pool);
                    assert(2 * now.ledger[a].held <= total_held(now.ledger));
                } else {
                    // The rounds for `more` pass the party by, so it holds no seat
                    // and claims one: from a donor, or else from the pool.
                    assert(donors(then.ledger, then.before, winner).len() == 0);
                    lemma_unrated_wins_nothing(second, more, start, pool, more_lots, a);
                    assert(owed_majority(more, now.ledger, a));
                    if now.pool == 0 && donors(now.ledger, now.before, a).len() == 0 {
                        let won = lemma_last_round(second, more, start, pool, more_lots);
                        lemma_leaders_have_capacity(second, more, now.before);
                        assert(round_leaders(second, more, now.before).contains(won[0]));
                        let place = choose|place: int|
                            0 <= place < round_leaders(second, more, now.before).len()
                                && round_leaders(second, more, now.before)[place] == won[0];
                        assert(0 <= round_leaders(second, more, now.before)[place] < start.len());
                        assert(won.contains(won[0]));
                        assert(now.ledger[won[0]].held > now.before[won[0]].held);
                        assert(gains(now.ledger, now.before, a)[won[0]]);
                        lemma_marked(gains(now.ledger, now.before, a));
                        assert(donors(now.ledger, now.before, a).contains(won[0]));
                        assert(false);
                    }
                }
                if donors(now.ledger, now.before, a).len() > 0 {
                    lemma_marked(gains(now.ledger, now.before, a));
                    let m = choose|m: int|
                        0 <= m < donors(now.ledger, now.before, a).len() && donors(
                            now.ledger,
                            now.before,
                            a,
                        )[m] == more_donor;
                    assert(gains(now.ledger, now.before, a)[more_donor]);
                }
            }
        }
    }
}

/// Monotonicity in a body that is allocated by largest averages: from a
/// ledger without seats, a party that has more votes, all else being the
/// same, ends with no fewer seats, whatever the lots.
pub proof fn law_more_votes_by_averages(
    votes: Seq<Votes>,
    more: Seq<Votes>,
    start: Seq<SeatState>,
    pool: nat,
    end: Seq<SeatState>,
    left: nat,
    more_end: Seq<SeatState>,
    more_left: nat,
    a: int,
)
    requires
        raised(votes, more, a),
        votes.len() == start.len(),
        fresh(start),
        allocation_of(Strategy::LargestAverages, votes, start, pool, end, left),
        allocation_of(Strategy::LargestAverages, more, start, pool, more_end, more_left),
    ensures
        more_end[a].held >= end[a].held,
{
    let method = Strategy::LargestAverages;
    let drawn = law_allocation_has_lots(method, votes, start, pool, end, left);
    let more_drawn = law_allocation_has_lots(method, more, start, pool, more_end, more_left);
    assert(criteria_follow(method, votes, method, more, a));
    lemma_more_votes(
        method,
        method,
        votes,
        more,
        start,
        pool,
        drawn.0,
        drawn.1,
        end,
        left,
        more_drawn.0,
        more_drawn.1,
        more_end,
        more_left,
        a,
    );
}

/// Monotonicity in a national election: from a ledger without seats, a
/// party that has more votes, all else being the same, ends with no fewer
/// seats, whatever the lots.
pub proof fn law_more_votes_national(
    votes: Seq<Votes>,
    more: Seq<Votes>,
    start: Seq<SeatState>,
    pool: nat,
    end: Seq<SeatState>,
    left: nat,
    more_end: Seq<SeatState>,
    more_left: nat,
    a: int,
)
    requires
        raised(votes, more, a),
        votes.len() == start.len(),
        fresh(start),
        total_votes(more) <= Count::MAX,
        pool <= Count::MAX,
        allocation_of(by_threshold(votes, pool), votes, start, pool, end, left),
        allocation_of(by_threshold(more, pool), more, start, pool, more_end, more_left),
    ensures
        more_end[a].held >= end[a].held,
{
    let first = by_threshold(votes, pool);
    let second = by_threshold(more, pool);
    let drawn = law_allocation_has_lots(first, votes, start, pool, end, left);
    let more_drawn = law_allocation_has_lots(second, more, start, pool, more_end, more_left);
    lemma_total_votes_raised(votes, more, a);
    lemma_votes_within_total(votes, a);
    let cast = total_votes(votes) as int;
    let more_cast = total_votes(more) as int;
    let body = pool as int;
    let va = votes[a].0 as int;
    let va2 = more[a].0 as int;
    let any = SeatState { held: 0, capacity: None };
    if pool == 0 {
        let then = rounds(first, votes, start, pool, drawn.0);
        if let Some(w) = claimant(votes, then.ledger) {
            lemma_no_gain_no_donor(then.ledger, w);
        }
        let now = rounds(second, more, start, pool, more_drawn.0);
        if let Some(w) = claimant(more, now.ledger) {
            lemma_no_gain_no_donor(now.ledger, w);
        }
    } else {
        assert(criteria_follow(first, votes, second, more, a)) by {
            if always_rated(first, votes[a]) {
                assert(first.quality(votes[a], any) is Some);
                assert(va2 * body >= more_cast) by (nonlinear_arith)
                    requires
                        va * body >= cast,
                        more_cast - va2 == cast - va,
                        va2 > va,
                        body >= 1,
                ;
            }
            if 2 * votes[a].0 > total_votes(votes) && exists|j: int|
                0 <= j < votes.len() && j != a && always_rated(first, #[trigger] votes[j]) {
                let j = choose|j: int|
                    0 <= j < votes.len() && j != a && always_rated(first, #[trigger] votes[j]);
                assert(first.quality(votes[j], any) is Some);
                if j < a {
                    lemma_two_within_total(votes, j, a);
                } else {
                    lemma_two_within_total(votes, a, j);
                }
                let vj = votes[j].0 as int;
                assert(va2 * body >= more_cast) by (nonlinear_arith)
                    requires
                        vj * body >= cast,
                        va + vj <= cast,
                        2 * va > cast,
                        more_cast - va2 == cast - va,
                        va2 > va,
                        body >= 1,
                        vj >= 0,
                ;
            }
            assert forall|i: int|
                0 <= i < more.len() && i != a && always_rated(
                    second,
                    #[trigger] more[i],
                ) implies always_rated(first, votes[i]) by {
                assert(second.quality(more[i], any) is Some);
            }
        }
        lemma_more_votes(
            first,
            second,
            votes,
            more,
            start,
            pool,
            drawn.0,
            drawn.1,
            end,
            left,
            more_drawn.0,
            more_drawn.1,
            more_end,
            more_left,
            a,
        );
    }
}

} // verus!

//! The allocation: rounds until the pool is empty or no party can take a
//! seat, then the correction for an absolute majority.

use vstd::prelude::*;
use crate::criterion::{always_rated, Criterion, never_rated};
use crate::data::{Count, Seats, SeatState, Votes};
use crate::ledger::{
    award, in_order, ledger, lemma_held_within_total, lemma_marked, lemma_total_held_award,
    lemma_total_held_update, places, same_capacities, total_held, total_votes,
};
use crate::lottery::{drawn_from, lemma_drawn_apart, Lottery};
use crate::majority::{
    absolute_majority_check, claimant, claimant_of, corrected, correction_of, donors, donors_of,
    gains, is_claimant, lemma_correction_keeps, lemma_no_gain_no_donor,
};
use crate::round::{allocate_single_step, lemma_leaders_have_capacity, qualities, round_leaders};

verus! {

/// Where the rounds of an allocation end: the ledger, the seats left in the
/// pool, and the ledger as it stood ahead of the last round.
pub struct Tally {
    pub ledger: Seq<SeatState>,
    pub pool: nat,
    pub before: Seq<SeatState>,
}

/// The rounds of an allocation, from `ledger` and a pool of `pool` seats.
/// While the leaders of a round are fewer than the seats of the pool, each
/// of them receives one and another round follows. The rounds end when the
/// pool is empty, when no party leads, or with the round whose leaders
/// take what is left: all of them a seat where the pool has one for each,
/// else the parties `lots` that the lottery drew among them.
pub open spec fn rounds<C: Criterion>(
    criterion: C,
    votes: Seq<Votes>,
    ledger: Seq<SeatState>,
    pool: nat,
    lots: Seq<int>,
) -> Tally
    decreases pool,
{
    let tied = round_leaders(criterion, votes, ledger);
    if pool == 0 || tied.len() == 0 {
        Tally { ledger, pool, before: ledger }
    } else if tied.len() < pool {
        rounds(criterion, votes, award(ledger, tied), (pool - tied.len()) as nat, lots)
    } else if tied.len() == pool {
        Tally { ledger: award(ledger, tied), pool: 0, before: ledger }
    } else {
        Tally { ledger: award(ledger, lots), pool: 0, before: ledger }
    }
}

/// `lots` is what the lottery may draw in the rounds from `ledger`: where a
/// round has more leaders than the pool has seats, as many of its leaders
/// as the pool has seats, none of them twice.
pub open spec fn lots_fit<C: Criterion>(
    criterion: C,
    votes: Seq<Votes>,
    ledger: Seq<SeatState>,
    pool: nat,
    lots: Seq<int>,
) -> bool
    decreases pool,
{
    let tied = round_leaders(criterion, votes, ledger);
    if pool == 0 || tied.len() == 0 {
        true
    } else if tied.len() < pool {
        lots_fit(criterion, votes, award(ledger, tied), (pool - tied.len()) as nat, lots)
    } else if tied.len() == pool {
        true
    } else {
        drawn_from(lots, tied, pool)
    }
}

/// What follows the rounds: the correction for an absolute majority. The
/// claimant receives a seat from a donor of the last round. Where the rounds
/// ended for want of a party that could take a seat, so that no party won
/// in the last round, the claimant receives one of the seats left in the
/// pool. Where neither a donor nor a seat is left, nothing changes.
pub open spec fn settled(votes: Seq<Votes>, tally: Tally, end: Seq<SeatState>, left: nat) -> bool {
    if takes_from_pool(votes, tally) {
        let winner = claimant(votes, tally.ledger).unwrap();
        end == tally.ledger.update(winner, tally.ledger[winner].gain()) && left + 1 == tally.pool
    } else {
        correction_of(votes, tally.ledger, tally.before, end) && left == tally.pool
    }
}

/// There is a claimant, no donor, and a seat left in the pool.
pub open spec fn takes_from_pool(votes: Seq<Votes>, tally: Tally) -> bool {
    match claimant(votes, tally.ledger) {
        Some(winner) => donors(tally.ledger, tally.before, winner).len() == 0 && tally.pool > 0,
        None => false,
    }
}

/// An allocation by `criterion` takes the ledger `start` and a pool of
/// `pool` seats to the ledger `end` and a pool of `left` seats: the rounds,
/// for some lots that the lottery may draw, and then the correction for an
/// absolute majority.
pub open spec fn allocation_of<C: Criterion>(
    criterion: C,
    votes: Seq<Votes>,
    start: Seq<SeatState>,
    pool: nat,
    end: Seq<SeatState>,
    left: nat,
) -> bool {
    exists|lots: Seq<int>|
        {
            let tally = #[trigger] rounds(criterion, votes, start, pool, lots);
            &&& lots_fit(criterion, votes, start, pool, lots)
            &&& settled(votes, tally, end, left)
        }
}

/// What follows the rounds keeps what the ledger and the pool hold
/// together, changes no capacity and keeps every party within its own.
pub proof fn lemma_settled_keeps(votes: Seq<Votes>, tally: Tally, end: Seq<SeatState>, left: nat)
    requires
        settled(votes, tally, end, left),
        tally.before.len() == tally.ledger.len(),
    ensures
        total_held(end) + left == total_held(tally.ledger) + tally.pool,
        left <= tally.pool,
        same_capacities(tally.ledger, end),
        in_order(tally.ledger) ==> in_order(end),
        forall|i: int|
            0 <= i < end.len() ==> (#[trigger] end[i]).held >= tally.ledger[i].held || (end[i].held
                + 1 == tally.ledger[i].held && tally.before[i].held < tally.ledger[i].held),
{
    if takes_from_pool(votes, tally) {
        let winner = claimant(votes, tally.ledger).unwrap();
        assert(is_claimant(votes, tally.ledger, winner));
        lemma_total_held_update(tally.ledger, winner, tally.ledger[winner].gain());
        if in_order(tally.ledger) {
            assert forall|i: int| 0 <= i < end.len() implies (#[trigger] end[i]).within_capacity() by {
                assert(tally.ledger[i].within_capacity());
            }
        }
    } else {
        lemma_correction_keeps(votes, tally.ledger, tally.before, end);
        if let Some(winner) = claimant(votes, tally.ledger) {
            if donors(tally.ledger, tally.before, winner).len() > 0 {
                let donor = choose|donor: int|
                    donors(tally.ledger, tally.before, winner).contains(donor) && end
                        == #[trigger] corrected(tally.ledger, winner, donor);
                lemma_marked(gains(tally.ledger, tally.before, winner));
                let k = choose|k: int|
                    0 <= k < donors(tally.ledger, tally.before, winner).len() && donors(
                        tally.ledger,
                        tally.before,
                        winner,
                    )[k] == donor;
                assert(gains(tally.ledger, tally.before, winner)[donor]);
            }
        }
    }
}

/// Seats are left over in `ledger`: no party has a quality, but for a party
/// with more than half of the votes, to which the correction may have
/// given a seat that the criterion had none for.
pub open spec fn leftover<C: Criterion>(criterion: C, votes: Seq<Votes>, ledger: Seq<SeatState>) -> bool {
    forall|i: int|
        0 <= i < ledger.len() ==> (#[trigger] qualities(criterion, votes, ledger)[i]) is None || 2
            * votes[i].0 > total_votes(votes)
}

/// One round keeps what the ledger and the pool hold together, and keeps
/// every party within its capacity.
pub proof fn lemma_round_keeps<C: Criterion>(
    criterion: C,
    votes: Seq<Votes>,
    ledger: Seq<SeatState>,
    pool: nat,
    drawn: Seq<int>,
)
    requires
        drawn_from(drawn, round_leaders(criterion, votes, ledger), pool),
    ensures
        drawn.len() <= pool,
        drawn.len() <= round_leaders(criterion, votes, ledger).len(),
        round_leaders(criterion, votes, ledger).len() <= pool ==> drawn == round_leaders(
            criterion,
            votes,
            ledger,
        ),
        round_leaders(criterion, votes, ledger).len() > pool ==> drawn.len() == pool,
        total_held(award(ledger, drawn)) == total_held(ledger) + drawn.len(),
        same_capacities(ledger, award(ledger, drawn)),
        in_order(ledger) ==> in_order(award(ledger, drawn)),
{
    let tied = round_leaders(criterion, votes, ledger);
    lemma_leaders_have_capacity(criterion, votes, ledger);
    lemma_drawn_apart(drawn, tied, pool);
    assert forall|k: int| 0 <= k < drawn.len() implies 0 <= (#[trigger] drawn[k]) < ledger.len()
        && ledger[drawn[k]].has_capacity() by {
        let at = choose|at: int| 0 <= at < tied.len() && tied[at] == drawn[k];
    }
    lemma_total_held_award(ledger, drawn);
    let after = award(ledger, drawn);
    if in_order(ledger) {
        assert forall|i: int| 0 <= i < after.len() implies (#[trigger] after[i]).within_capacity() by {
            assert(ledger[i].within_capacity());
            if drawn.contains(i) {
                let k = choose|k: int| 0 <= k < drawn.len() && drawn[k] == i;
            }
        }
    }
}

/// The rounds keep what the ledger and the pool hold together, change no
/// capacity and keep every party within its own. Seats are left in the pool
/// only where no party can take one.
pub proof fn lemma_rounds_keep<C: Criterion>(
    criterion: C,
    votes: Seq<Votes>,
    ledger: Seq<SeatState>,
    pool: nat,
    lots: Seq<int>,
)
    requires
        lots_fit(criterion, votes, ledger, pool, lots),
    ensures
        ({
            let tally = rounds(criterion, votes, ledger, pool, lots);
            &&& total_held(tally.ledger) + tally.pool == total_held(ledger) + pool
            &&& tally.pool <= pool
            &&& same_capacities(ledger, tally.ledger)
            &&& same_capacities(ledger, tally.before)
            &&& in_order(ledger) ==> in_order(tally.ledger)
            &&& tally.pool > 0 ==> round_leaders(criterion, votes, tally.ledger).len() == 0
                && tally.before == tally.ledger
        }),
    decreases pool,
{
    let tied = round_leaders(criterion, votes, ledger);
    if pool == 0 || tied.len() == 0 {
    } else if tied.len() < pool {
        lemma_round_keeps(criterion, votes, ledger, pool, tied);
        lemma_rounds_keep(criterion, votes, award(ledger, tied), (pool - tied.len()) as nat, lots);
    } else if tied.len() == pool {
        lemma_round_keeps(criterion, votes, ledger, pool, tied);
    } else {
        lemma_round_keeps(criterion, votes, ledger, pool, lots);
    }
}

/// The rounds never take a seat from a party.
pub proof fn lemma_rounds_only_add<C: Criterion>(
    criterion: C,
    votes: Seq<Votes>,
    ledger: Seq<SeatState>,
    pool: nat,
    lots: Seq<int>,
)
    ensures
        ({
            let tally = rounds(criterion, votes, ledger, pool, lots);
            &&& tally.ledger.len() == ledger.len()
            &&& tally.before.len() == ledger.len()
            &&& forall|i: int|
                0 <= i < ledger.len() ==> (#[trigger] tally.ledger[i]).held >= ledger[i].held
                    && tally.ledger[i].capacity == ledger[i].capacity
            &&& forall|i: int|
                0 <= i < ledger.len() ==> ledger[i].held <= (#[trigger] tally.before[i]).held
                    <= tally.ledger[i].held && tally.before[i].capacity == ledger[i].capacity
        }),
    decreases pool,
{
    let tied = round_leaders(criterion, votes, ledger);
    if pool == 0 || tied.len() == 0 {
    } else if tied.len() < pool {
        lemma_rounds_only_add(criterion, votes, award(ledger, tied), (pool - tied.len()) as nat, lots);
        let tally = rounds(criterion, votes, ledger, pool, lots);
        assert forall|i: int| 0 <= i < ledger.len() implies (#[trigger] tally.ledger[i]).held
            >= ledger[i].held && tally.ledger[i].capacity == ledger[i].capacity by {
            assert(award(ledger, tied)[i].held >= ledger[i].held);
        }
        assert forall|i: int| 0 <= i < ledger.len() implies ledger[i].held <= (
        #[trigger] tally.before[i]).held <= tally.ledger[i].held && tally.before[i].capacity
            == ledger[i].capacity by {
            assert(award(ledger, tied)[i].capacity == ledger[i].capacity);
            assert(award(ledger, tied)[i].held >= ledger[i].held);
        }
    } else {
    }
}

/// A party that the criterion never rates wins no seat in any round.
pub proof fn lemma_unrated_wins_nothing<C: Criterion>(
    criterion: C,
    votes: Seq<Votes>,
    ledger: Seq<SeatState>,
    pool: nat,
    lots: Seq<int>,
    i: int,
)
    requires
        lots_fit(criterion, votes, ledger, pool, lots),
        0 <= i < ledger.len(),
        never_rated(criterion, votes[i]),
    ensures
        rounds(criterion, votes, ledger, pool, lots).ledger[i] == ledger[i],
        rounds(criterion, votes, ledger, pool, lots).before[i] == ledger[i],
    decreases pool,
{
    let tied = round_leaders(criterion, votes, ledger);
    lemma_leaders_have_capacity(criterion, votes, ledger);
    assert(!tied.contains(i)) by {
        if tied.contains(i) {
            let k = choose|k: int| 0 <= k < tied.len() && tied[k] == i;
            assert(qualities(criterion, votes, ledger)[i] is Some);
        }
    }
    if pool == 0 || tied.len() == 0 {
    } else if tied.len() < pool {
        lemma_unrated_wins_nothing(
            criterion,
            votes,
            award(ledger, tied),
            (pool - tied.len()) as nat,
            lots,
            i,
        );
    } else if tied.len() == pool {
    } else {
        lemma_drawn_apart(lots, tied, pool);
        assert(!lots.contains(i)) by {
            if lots.contains(i) {
                let k = choose|k: int| 0 <= k < lots.len() && lots[k] == i;
                assert(tied.contains(lots[k]));
            }
        }
    }
}

/// A party that can take no seat wins none in any round.
pub proof fn lemma_full_party_wins_nothing<C: Criterion>(
    criterion: C,
    votes: Seq<Votes>,
    ledger: Seq<SeatState>,
    pool: nat,
    lots: Seq<int>,
    i: int,
)
    requires
        lots_fit(criterion, votes, ledger, pool, lots),
        0 <= i < ledger.len(),
        !ledger[i].has_capacity(),
    ensures
        rounds(criterion, votes, ledger, pool, lots).ledger[i] == ledger[i],
        rounds(criterion, votes, ledger, pool, lots).before[i] == ledger[i],
    decreases pool,
{
    let tied = round_leaders(criterion, votes, ledger);
    lemma_leaders_have_capacity(criterion, votes, ledger);
    assert(!tied.contains(i)) by {
        if tied.contains(i) {
            let k = choose|k: int| 0 <= k < tied.len() && tied[k] == i;
        }
    }
    if pool == 0 || tied.len() == 0 {
    } else if tied.len() < pool {
        lemma_full_party_wins_nothing(
            criterion,
            votes,
            award(ledger, tied),
            (pool - tied.len()) as nat,
            lots,
            i,
        );
    } else if tied.len() == pool {
    } else {
        lemma_drawn_apart(lots, tied, pool);
        assert(!lots.contains(i)) by {
            if lots.contains(i) {
                let k = choose|k: int| 0 <= k < lots.len() && lots[k] == i;
                assert(tied.contains(lots[k]));
            }
        }
    }
}

/// A party that won a seat in the rounds is always rated, where the
/// criterion rates a party always or never.
pub proof fn lemma_winner_is_rated<C: Criterion>(
    criterion: C,
    votes: Seq<Votes>,
    start: Seq<SeatState>,
    pool: nat,
    lots: Seq<int>,
    i: int,
)
    requires
        votes.len() == start.len(),
        0 <= i < start.len(),
        lots_fit(criterion, votes, start, pool, lots),
        always_rated(criterion, votes[i]) || never_rated(criterion, votes[i]),
        rounds(criterion, votes, start, pool, lots).ledger[i].held > start[i].held,
    ensures
        always_rated(criterion, votes[i]),
{
    if never_rated(criterion, votes[i]) {
        lemma_unrated_wins_nothing(criterion, votes, start, pool, lots, i);
    }
}

/// The last round of rounds that empty the pool: the parties that won a
/// seat in it, none of them twice, each of them a leader of that round.
pub proof fn lemma_last_round<C: Criterion>(
    criterion: C,
    votes: Seq<Votes>,
    ledger: Seq<SeatState>,
    pool: nat,
    lots: Seq<int>,
) -> (won: Seq<int>)
    requires
        lots_fit(criterion, votes, ledger, pool, lots),
        pool > 0,
        rounds(criterion, votes, ledger, pool, lots).pool == 0,
    ensures
        ({
            let tally = rounds(criterion, votes, ledger, pool, lots);
            &&& won.len() > 0
            &&& won.no_duplicates()
            &&& forall|k: int|
                0 <= k < won.len() ==> round_leaders(criterion, votes, tally.before).contains(
                    #[trigger] won[k],
                )
            &&& tally.ledger == award(tally.before, won)
        }),
    decreases pool,
{
    let tied = round_leaders(criterion, votes, ledger);
    lemma_leaders_have_capacity(criterion, votes, ledger);
    if tied.len() < pool {
        lemma_last_round(criterion, votes, award(ledger, tied), (pool - tied.len()) as nat, lots)
    } else if tied.len() == pool {
        assert forall|k: int| 0 <= k < tied.len() implies tied.contains(#[trigger] tied[k]) by {}
        tied
    } else {
        lemma_drawn_apart(lots, tied, pool);
        lots
    }
}

/// A copy of the ledger as it stands.
fn snapshot(seats: &Vec<Seats>) -> (copy: Vec<Seats>)
    ensures
        copy@ == seats@,
{
    let mut copy: Vec<Seats> = Vec::new();
    let mut i: usize = 0;
    while i < seats.len()
        invariant
            i <= seats@.len(),
            copy@ == seats@.take(i as int),
        decreases seats@.len() - i,
    {
        copy.push(seats[i]);
        i = i + 1;
    }
    assert(seats@.take(i as int) == seats@);
    copy
}

/// Allocates the seats of the pool by `method`: round after round while the
/// pool holds a seat and some party can take one, then the correction for
/// an absolute majority, whichever way the rounds ended.
pub fn allocate_seats<C: Criterion>(
    lots: &mut Lottery,
    votes: &Vec<Votes>,
    seats: &mut Vec<Seats>,
    available_seats: &mut Seats,
    method: &C,
)
    requires
        votes@.len() == old(seats)@.len(),
        total_held(ledger(old(seats)@)) + old(available_seats)@.held < Count::MAX,
    ensures
        final(seats)@.len() == old(seats)@.len(),
        final(available_seats)@.capacity == old(available_seats)@.capacity,
        allocation_of(
            *method,
            votes@,
            ledger(old(seats)@),
            old(available_seats)@.held,
            ledger(final(seats)@),
            final(available_seats)@.held,
        ),
        total_held(ledger(final(seats)@)) + final(available_seats)@.held == total_held(
            ledger(old(seats)@),
        ) + old(available_seats)@.held,
        final(available_seats)@.held <= old(available_seats)@.held,
        same_capacities(ledger(old(seats)@), ledger(final(seats)@)),
        in_order(ledger(final(seats)@)),
        forall|i: int|
            0 <= i < old(seats)@.len() ==> (#[trigger] ledger(final(seats)@)[i]).held >= ledger(
                old(seats)@,
            )[i].held,
        final(available_seats)@.held > 0 ==> leftover(*method, votes@, ledger(final(seats)@)),
{
    let ghost start = ledger(seats@);
    let ghost pool = available_seats@.held;
    let ghost mut drawn: Seq<int> = Seq::empty();
    let mut last_winners = snapshot(seats);
    let mut exhausted = false;
    while available_seats.count() > 0 && !exhausted
        invariant
            votes@.len() == seats@.len(),
            seats@.len() == old(seats)@.len(),
            last_winners@.len() == seats@.len(),
            start == ledger(old(seats)@),
            pool == old(available_seats)@.held,
            available_seats@.capacity == old(available_seats)@.capacity,
            total_held(ledger(seats@)) + available_seats@.held == total_held(start) + pool,
            total_held(start) + pool < Count::MAX,
            available_seats@.held > 0 && !exhausted ==> forall|lots: Seq<int>|
                #[trigger] rounds(*method, votes@, start, pool, lots) == rounds(
                    *method,
                    votes@,
                    ledger(seats@),
                    available_seats@.held,
                    lots,
                ),
            available_seats@.held > 0 && !exhausted ==> forall|lots: Seq<int>|
                #[trigger] lots_fit(*method, votes@, start, pool, lots) == lots_fit(
                    *method,
                    votes@,
                    ledger(seats@),
                    available_seats@.held,
                    lots,
                ),
            available_seats@.held == 0 || exhausted ==> rounds(*method, votes@, start, pool, drawn)
                == (Tally {
                ledger: ledger(seats@),
                pool: available_seats@.held,
                before: ledger(last_winners@),
            }),
            available_seats@.held == 0 || exhausted ==> lots_fit(
                *method,
                votes@,
                start,
                pool,
                drawn,
            ),
            exhausted ==> forall|i: int|
                0 <= i < seats@.len() ==> (#[trigger] qualities(*method, votes@, ledger(seats@))[i])
                    is None,
        decreases available_seats@.held + if exhausted { 0nat } else { 1nat },
    {
        last_winners = snapshot(seats);
        let ghost now = ledger(seats@);
        let ghost left = available_seats@.held;
        let ghost tied = round_leaders(*method, votes@, now);
        if allocate_single_step(lots, votes, seats, available_seats, method).is_none() {
            proof {
                assert(rounds(*method, votes@, start, pool, drawn) == rounds(
                    *method,
                    votes@,
                    now,
                    left,
                    drawn,
                ));
                assert(lots_fit(*method, votes@, start, pool, drawn) == lots_fit(
                    *method,
                    votes@,
                    now,
                    left,
                    drawn,
                ));
            }
            exhausted = true;
        } else {
            proof {
                let won = choose|won: Seq<int>| #[trigger]
                    drawn_from(won, tied, left) && ledger(seats@) == award(now, won)
                        && available_seats@.held + won.len() == left;
                lemma_round_keeps(*method, votes@, now, left, won);
                if tied.len() > left {
                    drawn = won;
                }
                if available_seats@.held > 0 {
                    assert forall|lots: Seq<int>|
                        #[trigger] rounds(*method, votes@, start, pool, lots) == rounds(
                            *method,
                            votes@,
                            ledger(seats@),
                            available_seats@.held,
                            lots,
                        ) by {
                        assert(rounds(*method, votes@, start, pool, lots) == rounds(
                            *method,
                            votes@,
                            now,
                            left,
                            lots,
                        ));
                    }
                    assert forall|lots: Seq<int>|
                        #[trigger] lots_fit(*method, votes@, start, pool, lots) == lots_fit(
                            *method,
                            votes@,
                            ledger(seats@),
                            available_seats@.held,
                            lots,
                        ) by {
                        assert(lots_fit(*method, votes@, start, pool, lots) == lots_fit(
                            *method,
                            votes@,
                            now,
                            left,
                            lots,
                        ));
                    }
                } else {
                    assert(rounds(*method, votes@, start, pool, drawn) == rounds(
                        *method,
                        votes@,
                        now,
                        left,
                        drawn,
                    ));
                    assert(lots_fit(*method, votes@, start, pool, drawn) == lots_fit(
                        *method,
                        votes@,
                        now,
                        left,
                        drawn,
                    ));
                }
            }
        }
    }
    let ghost tally = rounds(*method, votes@, start, pool, drawn);
    proof {
        lemma_rounds_keep(*method, votes@, start, pool, drawn);
        lemma_rounds_only_add(*method, votes@, start, pool, drawn);
    }
    match claimant_of(votes, seats) {
        Some(winner) => {
            let gained = donors_of(seats, &last_winners, winner);
            assert(places(gained@).len() == gained@.len());
            if gained.len() > 0 {
                absolute_majority_check(lots, votes, seats, last_winners);
            } else if available_seats.count() > 0 {
                proof {
                    assert(is_claimant(votes@, tally.ledger, winner as int));
                    lemma_held_within_total(tally.ledger, winner as int);
                }
                let ghost held_before = seats@;
                seats[winner].transfer(available_seats);
                proof {
                    assert(ledger(seats@) =~= tally.ledger.update(
                        winner as int,
                        tally.ledger[winner as int].gain(),
                    ));
                }
            }
        },
        None => {},
    }
    proof {
        let end = ledger(seats@);
        assert(settled(votes@, tally, end, available_seats@.held));
        lemma_settled_keeps(votes@, tally, end, available_seats@.held);
        if available_seats@.held > 0 {
            assert forall|i: int| 0 <= i < end.len() implies (#[trigger] qualities(
                *method,
                votes@,
                end,
            )[i]) is None || 2 * votes@[i].0 > total_votes(votes@) by {
                assert(qualities(*method, votes@, tally.ledger)[i] is None);
                if end[i] != tally.ledger[i] {
                    let winner = claimant(votes@, tally.ledger).unwrap();
                    assert(is_claimant(votes@, tally.ledger, winner));
                    lemma_no_gain_no_donor(tally.ledger, winner);
                }
            }
        }
    }
}

} // verus!

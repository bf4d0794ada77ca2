//! The correction for an absolute majority.

use vstd::prelude::*;
use crate::data::{Count, Seats, SeatState, Votes};
use crate::ledger::{
    in_order, ledger, lemma_held_within_total, lemma_marked, lemma_marked_step,
    lemma_total_held_update, lemma_two_within_total, marked, places, same_capacities, total_held,
    total_votes,
};
use crate::lottery::{ballotted, lemma_drawn_apart, Lottery};

verus! {

/// Party `i` has more than half of the votes, holds no more than half of
/// the seats, and can take a seat.
pub open spec fn owed_majority(votes: Seq<Votes>, ledger: Seq<SeatState>, i: int) -> bool {
    &&& 0 <= i < ledger.len()
    &&& ledger[i].has_capacity()
    &&& 2 * votes[i].0 > total_votes(votes)
    &&& 2 * ledger[i].held <= total_held(ledger)
}

/// Party `w`, if it has more than half of the votes, holds more than half
/// of the seats or cannot take another.
pub open spec fn majority_served(votes: Seq<Votes>, ledger: Seq<SeatState>, w: int) -> bool {
    2 * votes[w].0 > total_votes(votes) ==> 2 * ledger[w].held > total_held(ledger)
        || !ledger[w].has_capacity()
}

/// Party `i` is the first that is owed a majority.
pub open spec fn is_claimant(votes: Seq<Votes>, ledger: Seq<SeatState>, i: int) -> bool {
    &&& owed_majority(votes, ledger, i)
    &&& forall|j: int| 0 <= j < i ==> !owed_majority(votes, ledger, j)
}

/// The first party that is owed a majority, if there is one.
pub open spec fn claimant(votes: Seq<Votes>, ledger: Seq<SeatState>) -> Option<int> {
    if exists|i: int| is_claimant(votes, ledger, i) {
        Some(choose|i: int| is_claimant(votes, ledger, i))
    } else {
        None
    }
}

/// The parties other than `winner` that hold more seats than they did
/// `before`, in the order of the ledger.
pub open spec fn donors(ledger: Seq<SeatState>, before: Seq<SeatState>, winner: int) -> Seq<int> {
    marked(gains(ledger, before, winner))
}

/// For each party, whether it is another than `winner` and holds more seats
/// than it did `before`.
pub open spec fn gains(ledger: Seq<SeatState>, before: Seq<SeatState>, winner: int) -> Seq<bool> {
    Seq::new(ledger.len(), |i: int| i != winner && ledger[i].held > before[i].held)
}

/// The ledger after `donor` gave one seat to `winner`.
pub open spec fn corrected(ledger: Seq<SeatState>, winner: int, donor: int) -> Seq<SeatState> {
    ledger.update(winner, ledger[winner].gain()).update(donor, ledger[donor].lose())
}

/// What the correction makes of `ledger`, where `before` is the ledger as
/// it stood ahead of the last round: one seat moves to the claimant from a
/// donor. Nothing changes where there is no claimant, nor where no party is
/// left to give.
pub open spec fn correction_of(
    votes: Seq<Votes>,
    ledger: Seq<SeatState>,
    before: Seq<SeatState>,
    after: Seq<SeatState>,
) -> bool {
    match claimant(votes, ledger) {
        Some(winner) => {
            if donors(ledger, before, winner).len() > 0 {
                exists|donor: int|
                    donors(ledger, before, winner).contains(donor) && after == #[trigger] corrected(
                        ledger,
                        winner,
                        donor,
                    )
            } else {
                after == ledger
            }
        },
        None => after == ledger,
    }
}

/// At most one party has more than half of the votes.
pub proof fn lemma_one_majority(votes: Seq<Votes>, i: int, j: int)
    requires
        0 <= i < votes.len(),
        0 <= j < votes.len(),
        2 * votes[i].0 > total_votes(votes),
        2 * votes[j].0 > total_votes(votes),
    ensures
        i == j,
{
    if i < j {
        lemma_two_within_total(votes, i, j);
    } else if j < i {
        lemma_two_within_total(votes, j, i);
    }
}

/// The party with more than half of the votes is the claimant where it is
/// owed a majority, and there is no claimant where it is not.
pub proof fn lemma_claimant_has_majority(votes: Seq<Votes>, ledger: Seq<SeatState>, w: int)
    requires
        votes.len() == ledger.len(),
        0 <= w < ledger.len(),
        2 * votes[w].0 > total_votes(votes),
    ensures
        claimant(votes, ledger) == if owed_majority(votes, ledger, w) {
            Some(w)
        } else {
            None
        },
{
    assert forall|i: int| owed_majority(votes, ledger, i) implies i == w by {
        lemma_one_majority(votes, i, w);
    }
    if owed_majority(votes, ledger, w) {
        assert(is_claimant(votes, ledger, w));
    }
}

/// A ledger that is set against itself shows no donor.
pub proof fn lemma_no_gain_no_donor(ledger: Seq<SeatState>, winner: int)
    ensures
        donors(ledger, ledger, winner).len() == 0,
{
    lemma_marked(gains(ledger, ledger, winner));
    if donors(ledger, ledger, winner).len() > 0 {
        let p = donors(ledger, ledger, winner)[0];
        assert(gains(ledger, ledger, winner)[p]);
    }
}

/// The correction keeps what the ledger holds, changes no capacity and
/// keeps every party within its own.
pub proof fn lemma_correction_keeps(
    votes: Seq<Votes>,
    ledger: Seq<SeatState>,
    before: Seq<SeatState>,
    after: Seq<SeatState>,
)
    requires
        correction_of(votes, ledger, before, after),
        before.len() == ledger.len(),
    ensures
        total_held(after) == total_held(ledger),
        same_capacities(ledger, after),
        in_order(ledger) ==> in_order(after),
{
    if let Some(winner) = claimant(votes, ledger) {
        if donors(ledger, before, winner).len() > 0 {
            let donor = choose|donor: int|
                donors(ledger, before, winner).contains(donor) && after == #[trigger] corrected(
                    ledger,
                    winner,
                    donor,
                );
            lemma_marked(gains(ledger, before, winner));
            let k = choose|k: int|
                0 <= k < donors(ledger, before, winner).len() && donors(ledger, before, winner)[k]
                    == donor;
            assert(gains(ledger, before, winner)[donor]);
            let raised = ledger.update(winner, ledger[winner].gain());
            lemma_total_held_update(ledger, winner, ledger[winner].gain());
            lemma_total_held_update(raised, donor, ledger[donor].lose());
            if in_order(ledger) {
                assert forall|i: int| 0 <= i < after.len() implies (#[trigger] after[i]).within_capacity() by {
                    assert(ledger[i].within_capacity());
                }
            }
        }
    }
}

/// The votes of all parties together.
pub fn count_votes(votes: &Vec<Votes>) -> (total: u128)
    ensures
        total == total_votes(votes@),
{
    let mut total: u128 = 0;
    let mut i: usize = 0;
    while i < votes.len()
        invariant
            i <= votes@.len(),
            total == total_votes(votes@.take(i as int)),
            total <= i * Count::MAX,
        decreases votes@.len() - i,
    {
        assert(votes@.take(i + 1).drop_last() == votes@.take(i as int));
        assert((i + 1) * Count::MAX <= usize::MAX * Count::MAX <= 0xffff_ffff_ffff_ffff
            * 0xffff_ffff_ffff_ffff) by (nonlinear_arith)
            requires
                i + 1 <= usize::MAX <= 0xffff_ffff_ffff_ffff,
                Count::MAX == 0xffff_ffff_ffff_ffff,
        ;
        total = total + votes[i].0 as u128;
        i = i + 1;
    }
    assert(votes@.take(i as int) == votes@);
    total
}

/// The seats that all entries hold together.
pub fn count_seats(seats: &Vec<Seats>) -> (total: u128)
    ensures
        total == total_held(ledger(seats@)),
        in_order(ledger(seats@)),
{
    let mut total: u128 = 0;
    let mut i: usize = 0;
    while i < seats.len()
        invariant
            i <= seats@.len(),
            total == total_held(ledger(seats@).take(i as int)),
            total <= i * Count::MAX,
            forall|j: int| 0 <= j < i ==> (#[trigger] ledger(seats@)[j]).within_capacity(),
        decreases seats@.len() - i,
    {
        assert(ledger(seats@).take(i + 1).drop_last() == ledger(seats@).take(i as int));
        assert((i + 1) * Count::MAX <= usize::MAX * Count::MAX <= 0xffff_ffff_ffff_ffff
            * 0xffff_ffff_ffff_ffff) by (nonlinear_arith)
            requires
                i + 1 <= usize::MAX <= 0xffff_ffff_ffff_ffff,
                Count::MAX == 0xffff_ffff_ffff_ffff,
        ;
        total = total + seats[i].count() as u128;
        i = i + 1;
    }
    assert(ledger(seats@).take(i as int) == ledger(seats@));
    total
}

/// The first party that is owed a majority, if there is one.
pub fn claimant_of(votes: &Vec<Votes>, seats: &Vec<Seats>) -> (first: Option<usize>)
    requires
        votes@.len() == seats@.len(),
    ensures
        match first {
            Some(w) => claimant(votes@, ledger(seats@)) == Some(w as int),
            None => claimant(votes@, ledger(seats@)).is_none(),
        },
        in_order(ledger(seats@)),
{
    let n = seats.len();
    let total_votes = count_votes(votes);
    let total_seats = count_seats(seats);
    let mut i: usize = 0;
    while i < n
        invariant
            i <= n,
            n == seats@.len(),
            n == votes@.len(),
            total_votes == crate::ledger::total_votes(votes@),
            total_seats == total_held(ledger(seats@)),
            in_order(ledger(seats@)),
            forall|j: int| 0 <= j < i ==> !owed_majority(votes@, ledger(seats@), j),
        decreases n - i,
    {
        if seats[i].has_candidates() && 2 * (votes[i].0 as u128) > total_votes && 2 * (
        seats[i].count() as u128) <= total_seats {
            assert(is_claimant(votes@, ledger(seats@), i as int));
            return Some(i);
        }
        i = i + 1;
    }
    None
}

/// The parties other than `winner` that hold more seats than they did in
/// `prev_seats`, in the order of the ledger.
pub fn donors_of(seats: &Vec<Seats>, prev_seats: &Vec<Seats>, winner: usize) -> (gained: Vec<usize>)
    requires
        prev_seats@.len() == seats@.len(),
    ensures
        places(gained@) == donors(ledger(seats@), ledger(prev_seats@), winner as int),
{
    let n = seats.len();
    let ghost flags = gains(ledger(seats@), ledger(prev_seats@), winner as int);
    let mut gained: Vec<usize> = Vec::new();
    let mut i: usize = 0;
    while i < n
        invariant
            i <= n,
            n == seats@.len(),
            n == prev_seats@.len(),
            flags == gains(ledger(seats@), ledger(prev_seats@), winner as int),
            places(gained@) == marked(flags.take(i as int)),
        decreases n - i,
    {
        proof {
            lemma_marked_step(flags, i as int);
        }
        if i != winner && seats[i].exceeds(&prev_seats[i]) {
            proof {
                assert(places(gained@.push(i)) == places(gained@).push(i as int));
            }
            gained.push(i);
        }
        i = i + 1;
    }
    assert(flags.take(n as int) == flags);
    gained
}

/// Sees to it that a party with more than half of the votes holds more than
/// half of the seats: the first such party that holds no more than half and
/// can take a seat receives one from a party that won a seat in the last
/// round, drawn by lot among those. `prev_seats` is the ledger as it stood
/// ahead of that round. Where a party is owed a seat, another party must
/// have won one in the last round; without a party that is owed a seat the
/// ledger stays as it is.
pub fn absolute_majority_check(
    lots: &mut Lottery,
    votes: &Vec<Votes>,
    seats: &mut Vec<Seats>,
    prev_seats: Vec<Seats>,
)
    requires
        votes@.len() == old(seats)@.len(),
        prev_seats@.len() == old(seats)@.len(),
        total_held(ledger(old(seats)@)) <= Count::MAX,
        claimant(votes@, ledger(old(seats)@)) matches Some(winner) ==> donors(
            ledger(old(seats)@),
            ledger(prev_seats@),
            winner,
        ).len() > 0,
    ensures
        final(seats)@.len() == old(seats)@.len(),
        correction_of(votes@, ledger(old(seats)@), ledger(prev_seats@), ledger(final(seats)@)),
        in_order(ledger(final(seats)@)),
{
    let ghost start = ledger(seats@);
    let ghost before = ledger(prev_seats@);
    let winner = match claimant_of(votes, seats) {
        Some(w) => w,
        None => {
            return ;
        },
    };
    let gained = donors_of(seats, &prev_seats, winner);
    assert(places(gained@).len() == gained@.len());
    let ghost gained_at = gained@;
    let drawn = ballotted(lots, gained, 1);
    proof {
        lemma_marked(gains(start, before, winner as int));
        assert(gained_at.no_duplicates()) by {
            assert forall|j: int, k: int|
                0 <= j < gained_at.len() && 0 <= k < gained_at.len() && j != k implies gained_at[j]
                != gained_at[k] by {
                assert(places(gained_at)[j] != places(gained_at)[k]);
            }
        }
        lemma_drawn_apart(drawn@, gained_at, 1);
        assert(gained_at.contains(drawn@[0]));
        let at = choose|at: int| 0 <= at < gained_at.len() && gained_at[at] == drawn@[0];
        assert(places(gained_at)[at] == drawn@[0] as int);
        assert(is_claimant(votes@, start, winner as int));
        lemma_held_within_total(start, winner as int);
        lemma_held_within_total(
            start.update(winner as int, start[winner as int].lose()),
            drawn@[0] as int,
        );
        lemma_total_held_update(start, winner as int, start[winner as int].lose());
    }
    let donor = drawn[0];
    let mut correction = Seats::filled(1);
    assert(seats@[winner as int]@ == start[winner as int]);
    assert(seats@[donor as int]@ == start[donor as int]);
    seats[winner].transfer(&mut correction);
    correction.transfer(&mut seats[donor]);
    proof {
        assert(ledger(seats@) =~= corrected(start, winner as int, donor as int));
        assert(donors(start, before, winner as int).contains(donor as int));
        lemma_correction_keeps(votes@, start, before, ledger(seats@));
    }
}

} // verus!

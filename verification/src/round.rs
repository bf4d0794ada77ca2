//! One round of an allocation.

use vstd::prelude::*;
use crate::allocation::lemma_round_keeps;
use crate::criterion::Criterion;
use crate::data::{Count, Seats, SeatState, Votes};
use crate::fraction::{Fraction, lemma_at_least_transitive, rating, Ratio};
use crate::ledger::{
    award, in_order, ledger, lemma_award_push, lemma_held_within_total, lemma_marked,
    lemma_marked_step, marked, places, same_capacities, total_held,
};
use crate::lottery::{ballotted, drawn_from, lemma_drawn_apart, lemma_drawn_renamed, Lottery};

verus! {

/// The quality of party `i` in this round: that of the criterion, and none
/// for a party that can take no further seat.
pub open spec fn quality_at<C: Criterion>(
    criterion: C,
    votes: Seq<Votes>,
    ledger: Seq<SeatState>,
    i: int,
) -> Option<Ratio> {
    if ledger[i].has_capacity() {
        criterion.quality(votes[i], ledger[i])
    } else {
        None
    }
}

/// The qualities of all parties in this round.
pub open spec fn qualities<C: Criterion>(
    criterion: C,
    votes: Seq<Votes>,
    ledger: Seq<SeatState>,
) -> Seq<Option<Ratio>> {
    Seq::new(ledger.len(), |i: int| quality_at(criterion, votes, ledger, i))
}

/// Party `i` has a quality, and no party has a larger one.
pub open spec fn leads(qualities: Seq<Option<Ratio>>, i: int) -> bool {
    &&& 0 <= i < qualities.len()
    &&& qualities[i] is Some
    &&& forall|j: int|
        0 <= j < qualities.len() && (#[trigger] qualities[j]) is Some ==> qualities[i].unwrap().at_least(
            qualities[j].unwrap(),
        )
}

/// For each party, whether it leads.
pub open spec fn lead_flags(qualities: Seq<Option<Ratio>>) -> Seq<bool> {
    Seq::new(qualities.len(), |i: int| leads(qualities, i))
}

/// The parties that lead, in the order of the ledger.
pub open spec fn leaders(qualities: Seq<Option<Ratio>>) -> Seq<int> {
    marked(lead_flags(qualities))
}

/// The parties that lead a round of `criterion` on `ledger`.
pub open spec fn round_leaders<C: Criterion>(
    criterion: C,
    votes: Seq<Votes>,
    ledger: Seq<SeatState>,
) -> Seq<int> {
    leaders(qualities(criterion, votes, ledger))
}

/// What one round does to a ledger `before` and a pool of `pool` seats: the
/// leaders receive a seat each, or as many of them as lots were drawn for
/// where the pool has fewer seats than there are leaders.
pub open spec fn round_of<C: Criterion>(
    criterion: C,
    votes: Seq<Votes>,
    before: Seq<SeatState>,
    pool: nat,
    after: Seq<SeatState>,
    left: nat,
) -> bool {
    exists|drawn: Seq<int>| #[trigger]
        drawn_from(drawn, round_leaders(criterion, votes, before), pool) && after == award(
            before,
            drawn,
        ) && left + drawn.len() == pool
}

/// Those who lead hold a quality, so they can take a seat.
pub proof fn lemma_leaders_have_capacity<C: Criterion>(
    criterion: C,
    votes: Seq<Votes>,
    ledger: Seq<SeatState>,
)
    ensures
        round_leaders(criterion, votes, ledger).no_duplicates(),
        round_leaders(criterion, votes, ledger).len() <= ledger.len(),
        forall|k: int|
            0 <= k < round_leaders(criterion, votes, ledger).len() ==> {
                let p = #[trigger] round_leaders(criterion, votes, ledger)[k];
                0 <= p < ledger.len() && ledger[p].has_capacity() && leads(
                    qualities(criterion, votes, ledger),
                    p,
                )
            },
{
    let q = qualities(criterion, votes, ledger);
    lemma_marked(lead_flags(q));
}

/// The quotients that a vector of qualities stands for.
pub open spec fn ratings(found: Seq<Option<Fraction>>) -> Seq<Option<Ratio>> {
    Seq::new(found.len(), |i: int| rating(found[i]))
}

/// Every quality that is present has a denominator.
pub open spec fn all_proper(found: Seq<Option<Fraction>>) -> bool {
    forall|i: int| 0 <= i < found.len() ==> ((#[trigger] found[i]) matches Some(f) ==> f@.proper())
}

/// Among qualities of which one is present, some party leads.
pub proof fn lemma_some_party_leads(qualities: Seq<Option<Ratio>>, n: int) -> (p: int)
    requires
        0 <= n <= qualities.len(),
        forall|i: int|
            0 <= i < qualities.len() ==> ((#[trigger] qualities[i]) matches Some(q) ==> q.proper()),
        exists|i: int| 0 <= i < n && (#[trigger] qualities[i]) is Some,
    ensures
        0 <= p < n,
        qualities[p] is Some,
        forall|j: int|
            0 <= j < n && (#[trigger] qualities[j]) is Some ==> qualities[p].unwrap().at_least(
                qualities[j].unwrap(),
            ),
    decreases n,
{
    let last = n - 1;
    if exists|i: int| 0 <= i < last && (#[trigger] qualities[i]) is Some {
        let p = lemma_some_party_leads(qualities, last);
        match qualities[last] {
            Some(x) => {
                if qualities[p].unwrap().at_least(x) {
                    p
                } else {
                    assert forall|j: int|
                        0 <= j < n && (#[trigger] qualities[j]) is Some implies x.at_least(
                        qualities[j].unwrap(),
                    ) by {
                        if j < last {
                            lemma_at_least_transitive(x, qualities[p].unwrap(), qualities[j].unwrap());
                        }
                    }
                    last
                }
            },
            None => p,
        }
    } else {
        let i = choose|i: int| 0 <= i < n && (#[trigger] qualities[i]) is Some;
        assert(i == last);
        last
    }
}

/// Where no party leads, no party has a quality.
pub proof fn lemma_no_leader_no_quality(qualities: Seq<Option<Ratio>>)
    requires
        forall|i: int|
            0 <= i < qualities.len() ==> ((#[trigger] qualities[i]) matches Some(q) ==> q.proper()),
        leaders(qualities).len() == 0,
    ensures
        forall|i: int| 0 <= i < qualities.len() ==> (#[trigger] qualities[i]) is None,
{
    if exists|i: int| 0 <= i < qualities.len() && (#[trigger] qualities[i]) is Some {
        let p = lemma_some_party_leads(qualities, qualities.len() as int);
        assert(leads(qualities, p));
        lemma_marked(lead_flags(qualities));
        assert(lead_flags(qualities)[p]);
        assert(leaders(qualities).contains(p));
    }
}

/// Rates every party: by the criterion where the party can take a seat,
/// with no quality where it cannot.
pub fn rate_all<C: Criterion>(votes: &Vec<Votes>, seats: &Vec<Seats>, criterion: &C) -> (found: Vec<
    Option<Fraction>,
>)
    requires
        votes@.len() == seats@.len(),
        total_held(ledger(seats@)) < Count::MAX,
    ensures
        ratings(found@) == qualities(*criterion, votes@, ledger(seats@)),
        all_proper(found@),
        in_order(ledger(seats@)),
{
    let n = seats.len();
    let ghost rated = qualities(*criterion, votes@, ledger(seats@));
    let mut found: Vec<Option<Fraction>> = Vec::new();
    let mut i: usize = 0;
    while i < n
        invariant
            i <= n,
            n == seats@.len(),
            n == votes@.len(),
            total_held(ledger(seats@)) < Count::MAX,
            rated == qualities(*criterion, votes@, ledger(seats@)),
            found@.len() == i,
            forall|j: int| 0 <= j < i ==> rating(#[trigger] found@[j]) == rated[j],
            forall|j: int| 0 <= j < i ==> (#[trigger] ledger(seats@)[j]).within_capacity(),
            all_proper(found@),
        decreases n - i,
    {
        proof {
            lemma_held_within_total(ledger(seats@), i as int);
        }
        let quality = if seats[i].has_candidates() {
            criterion.rate(votes[i], seats[i])
        } else {
            None
        };
        found.push(quality);
        i = i + 1;
    }
    assert(ratings(found@) =~= rated);
    found
}

/// The first party with the largest quality, and that quality, if any
/// party has a quality.
pub fn largest(found: &Vec<Option<Fraction>>) -> (best: Option<(usize, Fraction)>)
    requires
        all_proper(found@),
    ensures
        match best {
            Some(b) => b.0 < found@.len() && found@[b.0 as int] == Some(b.1) && leads(
                ratings(found@),
                b.0 as int,
            ),
            None => forall|i: int| 0 <= i < found@.len() ==> (#[trigger] found@[i]) is None,
        },
{
    let n = found.len();
    let mut best: Option<(usize, Fraction)> = None;
    let mut i: usize = 0;
    while i < n
        invariant
            i <= n,
            n == found@.len(),
            all_proper(found@),
            best is None ==> forall|j: int| 0 <= j < i ==> (#[trigger] found@[j]) is None,
            best matches Some(b) ==> {
                &&& b.0 < i
                &&& found@[b.0 as int] == Some(b.1)
                &&& forall|j: int|
                    0 <= j < i ==> ((#[trigger] found@[j]) matches Some(f) ==> b.1@.at_least(f@))
            },
        decreases n - i,
    {
        match found[i] {
            Some(f) => {
                let better = match best {
                    Some(b) => !b.1.is_at_least(&f),
                    None => true,
                };
                if better {
                    proof {
                        if let Some(b) = best {
                            assert forall|j: int| 0 <= j < i implies ((#[trigger] found@[j]) matches Some(
                                g,
                            ) ==> f@.at_least(g@)) by {
                                if let Some(g) = found@[j] {
                                    lemma_at_least_transitive(f@, b.1@, g@);
                                }
                            }
                        }
                    }
                    best = Some((i, f));
                }
            },
            None => {},
        }
        i = i + 1;
    }
    match best {
        Some(b) => {
            proof {
                let rated = ratings(found@);
                assert forall|j: int| 0 <= j < rated.len() && (#[trigger] rated[j]) is Some implies rated[b.0 as int].unwrap().at_least(
                    rated[j].unwrap(),
                ) by {
                    assert(found@[j] is Some);
                }
            }
            Some(b)
        },
        None => None,
    }
}

/// The parties with the largest quality, in the order of the ledger.
pub fn leaders_of(found: &Vec<Option<Fraction>>) -> (tied: Vec<usize>)
    requires
        all_proper(found@),
    ensures
        places(tied@) == leaders(ratings(found@)),
{
    let n = found.len();
    let ghost rated = ratings(found@);
    let ghost flags = lead_flags(rated);
    let mut tied: Vec<usize> = Vec::new();
    let (peak, top) = match largest(found) {
        Some(b) => b,
        None => {
            proof {
                lemma_marked(flags);
                if marked(flags).len() > 0 {
                    let p = marked(flags)[0];
                    assert(flags[p]);
                    assert(found@[p] is None);
                }
                assert(places(tied@) =~= leaders(rated));
            }
            return tied;
        },
    };
    let mut i: usize = 0;
    while i < n
        invariant
            i <= n,
            n == found@.len(),
            all_proper(found@),
            rated == ratings(found@),
            flags == lead_flags(rated),
            peak < n,
            found@[peak as int] == Some(top),
            leads(rated, peak as int),
            places(tied@) == marked(flags.take(i as int)),
        decreases n - i,
    {
        let level = match found[i] {
            Some(f) => f.is_same_value(&top),
            None => false,
        };
        proof {
            assert(rated[peak as int] == Some(top@));
            if level {
                let f = found@[i as int].unwrap();
                assert forall|j: int| 0 <= j < rated.len() && (#[trigger] rated[j]) is Some implies f@.at_least(
                    rated[j].unwrap(),
                ) by {
                    assert(found@[j] is Some);
                    lemma_at_least_transitive(f@, top@, rated[j].unwrap());
                }
                assert(leads(rated, i as int));
            } else if leads(rated, i as int) {
                assert(rated[i as int].unwrap().at_least(rated[peak as int].unwrap()));
                assert(false);
            }
            assert(flags[i as int] == level);
            lemma_marked_step(flags, i as int);
        }
        if level {
            proof {
                assert(places(tied@.push(i)) == places(tied@).push(i as int));
            }
            tied.push(i);
        }
        i = i + 1;
    }
    assert(flags.take(n as int) == flags);
    tied
}

/// Moves one seat from the pool to each of the parties `chosen`.
pub fn hand_out(seats: &mut Vec<Seats>, pool: &mut Seats, chosen: &Vec<usize>)
    requires
        chosen@.no_duplicates(),
        chosen@.len() <= old(pool)@.held,
        forall|k: int|
            0 <= k < chosen@.len() ==> {
                let p = #[trigger] chosen@[k];
                p < old(seats)@.len() && old(seats)@[p as int]@.has_capacity() && old(
                    seats,
                )@[p as int]@.held < Count::MAX
            },
    ensures
        final(seats)@.len() == old(seats)@.len(),
        ledger(final(seats)@) == award(ledger(old(seats)@), places(chosen@)),
        final(pool)@.held == old(pool)@.held - chosen@.len(),
        final(pool)@.capacity == old(pool)@.capacity,
{
    let ghost start = ledger(seats@);
    let mut k: usize = 0;
    while k < chosen.len()
        invariant
            k <= chosen@.len(),
            chosen@.len() <= old(pool)@.held,
            chosen@.no_duplicates(),
            start == ledger(old(seats)@),
            seats@.len() == start.len(),
            forall|j: int|
                0 <= j < chosen@.len() ==> {
                    let p = #[trigger] chosen@[j];
                    p < start.len() && start[p as int].has_capacity() && start[p as int].held
                        < Count::MAX
                },
            ledger(seats@) == award(start, places(chosen@).take(k as int)),
            pool@.held == old(pool)@.held - k,
            pool@.capacity == old(pool)@.capacity,
        decreases chosen@.len() - k,
    {
        let p = chosen[k];
        let ghost earlier = places(chosen@).take(k as int);
        proof {
            assert(!earlier.contains(p as int)) by {
                if earlier.contains(p as int) {
                    let j = choose|j: int| 0 <= j < earlier.len() && earlier[j] == p as int;
                    assert(chosen@[j] == chosen@[k as int]);
                }
            }
            lemma_award_push(start, earlier, p as int);
            assert(places(chosen@).take(k + 1) == earlier.push(p as int));
            assert(ledger(seats@)[p as int] == seats@[p as int]@);
        }
        let ghost held_before = seats@;
        seats[p].transfer(pool);
        proof {
            assert(ledger(seats@) =~= ledger(held_before).update(p as int, start[p as int].gain()));
        }
        k = k + 1;
    }
    assert(places(chosen@).take(k as int) == places(chosen@));
}

/// Runs one round: rates the parties that can take a seat, and awards a
/// seat from the pool to each of those with the largest quality, drawing
/// lots where the pool has fewer seats than that. Returns `None`, and
/// changes nothing, where no party has a quality.
pub fn allocate_single_step<C: Criterion>(
    lots: &mut Lottery,
    votes: &Vec<Votes>,
    seats: &mut Vec<Seats>,
    available_seats: &mut Seats,
    criterion: &C,
) -> (step: Option<()>)
    requires
        votes@.len() == old(seats)@.len(),
        total_held(ledger(old(seats)@)) + old(available_seats)@.held < Count::MAX,
    ensures
        final(seats)@.len() == old(seats)@.len(),
        final(available_seats)@.capacity == old(available_seats)@.capacity,
        in_order(ledger(final(seats)@)),
        total_held(ledger(final(seats)@)) + final(available_seats)@.held == total_held(
            ledger(old(seats)@),
        ) + old(available_seats)@.held,
        same_capacities(ledger(old(seats)@), ledger(final(seats)@)),
        step is None <==> forall|i: int|
            0 <= i < old(seats)@.len() ==> (#[trigger] qualities(
                *criterion,
                votes@,
                ledger(old(seats)@),
            )[i]) is None,
        step is Some <==> round_leaders(*criterion, votes@, ledger(old(seats)@)).len() > 0,
        step is None ==> ledger(final(seats)@) == ledger(old(seats)@),
        step is None ==> final(available_seats)@ == old(available_seats)@,
        step is Some ==> round_of(
            *criterion,
            votes@,
            ledger(old(seats)@),
            old(available_seats)@.held,
            ledger(final(seats)@),
            final(available_seats)@.held,
        ),
{
    let ghost start = ledger(seats@);
    let ghost pool = available_seats@.held;
    let found = rate_all(votes, seats, criterion);
    let tied = leaders_of(&found);
    proof {
        let rated = qualities(*criterion, votes@, start);
        assert(places(tied@).len() == tied@.len());
        assert forall|i: int| 0 <= i < rated.len() implies ((#[trigger] rated[i]) matches Some(q)
            ==> q.proper()) by {
            assert(rating(found@[i]) == rated[i]);
        }
        if tied@.len() == 0 {
            lemma_no_leader_no_quality(rated);
        } else {
            lemma_leaders_have_capacity(*criterion, votes@, start);
            let p = round_leaders(*criterion, votes@, start)[0];
            assert(rated[p] is Some);
        }
    }
    if tied.len() == 0 {
        return None;
    }
    let ghost tied_at = tied@;
    let chosen = ballotted(lots, tied, available_seats.count());
    proof {
        lemma_leaders_have_capacity(*criterion, votes@, start);
        assert(tied_at.no_duplicates()) by {
            assert forall|j: int, k: int|
                0 <= j < tied_at.len() && 0 <= k < tied_at.len() && j != k implies tied_at[j]
                != tied_at[k] by {
                assert(places(tied_at)[j] != places(tied_at)[k]);
            }
        }
        lemma_drawn_apart(chosen@, tied_at, pool);
        lemma_drawn_renamed(chosen@, tied_at, pool, |p: usize| p as int);
        assert forall|k: int| 0 <= k < chosen@.len() implies {
            let p = #[trigger] chosen@[k];
            p < start.len() && start[p as int].has_capacity() && start[p as int].held < Count::MAX
        } by {
            let p = chosen@[k];
            let at = choose|at: int| 0 <= at < tied_at.len() && tied_at[at] == p;
            assert(places(tied_at)[at] == p as int);
            lemma_held_within_total(start, p as int);
        }
        assert(places(chosen@) == chosen@.map_values(|p: usize| p as int));
        assert(places(tied_at) == tied_at.map_values(|p: usize| p as int));
        lemma_round_keeps(*criterion, votes@, start, pool, places(chosen@));
    }
    hand_out(seats, available_seats, &chosen);
    Some(())
}

} // verus!

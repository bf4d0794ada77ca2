//! What a ledger stands for, and the sums over it.

use vstd::prelude::*;
use crate::data::{Seats, SeatState, Votes};

verus! {

/// What each entry of a ledger stands for.
pub open spec fn ledger(seats: Seq<Seats>) -> Seq<SeatState> {
    Seq::new(seats.len(), |i: int| seats[i]@)
}

/// Every entry holds no more than it can.
pub open spec fn in_order(ledger: Seq<SeatState>) -> bool {
    forall|i: int| 0 <= i < ledger.len() ==> (#[trigger] ledger[i]).within_capacity()
}

/// No party holds a seat.
pub open spec fn fresh(ledger: Seq<SeatState>) -> bool {
    forall|i: int| 0 <= i < ledger.len() ==> (#[trigger] ledger[i]).held == 0
}

/// The two ledgers give every party the same capacity.
pub open spec fn same_capacities(a: Seq<SeatState>, b: Seq<SeatState>) -> bool {
    &&& a.len() == b.len()
    &&& forall|i: int| 0 <= i < a.len() ==> (#[trigger] a[i]).capacity == b[i].capacity
}

/// The votes of all parties together.
pub open spec fn total_votes(votes: Seq<Votes>) -> nat
    decreases votes.len(),
{
    if votes.len() == 0 {
        0
    } else {
        total_votes(votes.drop_last()) + votes.last().0 as nat
    }
}

/// The seats that all entries hold together.
pub open spec fn total_held(ledger: Seq<SeatState>) -> nat
    decreases ledger.len(),
{
    if ledger.len() == 0 {
        0
    } else {
        total_held(ledger.drop_last()) + ledger.last().held
    }
}

/// The positions at which `flags` holds `true`, in rising order.
pub open spec fn marked(flags: Seq<bool>) -> Seq<int>
    decreases flags.len(),
{
    if flags.len() == 0 {
        Seq::empty()
    } else if flags.last() {
        marked(flags.drop_last()).push(flags.len() - 1)
    } else {
        marked(flags.drop_last())
    }
}

/// Positions in a vector, as the integers that contracts count in.
pub open spec fn places(at: Seq<usize>) -> Seq<int> {
    at.map_values(|p: usize| p as int)
}

/// The ledger after each party in `winners` received one seat.
pub open spec fn award(ledger: Seq<SeatState>, winners: Seq<int>) -> Seq<SeatState> {
    Seq::new(
        ledger.len(),
        |i: int|
            if winners.contains(i) {
                ledger[i].gain()
            } else {
                ledger[i]
            },
    )
}

/// `marked` lists exactly the positions that hold `true`, each once and in
/// rising order.
pub proof fn lemma_marked(flags: Seq<bool>)
    ensures
        marked(flags).len() <= flags.len(),
        forall|k: int|
            0 <= k < marked(flags).len() ==> 0 <= (#[trigger] marked(flags)[k]) < flags.len()
                && flags[marked(flags)[k]],
        forall|i: int| 0 <= i < flags.len() && flags[i] ==> marked(flags).contains(i),
        forall|j: int, k: int|
            0 <= j < k < marked(flags).len() ==> marked(flags)[j] < marked(flags)[k],
        marked(flags).no_duplicates(),
    decreases flags.len(),
{
    if flags.len() > 0 {
        let front = flags.drop_last();
        lemma_marked(front);
        let m = marked(flags);
        let f = marked(front);
        assert forall|i: int| 0 <= i < flags.len() && flags[i] implies m.contains(i) by {
            if i < front.len() {
                assert(front[i]);
                let k = choose|k: int| 0 <= k < f.len() && f[k] == i;
                assert(m[k] == i);
            } else {
                assert(m[m.len() - 1] == i);
            }
        }
    }
}

/// One step of `marked`: the flags up to and with position `i`.
pub proof fn lemma_marked_step(flags: Seq<bool>, i: int)
    requires
        0 <= i < flags.len(),
    ensures
        marked(flags.take(i + 1)) == if flags[i] {
            marked(flags.take(i)).push(i)
        } else {
            marked(flags.take(i))
        },
{
    assert(flags.take(i + 1).drop_last() == flags.take(i));
}

/// No entry holds more than all entries together.
pub proof fn lemma_held_within_total(ledger: Seq<SeatState>, i: int)
    requires
        0 <= i < ledger.len(),
    ensures
        ledger[i].held <= total_held(ledger),
    decreases ledger.len(),
{
    if i < ledger.len() - 1 {
        lemma_held_within_total(ledger.drop_last(), i);
    }
}

/// No party has more votes than all parties together.
pub proof fn lemma_votes_within_total(votes: Seq<Votes>, i: int)
    requires
        0 <= i < votes.len(),
    ensures
        votes[i].0 <= total_votes(votes),
    decreases votes.len(),
{
    if i < votes.len() - 1 {
        lemma_votes_within_total(votes.drop_last(), i);
    }
}

/// Two parties together have no more votes than all parties together.
pub proof fn lemma_two_within_total(votes: Seq<Votes>, i: int, j: int)
    requires
        0 <= i < j < votes.len(),
    ensures
        votes[i].0 + votes[j].0 <= total_votes(votes),
    decreases votes.len(),
{
    if j < votes.len() - 1 {
        lemma_two_within_total(votes.drop_last(), i, j);
    } else {
        lemma_votes_within_total(votes.drop_last(), i);
    }
}

/// Replacing one entry changes the total by what that entry gains or loses.
pub proof fn lemma_total_held_update(ledger: Seq<SeatState>, i: int, entry: SeatState)
    requires
        0 <= i < ledger.len(),
    ensures
        total_held(ledger.update(i, entry)) == total_held(ledger) - ledger[i].held + entry.held,
    decreases ledger.len(),
{
    let changed = ledger.update(i, entry);
    if i < ledger.len() - 1 {
        lemma_total_held_update(ledger.drop_last(), i, entry);
        assert(changed.drop_last() == ledger.drop_last().update(i, entry));
    } else {
        assert(changed.drop_last() == ledger.drop_last());
    }
}

/// Awarding to one party more, which was not yet among the winners.
pub proof fn lemma_award_push(ledger: Seq<SeatState>, winners: Seq<int>, w: int)
    requires
        0 <= w < ledger.len(),
        !winners.contains(w),
    ensures
        award(ledger, winners.push(w)) == award(ledger, winners).update(w, ledger[w].gain()),
        award(ledger, winners)[w] == ledger[w],
{
    let more = winners.push(w);
    assert(more[winners.len() as int] == w);
    assert forall|i: int| 0 <= i < ledger.len() && i != w implies more.contains(i)
        == winners.contains(i) by {
        if winners.contains(i) {
            let k = choose|k: int| 0 <= k < winners.len() && winners[k] == i;
            assert(more[k] == i);
        }
        if more.contains(i) {
            let k = choose|k: int| 0 <= k < more.len() && more[k] == i;
            assert(winners[k] == i);
        }
    }
    assert(award(ledger, more) =~= award(ledger, winners).update(w, ledger[w].gain()));
}

/// Awarding to parties of which none stands twice adds one seat for each.
pub proof fn lemma_total_held_award(ledger: Seq<SeatState>, winners: Seq<int>)
    requires
        winners.no_duplicates(),
        forall|k: int| 0 <= k < winners.len() ==> 0 <= (#[trigger] winners[k]) < ledger.len(),
    ensures
        total_held(award(ledger, winners)) == total_held(ledger) + winners.len(),
    decreases winners.len(),
{
    if winners.len() == 0 {
        assert(award(ledger, winners) =~= ledger);
    } else {
        let front = winners.drop_last();
        let w = winners.last();
        lemma_total_held_award(ledger, front);
        assert(front.push(w) == winners);
        assert(!front.contains(w)) by {
            if front.contains(w) {
                let k = choose|k: int| 0 <= k < front.len() && front[k] == w;
                assert(winners[k] == winners[winners.len() - 1]);
            }
        }
        lemma_award_push(ledger, front, w);
        lemma_total_held_update(award(ledger, front), w, ledger[w].gain());
    }
}

/// A ledger whose parties hold no seat holds none.
pub proof fn lemma_fresh_ledger_is_empty(ledger: Seq<SeatState>)
    requires
        fresh(ledger),
    ensures
        total_held(ledger) == 0,
    decreases ledger.len(),
{
    if ledger.len() > 0 {
        lemma_fresh_ledger_is_empty(ledger.drop_last());
    }
}

} // verus!

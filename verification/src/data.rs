//! Vote counts and the seat ledger.

use vstd::prelude::*;

verus! {

/// Every count of votes or seats.
pub type Count = u64;

/// The votes cast for one party.
#[derive(Clone, Copy, Debug, PartialEq, Eq, Structural)]
pub struct Votes(pub Count);

/// What a ledger entry stands for: the seats a party holds, and how many it
/// can hold at most (`None` when nothing bounds it).
pub struct SeatState {
    pub held: nat,
    pub capacity: Option<nat>,
}

impl SeatState {
    /// The entry holds no more than it can.
    pub open spec fn within_capacity(self) -> bool {
        self.capacity matches Some(c) ==> self.held <= c
    }

    /// The entry can take one more seat.
    pub open spec fn has_capacity(self) -> bool {
        self.capacity matches Some(c) ==> self.held < c
    }

    /// The entry after it received one seat.
    pub open spec fn gain(self) -> SeatState {
        SeatState { held: self.held + 1, capacity: self.capacity }
    }

    /// The entry after it gave one seat away.
    pub open spec fn lose(self) -> SeatState {
        SeatState { held: (self.held - 1) as nat, capacity: self.capacity }
    }
}

/// One entry of the seat ledger. The pool of seats that are still to be
/// awarded is an entry too.
#[derive(Clone, Copy, Debug)]
pub struct Seats {
    count: Count,
    limit: Option<Count>,
}

impl View for Seats {
    type V = SeatState;

    closed spec fn view(&self) -> SeatState {
        SeatState {
            held: self.count as nat,
            capacity: match self.limit {
                Some(l) => Some(l as nat),
                None => None,
            },
        }
    }
}

impl Seats {
    /// No entry holds more seats than it can.
    #[verifier::type_invariant]
    spec fn fits(self) -> bool {
        self.limit matches Some(l) ==> self.count <= l
    }

    /// An entry that holds `count` seats and cannot hold more than those.
    pub fn filled(count: Count) -> (s: Seats)
        ensures
            s@.held == count,
            s@.capacity == Some(count as nat),
    {
        Seats { count, limit: Some(count) }
    }

    /// An empty entry that can hold up to `limit` seats.
    pub fn limited(limit: Count) -> (s: Seats)
        ensures
            s@.held == 0,
            s@.capacity == Some(limit as nat),
    {
        Seats { count: 0, limit: Some(limit) }
    }

    /// An empty entry that nothing bounds.
    pub fn unlimited() -> (s: Seats)
        ensures
            s@.held == 0,
            s@.capacity.is_none(),
    {
        Seats { count: 0, limit: None }
    }

    /// Whether the entry can take one more seat.
    pub fn has_candidates(&self) -> (b: bool)
        ensures
            b == self@.has_capacity(),
            self@.within_capacity(),
    {
        proof {
            use_type_invariant(self);
        }
        match self.limit {
            Some(l) => self.count < l,
            None => true,
        }
    }

    /// The seats held, which are no more than the entry can hold.
    pub fn count(&self) -> (n: Count)
        ensures
            n == self@.held,
            self@.within_capacity(),
    {
        proof {
            use_type_invariant(self);
        }
        self.count
    }

    /// The most seats the entry can hold, if anything bounds it.
    pub fn limit(&self) -> (l: Option<Count>)
        ensures
            l.is_some() == self@.capacity.is_some(),
            l matches Some(n) ==> self@.capacity == Some(n as nat),
            self@.within_capacity(),
    {
        proof {
            use_type_invariant(self);
        }
        self.limit
    }

    /// Whether this entry holds more seats than `other`. Entries are ordered
    /// by the seats they hold and by nothing else.
    pub fn exceeds(&self, other: &Seats) -> (b: bool)
        ensures
            b == (self@.held > other@.held),
    {
        self.count > other.count
    }

    /// Moves one seat from `other` into this entry. Every seat that changes
    /// hands does so here.
    pub fn transfer(&mut self, other: &mut Seats)
        requires
            old(other)@.held > 0,
            old(self)@.has_capacity(),
            old(self)@.held < Count::MAX,
        ensures
            final(self)@ == old(self)@.gain(),
            final(other)@ == old(other)@.lose(),
            final(self)@.within_capacity(),
            final(other)@.within_capacity(),
    {
        proof {
            use_type_invariant(&*other);
        }
        other.count = other.count - 1;
        self.count = self.count + 1;
    }
}

} // verus!

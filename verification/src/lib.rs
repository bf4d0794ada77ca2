//! Apportionment of a fixed number of seats among parties, by their votes:
//! largest averages, largest surpluses, the correction for an absolute
//! majority and the national threshold, with ties settled by lot.

pub mod allocation;
pub mod criterion;
pub mod data;
pub mod election;
pub mod fraction;
pub mod laws;
pub mod ledger;
pub mod lottery;
pub mod majority;
pub mod round;

pub use crate::allocation::allocate_seats;
pub use crate::criterion::{Criterion, Strategy};
pub use crate::data::{Count, SeatState, Seats, Votes};
pub use crate::election::{
    allocate, allocate_national, allocate_per_average, allocate_per_surplus, whole_seats_available,
};
pub use crate::fraction::{frac, Fraction, Ratio};
pub use crate::lottery::{ballotted, Lottery};
pub use crate::majority::absolute_majority_check;
pub use crate::round::allocate_single_step;

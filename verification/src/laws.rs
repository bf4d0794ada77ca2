//! What holds of every allocation.

pub mod chance;
pub mod keeping;
pub mod majority;
pub mod monotone;
pub mod surplus;
pub mod threshold;

//! Karma bookkeeping: users accrue faults and receive punishments whose
//! magnitude is scaled by severity, a global coefficient and the user's
//! fault count in the current period.

pub mod coefficient;
pub mod executor;
pub mod order;
pub mod storage;
pub mod types;

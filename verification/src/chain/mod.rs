//! The segment-chain variant: its plan, its executor's state and its issue-rate
//! governor.

pub mod assemble_chain;
pub mod listing;
pub mod plan_chain;
pub mod rate_limit;

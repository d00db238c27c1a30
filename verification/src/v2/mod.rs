//! The local variant: all part jobs run in one invocation.

pub mod part_executor;

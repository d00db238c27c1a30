//! The segment-chain executor. It carries out no plan yet.

use vstd::prelude::*;
use vstd::string::StringExecFns;

use crate::chain::plan_chain::ChainPlan;

verus! {

/// Why a plan was not carried out.
#[derive(Debug, Clone, Copy, PartialEq, Eq, Structural)]
pub enum ChainError {
    Unimplemented,
}

impl ChainError {
    /// The error in words.
    pub fn message(&self) -> (text: String)
        ensures
            text@ == "segment-chain executor not yet implemented"@,
    {
        String::from_str("segment-chain executor not yet implemented")
    }
}

/// Carries out the plan: refuses every one.
pub fn run(
    _bucket: &str,
    _files_prefix: &str,
    _archive_key: &str,
    _plan: ChainPlan,
) -> (r: Result<(), ChainError>)
    ensures
        r == Err::<(), ChainError>(ChainError::Unimplemented),
{
    Err(ChainError::Unimplemented)
}

} // verus!

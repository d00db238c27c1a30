//! The segment-chain planner. It plans no segments yet.

use vstd::prelude::*;

use crate::engine::plan::SourceFile;

verus! {

/// The plan that the executor consumes.
#[derive(Debug)]
pub struct ChainPlan {
    pub segment_count: usize,
}

impl Default for ChainPlan {
    fn default() -> (plan: Self)
        ensures
            plan.segment_count == 0,
    {
        ChainPlan { segment_count: 0 }
    }
}

/// Builds the segment-chain plan from the listed objects: a plan without segments,
/// whatever is listed.
pub fn plan_segment_chain(_files: Vec<SourceFile>) -> (plan: ChainPlan)
    ensures
        plan.segment_count == 0,
{
    ChainPlan::default()
}

} // verus!

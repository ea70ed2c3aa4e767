use std::sync::atomic::{AtomicUsize, Ordering};
use std::sync::Arc;
use vstd::prelude::*;

verus! {

/// How the stage of a multi-stage workflow advances.
pub enum StageTracking {
    /// The stage is set from outside.
    ExternallySet(Arc<AtomicUsize>),
    /// The stage advances when all accounts have finished the current one.
    WhenDone(Arc<AtomicUsize>),
}

impl StageTracking {
    /// The current stage, as the shared counter holds it now.
    pub fn load_current_stage(&self) -> usize {
        match self {
            StageTracking::ExternallySet(stage) => stage.load(Ordering::Relaxed),
            StageTracking::WhenDone(stage) => stage.load(Ordering::Relaxed),
        }
    }
}

/// The pool of accounts that the stage before `stage` fills is used up.
pub open spec fn previous_pool_empty(pool_sizes: Seq<usize>, stage: usize) -> bool {
    0 < stage < pool_sizes.len() && pool_sizes[stage - 1] == 0
}

/// What one round of transaction generation does in a multi-stage workflow.
#[derive(Clone, Copy, Debug, PartialEq, Eq, Structural)]
pub struct StageStep {
    /// The stage whose generator runs.
    pub stage: usize,
    /// How many transactions it is asked for.
    pub num_to_create: usize,
    /// The shared stage moves on from `stage - 1` to `stage`.
    pub advance: bool,
    /// Nothing is generated this round.
    pub skip: bool,
}

/// How many of `num_to_create` still fit in the first stage, after
/// `completed_before` of its `num_for_first_stage` were handed out.
pub open spec fn first_stage_quota(
    num_to_create: usize,
    num_for_first_stage: usize,
    completed_before: usize,
) -> usize {
    let left = if num_for_first_stage >= completed_before {
        (num_for_first_stage - completed_before) as usize
    } else {
        0
    };
    if num_to_create <= left {
        num_to_create
    } else {
        left
    }
}

/// The step at `stage`. The first stage takes its quota; when it is full, a
/// stage that advances when done moves on to stage 1, and an externally set
/// one generates nothing. A later stage whose previous pool is used up moves
/// on to the next, where there is one.
pub open spec fn spec_plan_stage_step(
    when_done: bool,
    stage: usize,
    num_to_create: usize,
    completed_before: usize,
    num_for_first_stage: usize,
    num_pools: usize,
    previous_pool_empty: bool,
) -> StageStep {
    if stage == 0 {
        let n = first_stage_quota(num_to_create, num_for_first_stage, completed_before);
        if n != 0 {
            StageStep { stage: 0, num_to_create: n, advance: false, skip: false }
        } else if when_done {
            StageStep { stage: 1, num_to_create: 0, advance: true, skip: false }
        } else {
            StageStep { stage: 0, num_to_create: 0, advance: false, skip: true }
        }
    } else if when_done && stage < num_pools && previous_pool_empty {
        StageStep { stage: (stage + 1) as usize, num_to_create, advance: true, skip: false }
    } else {
        StageStep { stage, num_to_create, advance: false, skip: false }
    }
}

pub fn plan_stage_step(
    when_done: bool,
    stage: usize,
    num_to_create: usize,
    completed_before: usize,
    num_for_first_stage: usize,
    num_pools: usize,
    previous_pool_empty: bool,
) -> (r: StageStep)
    ensures
        r == spec_plan_stage_step(
            when_done,
            stage,
            num_to_create,
            completed_before,
            num_for_first_stage,
            num_pools,
            previous_pool_empty,
        ),
{
    if stage == 0 {
        let left = num_for_first_stage.saturating_sub(completed_before);
        let n = if num_to_create <= left {
            num_to_create
        } else {
            left
        };
        if n != 0 {
            StageStep { stage: 0, num_to_create: n, advance: false, skip: false }
        } else if when_done {
            StageStep { stage: 1, num_to_create: 0, advance: true, skip: false }
        } else {
            StageStep { stage: 0, num_to_create: 0, advance: false, skip: true }
        }
    } else if when_done && stage < num_pools && previous_pool_empty {
        StageStep { stage: stage + 1, num_to_create, advance: true, skip: false }
    } else {
        StageStep { stage, num_to_create, advance: false, skip: false }
    }
}

/// The stage state that the generators of one workflow share.
pub struct WorkflowStage {
    pub stage: StageTracking,
    pub num_for_first_stage: usize,
    /// How many transactions the first stage has handed out so far.
    pub completed_for_first_stage: Arc<AtomicUsize>,
}

impl WorkflowStage {
    /// Decides this round's step from the shared counters and the sizes of
    /// the account pools between stages, and moves the shared stage on where
    /// the step says so. The counters may change at any time, so the step is
    /// the plan for some stage and some count handed out before.
    pub fn next_step(&self, num_to_create: usize, pool_sizes: &Vec<usize>) -> (r: StageStep)
        ensures
            exists|stage: usize, completed_before: usize|
                r == #[trigger] spec_plan_stage_step(
                    self.stage is WhenDone,
                    stage,
                    num_to_create,
                    completed_before,
                    self.num_for_first_stage,
                    pool_sizes@.len() as usize,
                    previous_pool_empty(pool_sizes@, stage),
                ),
    {
        let stage = self.stage.load_current_stage();
        let completed_before = if stage == 0 {
            self.completed_for_first_stage.fetch_add(num_to_create, Ordering::Relaxed)
        } else {
            0
        };
        let previous_used_up = 0 < stage && stage < pool_sizes.len() && pool_sizes[stage - 1]
            == 0;
        let when_done = match &self.stage {
            StageTracking::WhenDone(_) => true,
            StageTracking::ExternallySet(_) => false,
        };
        let step = plan_stage_step(
            when_done,
            stage,
            num_to_create,
            completed_before,
            self.num_for_first_stage,
            pool_sizes.len(),
            previous_used_up,
        );
        if step.advance {
            match &self.stage {
                StageTracking::WhenDone(counter) => {
                    let _ = counter.compare_exchange(
                        step.stage - 1,
                        step.stage,
                        Ordering::Relaxed,
                        Ordering::Relaxed,
                    );
                },
                StageTracking::ExternallySet(_) => {},
            }
        }
        assert(step == spec_plan_stage_step(
            self.stage is WhenDone,
            stage,
            num_to_create,
            completed_before,
            self.num_for_first_stage,
            pool_sizes@.len() as usize,
            previous_pool_empty(pool_sizes@, stage),
        ));
        step
    }
}

} // verus!

use block_executor::dag_sync::{
    certified_node_action, need_sync_for_ledger_info, outcome_ending_handling, should_notify_commit_proof,
    sync_outcome, sync_request_allowed, sync_start_round, SyncModeAction, SyncOutcome,
};
use block_executor::workflow::{plan_stage_step, StageStep, StageTracking, WorkflowStage};
use std::sync::atomic::{AtomicUsize, Ordering};
use std::sync::Arc;

#[test]
fn need_sync_only_past_the_committed_anchor() {
    assert!(!need_sync_for_ledger_info(10, 10, true, 0, 5));
    assert!(need_sync_for_ledger_info(11, 10, true, 0, 5));
    assert!(!need_sync_for_ledger_info(11, 10, false, 10, 5));
    assert!(!need_sync_for_ledger_info(16, 10, false, 10, 5));
    assert!(need_sync_for_ledger_info(17, 10, false, 10, 5));
    assert!(need_sync_for_ledger_info(21, 10, false, 10, 5));
    assert!(!need_sync_for_ledger_info(u64::MAX, 1, false, u64::MAX - 1, u64::MAX));
    assert!(need_sync_for_ledger_info(u64::MAX, 1, false, 0, u64::MAX - 2));
}

#[test]
fn commit_proof_notification() {
    assert!(should_notify_commit_proof(5, 4, Some(5)));
    assert!(!should_notify_commit_proof(5, 5, Some(9)));
    assert!(!should_notify_commit_proof(5, 4, Some(4)));
    assert!(!should_notify_commit_proof(5, 4, None));
}

#[test]
fn sync_outcomes() {
    assert!(matches!(sync_outcome::<u8, ()>(1, false, Err(()), true), Ok(SyncOutcome::Synced(Some(1)))));
    assert!(matches!(sync_outcome::<u8, ()>(1, true, Err(()), false), Err(())));
    assert!(matches!(sync_outcome::<u8, ()>(1, true, Ok(()), true), Ok(SyncOutcome::EpochEnds)));
    assert!(matches!(sync_outcome::<u8, ()>(1, true, Ok(()), false), Ok(SyncOutcome::NeedsSync(1))));
    assert_eq!(SyncOutcome::NeedsSync(1u8).name(), "NeedsSync");
    assert_eq!(SyncOutcome::<u8>::Synced(None).name(), "Synced");
    assert_eq!(SyncOutcome::<u8>::EpochEnds.name(), "EpochEnds");
}

#[test]
fn start_round_saturates() {
    assert_eq!(sync_start_round(100, 30), 70);
    assert_eq!(sync_start_round(10, 30), 0);
}

#[test]
fn stage_is_read_from_the_shared_counter() {
    let counter = Arc::new(AtomicUsize::new(3));
    assert_eq!(StageTracking::ExternallySet(counter.clone()).load_current_stage(), 3);
    assert_eq!(StageTracking::WhenDone(counter).load_current_stage(), 3);
}

#[test]
fn first_stage_takes_its_quota_then_moves_on() {
    assert_eq!(
        plan_stage_step(true, 0, 10, 95, 100, 3, false),
        StageStep { stage: 0, num_to_create: 5, advance: false, skip: false }
    );
    assert_eq!(
        plan_stage_step(true, 0, 10, 100, 100, 3, false),
        StageStep { stage: 1, num_to_create: 0, advance: true, skip: false }
    );
    assert_eq!(
        plan_stage_step(false, 0, 10, 120, 100, 3, false),
        StageStep { stage: 0, num_to_create: 0, advance: false, skip: true }
    );
    assert_eq!(
        plan_stage_step(true, 1, 10, 0, 100, 3, true),
        StageStep { stage: 2, num_to_create: 10, advance: true, skip: false }
    );
    assert_eq!(
        plan_stage_step(true, 3, 10, 0, 100, 3, true),
        StageStep { stage: 3, num_to_create: 10, advance: false, skip: false }
    );
    assert_eq!(
        plan_stage_step(false, 1, 10, 0, 100, 3, true),
        StageStep { stage: 1, num_to_create: 10, advance: false, skip: false }
    );
}

#[test]
fn workflow_stage_advances_the_shared_counter() {
    let stage = Arc::new(AtomicUsize::new(0));
    let completed = Arc::new(AtomicUsize::new(0));
    let workflow = WorkflowStage {
        stage: StageTracking::WhenDone(stage.clone()),
        num_for_first_stage: 15,
        completed_for_first_stage: completed.clone(),
    };
    let pools = vec![4usize, 0, 2];
    assert_eq!(workflow.next_step(10, &pools).num_to_create, 10);
    assert_eq!(workflow.next_step(10, &pools).num_to_create, 5);
    assert_eq!(
        workflow.next_step(10, &pools),
        StageStep { stage: 1, num_to_create: 0, advance: true, skip: false }
    );
    assert_eq!(stage.load(Ordering::Relaxed), 1);
    assert_eq!(completed.load(Ordering::Relaxed), 30);
    assert_eq!(workflow.next_step(10, &pools).stage, 1);
    stage.store(2, Ordering::Relaxed);
    assert_eq!(
        workflow.next_step(7, &pools),
        StageStep { stage: 3, num_to_create: 7, advance: true, skip: false }
    );
    assert_eq!(stage.load(Ordering::Relaxed), 3);
}

#[test]
fn sync_request_conditions() {
    assert!(sync_request_allowed(10, Some(9), 9, 5));
    assert!(sync_request_allowed(10, None, 9, 5));
    assert!(!sync_request_allowed(10, Some(10), 5, 5));
    assert!(sync_request_allowed(10, Some(12), 4, 5));
    assert!(!sync_request_allowed(10, Some(12), u64::MAX, u64::MAX));
}

#[test]
fn certified_nodes_in_sync_mode() {
    assert_eq!(certified_node_action(4, 5, 10, 3), SyncModeAction::IgnoreStale);
    assert_eq!(certified_node_action(16, 5, 10, 3), SyncModeAction::Buffer);
    assert_eq!(certified_node_action(17, 5, 10, 3), SyncModeAction::CancelSync);
    assert_eq!(certified_node_action(u64::MAX, 0, u64::MAX, u64::MAX), SyncModeAction::Buffer);
}

#[test]
fn only_sync_and_epoch_end_stop_handling() {
    assert!(matches!(outcome_ending_handling::<u8, ()>(Ok(SyncOutcome::NeedsSync(4))), Some(SyncOutcome::NeedsSync(4))));
    assert!(matches!(outcome_ending_handling::<u8, ()>(Ok(SyncOutcome::EpochEnds)), Some(SyncOutcome::EpochEnds)));
    assert!(outcome_ending_handling::<u8, ()>(Ok(SyncOutcome::Synced(Some(1)))).is_none());
    assert!(outcome_ending_handling::<u8, ()>(Err(())).is_none());
}

use vstd::prelude::*;

verus! {

/// What checking a certified node against the local state decides.
#[derive(Debug)]
pub enum SyncOutcome<N> {
    /// The node's ledger info is far ahead: the DAG must be synced to it.
    NeedsSync(N),
    /// No sync is needed; the node, if any, goes on to be processed.
    Synced(Option<N>),
    /// The node's ledger info ends the epoch.
    EpochEnds,
}

impl<N> SyncOutcome<N> {
    /// The outcome's name.
    pub fn name(&self) -> (r: &'static str)
        ensures
            self is NeedsSync ==> r@ == "NeedsSync"@,
            self is Synced ==> r@ == "Synced"@,
            self is EpochEnds ==> r@ == "EpochEnds"@,
    {
        match self {
            SyncOutcome::NeedsSync(_) => "NeedsSync",
            SyncOutcome::Synced(_) => "Synced",
            SyncOutcome::EpochEnds => "EpochEnds",
        }
    }
}

/// Whether the node must sync to a ledger info that commits round `li_round`:
/// only past the highest committed anchor round, and then when the DAG is
/// empty, when its highest round is more than a window (plus one) behind, or
/// when the committed anchor round is more than two windows behind.
pub open spec fn spec_need_sync(
    li_round: u64,
    highest_committed_anchor_round: u64,
    dag_is_empty: bool,
    dag_highest_round: u64,
    dag_window_size: u64,
) -> bool {
    &&& li_round > highest_committed_anchor_round
    &&& {
        ||| dag_is_empty
        ||| dag_highest_round + 1 + dag_window_size < li_round
        ||| highest_committed_anchor_round + 2 * dag_window_size < li_round
    }
}

pub fn need_sync_for_ledger_info(
    li_round: u64,
    highest_committed_anchor_round: u64,
    dag_is_empty: bool,
    dag_highest_round: u64,
    dag_window_size: u64,
) -> (r: bool)
    ensures
        r == spec_need_sync(
            li_round,
            highest_committed_anchor_round,
            dag_is_empty,
            dag_highest_round,
            dag_window_size,
        ),
{
    if li_round <= highest_committed_anchor_round {
        return false;
    }
    dag_is_empty || (dag_highest_round as u128) + 1 + (dag_window_size as u128) < li_round as u128
        || (highest_committed_anchor_round as u128) + 2 * (dag_window_size as u128)
        < li_round as u128
}

/// Whether a commit proof for round `li_round` is handed on to execution: when
/// that round lies past the highest committed anchor round and no later than
/// the highest ordered anchor round (none counts as round 0).
pub fn should_notify_commit_proof(
    li_round: u64,
    highest_committed_anchor_round: u64,
    highest_ordered_anchor_round: Option<u64>,
) -> (r: bool)
    ensures
        r == (highest_committed_anchor_round < li_round && match highest_ordered_anchor_round {
            Some(o) => o >= li_round,
            None => 0 >= li_round,
        }),
{
    let ordered = match highest_ordered_anchor_round {
        Some(o) => o,
        None => 0,
    };
    highest_committed_anchor_round < li_round && ordered >= li_round
}

/// What checking `node` decides, given whether a sync is needed, the result
/// of verifying its ledger info (consulted only when a sync is needed), and
/// whether the ledger info ends the epoch.
pub fn sync_outcome<N, E>(
    node: N,
    need_sync: bool,
    verified: Result<(), E>,
    ends_epoch: bool,
) -> (r: Result<SyncOutcome<N>, E>)
    ensures
        !need_sync ==> r == Ok::<SyncOutcome<N>, E>(SyncOutcome::Synced(Some(node))),
        need_sync ==> match verified {
            Err(e) => r == Err::<SyncOutcome<N>, E>(e),
            Ok(_) => if ends_epoch {
                r == Ok::<SyncOutcome<N>, E>(SyncOutcome::EpochEnds)
            } else {
                r == Ok::<SyncOutcome<N>, E>(SyncOutcome::NeedsSync(node))
            },
        },
{
    if !need_sync {
        return Ok(SyncOutcome::Synced(Some(node)));
    }
    match verified {
        Err(e) => Err(e),
        Ok(_) => if ends_epoch {
            Ok(SyncOutcome::EpochEnds)
        } else {
            Ok(SyncOutcome::NeedsSync(node))
        },
    }
}

/// The first round that a sync to commit round `commit_round` fetches: one
/// window back, and never below 0.
pub fn sync_start_round(commit_round: u64, dag_window_size: u64) -> (r: u64)
    ensures
        r == if commit_round >= dag_window_size {
            (commit_round - dag_window_size) as u64
        } else {
            0
        },
{
    commit_round.saturating_sub(dag_window_size)
}

/// Whether a sync to a ledger info that commits `commit_round` may start: the
/// DAG must be behind it in ordering (no ordered anchor counts as round 0), or
/// the committed anchor round more than a window behind it.
pub fn sync_request_allowed(
    commit_round: u64,
    highest_ordered_anchor_round: Option<u64>,
    highest_committed_anchor_round: u64,
    dag_window_size: u64,
) -> (r: bool)
    ensures
        r == ((match highest_ordered_anchor_round {
            Some(o) => o,
            None => 0,
        }) < commit_round || highest_committed_anchor_round + dag_window_size < commit_round),
{
    let ordered = match highest_ordered_anchor_round {
        Some(o) => o,
        None => 0,
    };
    ordered < commit_round || (highest_committed_anchor_round as u128) + (dag_window_size as u128)
        < commit_round as u128
}

/// What a node in sync mode does with a verified certified node.
#[derive(Clone, Copy, Debug, PartialEq, Eq, Structural)]
pub enum SyncModeAction {
    /// The node is older than the sync's start: it is dropped.
    IgnoreStale,
    /// The node is more than two windows past the sync's target: the sync is
    /// cancelled in favour of one to this node.
    CancelSync,
    /// The node is kept for when the sync completes.
    Buffer,
}

pub fn certified_node_action(
    round: u64,
    start_round: u64,
    target_round: u64,
    window: u64,
) -> (r: SyncModeAction)
    ensures
        r == if round < start_round {
            SyncModeAction::IgnoreStale
        } else if round > target_round + 2 * window {
            SyncModeAction::CancelSync
        } else {
            SyncModeAction::Buffer
        },
{
    if round < start_round {
        SyncModeAction::IgnoreStale
    } else if round as u128 > (target_round as u128) + 2 * (window as u128) {
        SyncModeAction::CancelSync
    } else {
        SyncModeAction::Buffer
    }
}

/// The outcome of processing a message that ends network handling: one that
/// asks for a sync or ends the epoch. Other outcomes and errors let handling
/// go on.
pub fn outcome_ending_handling<N, E>(processed: Result<SyncOutcome<N>, E>) -> (r: Option<
    SyncOutcome<N>,
>)
    ensures
        match processed {
            Ok(SyncOutcome::NeedsSync(n)) => r == Some(SyncOutcome::NeedsSync(n)),
            Ok(SyncOutcome::EpochEnds) => r == Some(SyncOutcome::<N>::EpochEnds),
            _ => r is None,
        },
{
    match processed {
        Ok(SyncOutcome::NeedsSync(n)) => Some(SyncOutcome::NeedsSync(n)),
        Ok(SyncOutcome::EpochEnds) => Some(SyncOutcome::EpochEnds),
        _ => None,
    }
}

} // verus!

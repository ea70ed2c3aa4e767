use block_executor::errors::{
    ExecutionError, IntentionalFallbackToSequential, InvariantViolation, PanicError, PanicOr,
    ResourceGroupErrorKind,
};
use block_executor::exchange::{extract_identifiers_from_value, replace_values_with_identifiers};
use block_executor::executor_utilities::{
    finalize_group, groups_to_finalize, map_finalized_group, map_id_to_values_in_group_writes,
    map_id_to_values_in_write_set, replace_ids_with_values, resource_group_error,
    serialize_groups,
};
use block_executor::layout::{DelayedWidth, FieldLayout, IdentifierMappingKind, MoveTypeLayout};
use block_executor::view::LatestView;
use block_executor::write_op::{ValueWithLayout, WriteOp, WriteOpKind};
use std::collections::{BTreeMap, HashSet};

fn fallback(kind: ResourceGroupErrorKind) -> PanicOr<IntentionalFallbackToSequential> {
    PanicOr::Or(IntentionalFallbackToSequential::ResourceGroupError(kind))
}

fn counter_layout() -> MoveTypeLayout {
    MoveTypeLayout::new(vec![
        FieldLayout::Delayed(IdentifierMappingKind::Aggregator, DelayedWidth::U64),
        FieldLayout::U32,
    ])
}

fn counter_bytes(n: u64, tail: u32) -> Vec<u8> {
    let mut v = n.to_le_bytes().to_vec();
    v.extend_from_slice(&tail.to_le_bytes());
    v
}

#[test]
fn group_with_two_tags_serializes_to_canonical_map() {
    let view = LatestView::new_sequential(1_000_000);
    let members = vec![
        (2u64, ValueWithLayout::RawFromStorage(WriteOp::modification(b"b".to_vec(), None))),
        (1u64, ValueWithLayout::Exchanged(WriteOp::creation(b"a".to_vec(), None), None)),
    ];
    let metadata = WriteOp::modification(vec![], None);
    let (key, op) = finalize_group(9, members, metadata, false, &view, 0).unwrap();
    assert_eq!(key, 9);
    assert_eq!(op.kind, WriteOpKind::Modification);
    let decoded: BTreeMap<u64, Vec<u8>> = bcs::from_bytes(&op.bytes).unwrap();
    let expected = BTreeMap::from([(1u64, b"a".to_vec()), (2u64, b"b".to_vec())]);
    assert_eq!(decoded, expected);
    assert_eq!(op.bytes, bcs::to_bytes(&expected).unwrap());
}

#[test]
fn serialize_groups_writes_blob_into_metadata() {
    let groups = vec![(
        4u64,
        WriteOp::creation(vec![0xff], None),
        vec![(2u64, WriteOp::modification(b"b".to_vec(), None)), (1u64, WriteOp::creation(b"a".to_vec(), None))],
    )];
    let out = serialize_groups(groups).unwrap();
    assert_eq!(out.len(), 1);
    assert_eq!(out[0].0, 4);
    assert_eq!(out[0].1.kind, WriteOpKind::Creation);
    let decoded: BTreeMap<u64, Vec<u8>> = bcs::from_bytes(&out[0].1.bytes).unwrap();
    assert_eq!(decoded, BTreeMap::from([(1u64, b"a".to_vec()), (2u64, b"b".to_vec())]));
}

#[test]
fn serialize_groups_rejects_deleted_member() {
    let groups = vec![(
        4u64,
        WriteOp::modification(vec![], None),
        vec![(1u64, WriteOp::deletion(None))],
    )];
    assert_eq!(
        serialize_groups(groups).unwrap_err(),
        PanicOr::CodeInvariantError(InvariantViolation::DeletionInGroup)
    );
}

#[test]
fn emptied_group_with_modification_falls_back() {
    let r = map_finalized_group::<()>(3, Ok(vec![]), WriteOp::modification(vec![], None), false);
    assert_eq!(
        r.unwrap_err(),
        ExecutionError::FallbackToSequential(fallback(ResourceGroupErrorKind::EmptinessMismatch {
            is_empty: true,
            is_deletion: false,
        }))
    );
    let view = LatestView::new_sequential(1_000_000);
    let r = finalize_group(3, vec![], WriteOp::modification(vec![], None), false, &view, 0);
    assert_eq!(
        r.unwrap_err(),
        fallback(ResourceGroupErrorKind::EmptinessMismatch { is_empty: true, is_deletion: false })
    );
}

#[test]
fn nonempty_group_with_deletion_falls_back() {
    let members = vec![(1u64, ValueWithLayout::RawFromStorage(WriteOp::creation(vec![1], None)))];
    let r = map_finalized_group::<()>(3, Ok(members), WriteOp::deletion(None), false);
    assert_eq!(
        r.unwrap_err(),
        ExecutionError::FallbackToSequential(fallback(ResourceGroupErrorKind::EmptinessMismatch {
            is_empty: false,
            is_deletion: true,
        }))
    );
}

#[test]
fn read_only_exchange_on_deleted_group_falls_back() {
    let r = map_finalized_group::<()>(3, Ok(vec![]), WriteOp::deletion(None), true);
    assert_eq!(
        r.unwrap_err(),
        ExecutionError::FallbackToSequential(fallback(
            ResourceGroupErrorKind::ReadOnlyExchangedDeletion
        ))
    );
}

#[test]
fn failed_finalization_falls_back() {
    let r = map_finalized_group::<()>(
        3,
        Err(PanicError::CodeInvariantError(InvariantViolation::MalformedValue)),
        WriteOp::modification(vec![], None),
        false,
    );
    assert_eq!(
        r.unwrap_err(),
        ExecutionError::FallbackToSequential(fallback(ResourceGroupErrorKind::Finalization))
    );
    assert_eq!(
        resource_group_error(ResourceGroupErrorKind::Serialization),
        fallback(ResourceGroupErrorKind::Serialization)
    );
}

#[test]
fn consistent_groups_pass_the_check() {
    let members = vec![(1u64, ValueWithLayout::RawFromStorage(WriteOp::creation(vec![1], None)))];
    let (key, op, group) =
        map_finalized_group::<()>(3, Ok(members), WriteOp::modification(vec![], None), true)
            .unwrap();
    assert_eq!(key, 3);
    assert!(!op.is_deletion());
    assert_eq!(group.len(), 1);
    let (_, op, group) =
        map_finalized_group::<()>(3, Ok(vec![]), WriteOp::deletion(None), false).unwrap();
    assert!(op.is_deletion());
    assert!(group.is_empty());
}

#[test]
fn group_writes_resolve_exchanged_members() {
    let mut view = LatestView::new_sequential(1_000_000);
    let layout = counter_layout();
    let (lifted, _) =
        replace_values_with_identifiers(&mut view, 0, &counter_bytes(640, 5), &layout).unwrap();
    let groups = vec![(
        8u64,
        WriteOp::modification(vec![], None),
        vec![
            (1u64, ValueWithLayout::Exchanged(WriteOp::creation(lifted, None), Some(counter_layout()))),
            (2u64, ValueWithLayout::RawFromStorage(WriteOp::creation(vec![3], None))),
        ],
    )];
    let out = map_id_to_values_in_group_writes(groups, &view, 0).unwrap();
    assert_eq!(out.len(), 1);
    assert_eq!(out[0].0, 8);
    let members = &out[0].2;
    assert_eq!(members[0].0, 1);
    assert_eq!(members[0].1.kind, WriteOpKind::Modification);
    assert_eq!(members[0].1.bytes, counter_bytes(640, 5));
    assert_eq!(members[1].1.bytes, vec![3]);
}

#[test]
fn group_writes_with_unknown_identifier_fail() {
    let view = LatestView::new_sequential(1_000_000);
    let groups = vec![(
        8u64,
        WriteOp::modification(vec![], None),
        vec![(1u64, ValueWithLayout::Exchanged(WriteOp::creation(counter_bytes(5, 0), None), Some(counter_layout())))],
    )];
    assert_eq!(
        map_id_to_values_in_group_writes(groups, &view, 0).unwrap_err(),
        PanicError::CodeInvariantError(InvariantViolation::UnresolvedIdentifier(5))
    );
}

#[test]
fn replacing_ids_in_a_deletion_fails() {
    let view = LatestView::new_sequential(1_000_000);
    assert_eq!(
        replace_ids_with_values(&WriteOp::deletion(None), &counter_layout(), &view, 0).unwrap_err(),
        PanicError::CodeInvariantError(InvariantViolation::NotModification)
    );
}

#[test]
fn patched_write_set_holds_values_not_identifiers() {
    let mut view = LatestView::new_sequential(1_000_000);
    let layout = counter_layout();
    let (lifted, ids) =
        replace_values_with_identifiers(&mut view, 0, &counter_bytes(2_500, 1), &layout).unwrap();
    assert_eq!(ids, HashSet::from([1_000_000u64]));
    let write_set = vec![
        (1u64, (WriteOp::modification(lifted.clone(), None), Some(counter_layout()))),
        (2u64, (WriteOp::deletion(None), Some(counter_layout()))),
        (3u64, (WriteOp::creation(vec![1, 2], None), None)),
    ];
    let patched = map_id_to_values_in_write_set(write_set, &view, 0).unwrap();
    assert_eq!(patched.len(), 3);
    assert_eq!(patched[&1].bytes, counter_bytes(2_500, 1));
    assert_eq!(patched[&1].kind, WriteOpKind::Modification);
    assert!(patched[&2].is_deletion());
    assert_eq!(patched[&3].bytes, vec![1, 2]);
    let left = extract_identifiers_from_value(&patched[&1].bytes, &layout).unwrap();
    assert!(!left.contains(&1_000_000));
    assert_eq!(left, HashSet::from([2_500u64]));
}

#[test]
fn patched_write_set_keeps_the_later_entry_of_a_key() {
    let view = LatestView::new_sequential(1_000_000);
    let write_set = vec![
        (1u64, (WriteOp::creation(vec![1], None), None)),
        (1u64, (WriteOp::creation(vec![2], None), None)),
    ];
    let patched = map_id_to_values_in_write_set(write_set, &view, 0).unwrap();
    assert_eq!(patched.len(), 1);
    assert_eq!(patched[&1].bytes, vec![2]);
}

#[test]
fn groups_to_finalize_flags_reads_after_writes() {
    let writes = vec![(1u64, WriteOp::modification(vec![1], None)), (2u64, WriteOp::deletion(None))];
    let reads = vec![(3u64, WriteOp::creation(vec![3], None))];
    let all = groups_to_finalize(writes, reads);
    let flags: Vec<(u64, bool)> = all.iter().map(|((k, _), f)| (*k, *f)).collect();
    assert_eq!(flags, vec![(1, false), (2, false), (3, true)]);
    assert!(all[1].0 .1.is_deletion());
    assert_eq!(all[2].0 .1.bytes, vec![3]);
}

#[test]
fn finalize_group_with_deleted_member_is_fatal() {
    let view = LatestView::new_sequential(1_000_000);
    let members = vec![(1u64, ValueWithLayout::RawFromStorage(WriteOp::deletion(None)))];
    assert_eq!(
        finalize_group(3, members, WriteOp::modification(vec![], None), false, &view, 0).unwrap_err(),
        PanicOr::CodeInvariantError(InvariantViolation::DeletionInGroup)
    );
}

#[test]
fn finalize_group_resolves_members_before_serializing() {
    let mut view = LatestView::new_parallel(1_002_000_000);
    let layout = counter_layout();
    let (lifted, _) =
        replace_values_with_identifiers(&mut view, 2, &counter_bytes(77, 9), &layout).unwrap();
    let members = vec![(5u64, ValueWithLayout::Exchanged(WriteOp::creation(lifted, None), Some(counter_layout())))];
    let (_, op) =
        finalize_group(1, members, WriteOp::creation(vec![], None), false, &view, 2).unwrap();
    let decoded: BTreeMap<u64, Vec<u8>> = bcs::from_bytes(&op.bytes).unwrap();
    assert_eq!(decoded, BTreeMap::from([(5u64, counter_bytes(77, 9))]));

    let unresolved = vec![(5u64, ValueWithLayout::Exchanged(WriteOp::creation(counter_bytes(4, 0), None), Some(counter_layout())))];
    assert_eq!(
        finalize_group(1, unresolved, WriteOp::creation(vec![], None), false, &view, 2).unwrap_err(),
        PanicOr::CodeInvariantError(InvariantViolation::UnresolvedIdentifier(4))
    );
}

use block_executor::errors::{InvariantViolation, PanicError};
use block_executor::exchange::{
    does_value_need_exchange, extract_identifiers_from_value, is_valid_value,
    replace_identifiers_with_values, replace_values_with_identifiers,
    TemporaryExtractIdentifiersMapping, TemporaryValueToIdentifierMapping,
};
use block_executor::layout::{
    DelayedFieldValue, DelayedWidth, FieldLayout, IdentifierMappingKind, MoveTypeLayout,
};
use block_executor::view::{LatestView, ReadPosition, VersionedDelayedFields, ID_BLOCK_LEN};
use block_executor::write_op::{StateValueMetadata, WriteOp};
use std::collections::HashSet;

fn aggregator_layout() -> MoveTypeLayout {
    MoveTypeLayout::new(vec![
        FieldLayout::Bool,
        FieldLayout::Delayed(IdentifierMappingKind::Aggregator, DelayedWidth::U64),
        FieldLayout::U8,
    ])
}

fn aggregator_value(flag: u8, n: u64, tail: u8) -> Vec<u8> {
    let mut v = vec![flag];
    v.extend_from_slice(&n.to_le_bytes());
    v.push(tail);
    v
}

fn mixed_layout() -> MoveTypeLayout {
    MoveTypeLayout::new(vec![
        FieldLayout::Delayed(IdentifierMappingKind::Snapshot, DelayedWidth::U128),
        FieldLayout::Address,
        FieldLayout::Delayed(IdentifierMappingKind::Aggregator, DelayedWidth::U64),
        FieldLayout::U16,
    ])
}

fn mixed_value() -> Vec<u8> {
    let mut v = Vec::new();
    v.extend_from_slice(&(7u128 << 80).to_le_bytes());
    v.extend_from_slice(&[9u8; 32]);
    v.extend_from_slice(&123_456u64.to_le_bytes());
    v.extend_from_slice(&[1, 2]);
    v
}

#[test]
fn lifting_replaces_values_with_fresh_identifiers() {
    let mut view = LatestView::new_sequential(5_000_000);
    let bytes = aggregator_value(1, 42, 7);
    let (lifted, ids) =
        replace_values_with_identifiers(&mut view, 0, &bytes, &aggregator_layout()).unwrap();
    assert_eq!(lifted, aggregator_value(1, 5_000_000, 7));
    assert_eq!(ids, HashSet::from([5_000_000u64]));
    assert_eq!(view.counter.next, 5_000_001);
    assert_eq!(
        view.read_delayed_field(5_000_000, 0),
        Some(DelayedFieldValue::Aggregator(42))
    );
}

#[test]
fn round_trip_sequential() {
    let mut view = LatestView::new_sequential(2_000_000);
    let layout = mixed_layout();
    let bytes = mixed_value();
    let (lifted, ids) = replace_values_with_identifiers(&mut view, 3, &bytes, &layout).unwrap();
    assert_ne!(lifted, bytes);
    assert_eq!(ids, HashSet::from([2_000_000u64, 2_000_001]));
    assert_eq!(
        view.read_delayed_field(2_000_000, 3),
        Some(DelayedFieldValue::Snapshot(7u128 << 80))
    );
    let (resolved, touched) = replace_identifiers_with_values(&view, 3, &lifted, &layout).unwrap();
    assert_eq!(resolved, bytes);
    assert_eq!(touched, ids);
}

#[test]
fn round_trip_parallel() {
    let mut view = LatestView::new_parallel(1_500_000_000);
    let layout = mixed_layout();
    let bytes = mixed_value();
    let (lifted, _) = replace_values_with_identifiers(&mut view, 9, &bytes, &layout).unwrap();
    let (resolved, _) = replace_identifiers_with_values(&view, 9, &lifted, &layout).unwrap();
    assert_eq!(resolved, bytes);
}

#[test]
fn resolving_reads_the_latest_committed_value() {
    let mut view = LatestView::new_parallel(1_001_000_000);
    let layout = aggregator_layout();
    let (lifted, ids) =
        replace_values_with_identifiers(&mut view, 5, &aggregator_value(0, 10, 0), &layout)
            .unwrap();
    let x = *ids.iter().next().unwrap();
    view.record_committed_write(x, 3, DelayedFieldValue::Aggregator(77)).unwrap();
    view.record_committed_write(x, 8, DelayedFieldValue::Aggregator(99)).unwrap();
    let (resolved, touched) = replace_identifiers_with_values(&view, 5, &lifted, &layout).unwrap();
    assert_eq!(resolved, aggregator_value(0, 77, 0));
    assert!(touched.contains(&x));
    let (after_all, _) = replace_identifiers_with_values(&view, 8, &lifted, &layout).unwrap();
    assert_eq!(after_all, aggregator_value(0, 99, 0));
}

#[test]
fn unknown_identifier_is_fatal() {
    let view = LatestView::new_sequential(1_000_000);
    let r = replace_identifiers_with_values(&view, 0, &aggregator_value(0, 12, 0), &aggregator_layout());
    assert_eq!(
        r.unwrap_err(),
        PanicError::CodeInvariantError(InvariantViolation::UnresolvedIdentifier(12))
    );
}

#[test]
fn recording_an_unminted_identifier_fails() {
    let mut view = LatestView::new_parallel(1_001_000_000);
    assert_eq!(
        view.record_committed_write(1, 0, DelayedFieldValue::Aggregator(1)),
        Err(PanicError::CodeInvariantError(InvariantViolation::UnresolvedIdentifier(1)))
    );
}

#[test]
fn value_too_wide_for_field_is_fatal() {
    let mut view = LatestView::new_sequential(1_000_000);
    let layout = aggregator_layout();
    let (lifted, _) =
        replace_values_with_identifiers(&mut view, 0, &aggregator_value(0, 1, 0), &layout)
            .unwrap();
    view.record_committed_write(1_000_000, 0, DelayedFieldValue::Snapshot(1u128 << 70)).unwrap();
    assert_eq!(
        replace_identifiers_with_values(&view, 0, &lifted, &layout).unwrap_err(),
        PanicError::CodeInvariantError(InvariantViolation::ValueExceedsWidth(1_000_000))
    );
}

#[test]
fn malformed_bytes_are_rejected() {
    let layout = aggregator_layout();
    let mut view = LatestView::new_sequential(1_000_000);
    let short = vec![0u8; 5];
    let bad_bool = aggregator_value(2, 1, 0);
    let malformed = PanicError::CodeInvariantError(InvariantViolation::MalformedValue);
    assert!(!is_valid_value(&short, &layout));
    assert!(!is_valid_value(&bad_bool, &layout));
    assert!(is_valid_value(&aggregator_value(1, 1, 0), &layout));
    assert_eq!(
        replace_values_with_identifiers(&mut view, 0, &bad_bool, &layout).unwrap_err(),
        malformed
    );
    assert_eq!(view.counter.next, 1_000_000);
    assert_eq!(extract_identifiers_from_value(&short, &layout).unwrap_err(), malformed);
    let mut long = aggregator_value(1, 1, 0);
    long.push(0);
    assert_eq!(
        replace_identifiers_with_values(&view, 0, &long, &layout).unwrap_err(),
        malformed
    );
}

#[test]
fn identifier_space_runs_out() {
    let mut view = LatestView::new_sequential(1_000_000);
    for _ in 0..ID_BLOCK_LEN {
        view.generate_delayed_field_id().unwrap();
    }
    assert_eq!(
        view.generate_delayed_field_id(),
        Err(PanicError::CodeInvariantError(InvariantViolation::IdentifierSpaceExhausted))
    );
    assert_eq!(
        replace_values_with_identifiers(&mut view, 0, &aggregator_value(0, 1, 0), &aggregator_layout())
            .unwrap_err(),
        PanicError::CodeInvariantError(InvariantViolation::IdentifierSpaceExhausted)
    );
}

#[test]
fn extraction_reads_identifiers_without_a_view() {
    let layout = mixed_layout();
    let mut bytes = Vec::new();
    bytes.extend_from_slice(&31u128.to_le_bytes());
    bytes.extend_from_slice(&[0u8; 32]);
    bytes.extend_from_slice(&32u64.to_le_bytes());
    bytes.extend_from_slice(&[0, 0]);
    let ids = extract_identifiers_from_value(&bytes, &layout).unwrap();
    assert_eq!(ids, HashSet::from([31u64, 32]));
    let mut too_big = bytes.clone();
    too_big[15] = 1;
    assert_eq!(
        extract_identifiers_from_value(&too_big, &layout).unwrap_err(),
        PanicError::CodeInvariantError(InvariantViolation::IdentifierOutOfRange)
    );
}

#[test]
fn mappings_record_touched_identifiers() {
    let mut view = LatestView::new_sequential(1_000_000);
    let mut mapping = TemporaryValueToIdentifierMapping::new(0);
    let id = mapping
        .value_to_identifier(&mut view, IdentifierMappingKind::Snapshot, 500)
        .unwrap();
    assert_eq!(id, 1_000_000);
    assert_eq!(mapping.identifier_to_value(&view, DelayedWidth::U64, id as u128), Ok(500));
    assert_eq!(
        mapping.identifier_to_value(&view, DelayedWidth::U64, 1u128 << 64),
        Err(PanicError::CodeInvariantError(InvariantViolation::IdentifierOutOfRange))
    );
    assert_eq!(mapping.into_inner(), HashSet::from([1_000_000u64]));

    let mut extract = TemporaryExtractIdentifiersMapping::new();
    assert_eq!(extract.value_to_identifier(4), Ok(4));
    assert_eq!(extract.identifier_to_value(6), Ok(6));
    assert_eq!(extract.into_inner(), HashSet::from([4u64, 6]));
}

#[test]
fn value_needs_exchange_only_when_identifiers_overlap() {
    let layout = aggregator_layout();
    let metadata = Some(StateValueMetadata { deposit: 3, creation_time_usecs: 4 });
    let value = WriteOp::modification(aggregator_value(0, 17, 0), metadata);
    let overlapping = HashSet::from([17u64, 18]);
    let disjoint = HashSet::from([18u64]);
    match does_value_need_exchange(&value, &layout, &overlapping, 55) {
        Some(Ok((key, (m, l)))) => {
            assert_eq!(key, 55);
            assert_eq!(m, metadata);
            assert_eq!(l.fields, layout.fields);
        },
        other => panic!("unexpected {:?}", other),
    }
    assert!(does_value_need_exchange(&value, &layout, &disjoint, 55).is_none());
    assert!(does_value_need_exchange(&WriteOp::deletion(None), &layout, &overlapping, 55).is_none());
    let broken = WriteOp::modification(vec![1, 2, 3], None);
    assert!(matches!(
        does_value_need_exchange(&broken, &layout, &overlapping, 55),
        Some(Err(_))
    ));
}

#[test]
fn read_positions_select_before_or_after_the_transaction() {
    let mut store = VersionedDelayedFields::new();
    let before = ReadPosition::BeforeCurrentTxn;
    let after = ReadPosition::AfterCurrentTxn;
    store.set_base_value(7, DelayedFieldValue::Aggregator(1));
    store.record_write(7, 2, DelayedFieldValue::Aggregator(20));
    store.record_write(7, 4, DelayedFieldValue::Aggregator(40));
    assert_eq!(store.read_latest_committed_value(7, 2, before), Some(DelayedFieldValue::Aggregator(1)));
    assert_eq!(store.read_latest_committed_value(7, 2, after), Some(DelayedFieldValue::Aggregator(20)));
    assert_eq!(store.read_latest_committed_value(7, 4, before), Some(DelayedFieldValue::Aggregator(20)));
    assert_eq!(store.read_latest_committed_value(7, 9, after), Some(DelayedFieldValue::Aggregator(40)));
    assert_eq!(store.read_latest_committed_value(8, 9, after), None);
}

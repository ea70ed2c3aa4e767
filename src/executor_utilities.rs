use crate::errors::{
    ExecutionError, IntentionalFallbackToSequential, InvariantViolation, PanicError, PanicOr,
    ResourceGroupErrorKind,
};
use crate::exchange::{
    delayed_numbers, lemma_resolution_replaces_every_identifier, replace_identifiers_with_values,
    resolve_bytes,
};
use crate::layout::delayed_count;
use crate::layout::MoveTypeLayout;
use crate::view::LatestView;
use crate::write_op::{ValueWithLayout, WriteOp, WriteOpModel};
use std::collections::BTreeMap;
use vstd::prelude::*;

verus! {

pub open spec fn spec_resource_group_error(kind: ResourceGroupErrorKind) -> PanicOr<
    IntentionalFallbackToSequential,
> {
    PanicOr::Or(IntentionalFallbackToSequential::ResourceGroupError(kind))
}

/// The fallback signal for a resource group that cannot be finalized in parallel.
pub fn resource_group_error(kind: ResourceGroupErrorKind) -> (r: PanicOr<
    IntentionalFallbackToSequential,
>)
    ensures
        r == spec_resource_group_error(kind),
{
    PanicOr::Or(IntentionalFallbackToSequential::ResourceGroupError(kind))
}

/// What checking a finalized group against its metadata gives: the fallback
/// signal for a member only read and exchanged while the group is deleted, or
/// for a group whose emptiness disagrees with its metadata's deletion.
pub open spec fn finalized_group_check(
    is_empty: bool,
    metadata_is_deletion: bool,
    is_read_needing_exchange: bool,
) -> Option<ResourceGroupErrorKind> {
    if is_read_needing_exchange && metadata_is_deletion {
        Some(ResourceGroupErrorKind::ReadOnlyExchangedDeletion)
    } else if is_empty != metadata_is_deletion {
        Some(ResourceGroupErrorKind::EmptinessMismatch { is_empty, is_deletion: metadata_is_deletion })
    } else {
        None
    }
}

/// Checks a finalized resource group against its metadata write: a group may
/// be empty exactly when its metadata deletes it. Any inconsistency, or a
/// failed finalization, is a signal to fall back to sequential execution.
pub fn map_finalized_group<E>(
    group_key: u64,
    finalized_group: Result<Vec<(u64, ValueWithLayout)>, PanicError>,
    metadata_op: WriteOp,
    is_read_needing_exchange: bool,
) -> (r: Result<(u64, WriteOp, Vec<(u64, ValueWithLayout)>), ExecutionError<E>>)
    ensures
        finalized_group is Err ==> r == Err::<(u64, WriteOp, Vec<(u64, ValueWithLayout)>), ExecutionError<E>>(
            ExecutionError::FallbackToSequential(
                spec_resource_group_error(ResourceGroupErrorKind::Finalization),
            ),
        ),
        finalized_group matches Ok(g) ==> match finalized_group_check(
            g@.len() == 0,
            metadata_op@.is_deletion(),
            is_read_needing_exchange,
        ) {
            Some(kind) => r == Err::<(u64, WriteOp, Vec<(u64, ValueWithLayout)>), ExecutionError<E>>(
                ExecutionError::FallbackToSequential(spec_resource_group_error(kind)),
            ),
            None => r == Ok::<(u64, WriteOp, Vec<(u64, ValueWithLayout)>), ExecutionError<E>>(
                (group_key, metadata_op, g),
            ),
        },
        r matches Ok((_, m, g)) ==> (g@.len() == 0) == m@.is_deletion(),
{
    let metadata_is_deletion = metadata_op.is_deletion();
    match finalized_group {
        Ok(finalized_group) => {
            if is_read_needing_exchange && metadata_is_deletion {
                Err(
                    ExecutionError::FallbackToSequential(
                        resource_group_error(ResourceGroupErrorKind::ReadOnlyExchangedDeletion),
                    ),
                )
            } else if (finalized_group.len() == 0) != metadata_is_deletion {
                Err(
                    ExecutionError::FallbackToSequential(
                        resource_group_error(
                            ResourceGroupErrorKind::EmptinessMismatch {
                                is_empty: finalized_group.len() == 0,
                                is_deletion: metadata_is_deletion,
                            },
                        ),
                    ),
                )
            } else {
                Ok((group_key, metadata_op, finalized_group))
            }
        },
        Err(_) => Err(
            ExecutionError::FallbackToSequential(resource_group_error(ResourceGroupErrorKind::Finalization)),
        ),
    }
}

/// A read value turned into a modification whose identifiers are replaced by
/// their values; none for a deletion or where resolution fails.
pub open spec fn replaced_op(v: WriteOpModel, l: Seq<crate::layout::FieldLayout>, view: LatestView, txn_idx: u32) -> Option<WriteOpModel> {
    if v.is_deletion() {
        None
    } else {
        match resolve_bytes(view, txn_idx, l, v.bytes) {
            Some(nb) => Some(v.as_modification().with_bytes(nb)),
            None => None,
        }
    }
}

/// Turns `value` into a modification whose identifiers are replaced by their
/// values, as transaction `txn_idx` sees them.
pub fn replace_ids_with_values(
    value: &WriteOp,
    layout: &MoveTypeLayout,
    latest_view: &LatestView,
    txn_idx: u32,
) -> (r: Result<WriteOp, PanicError>)
    ensures
        r is Ok <==> replaced_op(value@, layout@, *latest_view, txn_idx) is Some,
        value@.is_deletion() ==> r == Err::<WriteOp, PanicError>(
            PanicError::CodeInvariantError(InvariantViolation::NotModification),
        ),
        r matches Ok(w) ==> replaced_op(value@, layout@, *latest_view, txn_idx) == Some(w@),
{
    match value.convert_read_to_modification() {
        Some(mut value) => match value.bytes() {
            Some(value_bytes) => {
                match replace_identifiers_with_values(latest_view, txn_idx, value_bytes, layout) {
                    Ok((patched_bytes, _)) => {
                        value.set_bytes(patched_bytes);
                        Ok(value)
                    },
                    Err(e) => Err(e),
                }
            },
            None => Err(PanicError::CodeInvariantError(InvariantViolation::NotModification)),
        },
        None => Err(PanicError::CodeInvariantError(InvariantViolation::NotModification)),
    }
}

/// The write that a value of a group resolves to: raw and layout-free values
/// as they are, others with their identifiers replaced.
pub open spec fn patched_value(v: ValueWithLayout, view: LatestView, txn_idx: u32) -> Option<WriteOpModel> {
    match v {
        ValueWithLayout::RawFromStorage(w) => Some(w@),
        ValueWithLayout::Exchanged(w, None) => Some(w@),
        ValueWithLayout::Exchanged(w, Some(l)) => replaced_op(w@, l@, view, txn_idx),
    }
}

pub open spec fn members_patchable(m: Seq<(u64, ValueWithLayout)>, view: LatestView, txn_idx: u32) -> bool {
    forall|j: int| 0 <= j < m.len() ==> #[trigger] patched_value(m[j].1, view, txn_idx) is Some
}

pub open spec fn members_patched(
    m: Seq<(u64, ValueWithLayout)>,
    out: Seq<(u64, WriteOp)>,
    view: LatestView,
    txn_idx: u32,
) -> bool {
    &&& out.len() == m.len()
    &&& forall|j: int|
        0 <= j < m.len() ==> #[trigger] out[j].0 == m[j].0 && patched_value(m[j].1, view, txn_idx)
            == Some(out[j].1@)
}

fn patch_value(v: &ValueWithLayout, latest_view: &LatestView, txn_idx: u32) -> (r: Result<WriteOp, PanicError>)
    ensures
        r is Ok <==> patched_value(*v, *latest_view, txn_idx) is Some,
        r matches Ok(w) ==> patched_value(*v, *latest_view, txn_idx) == Some(w@),
{
    match v {
        ValueWithLayout::RawFromStorage(w) => Ok(w.duplicate()),
        ValueWithLayout::Exchanged(w, None) => Ok(w.duplicate()),
        ValueWithLayout::Exchanged(w, Some(layout)) => replace_ids_with_values(w, layout, latest_view, txn_idx),
    }
}

fn patch_members(members: &Vec<(u64, ValueWithLayout)>, latest_view: &LatestView, txn_idx: u32) -> (r: Result<Vec<(u64, WriteOp)>, PanicError>)
    ensures
        r is Ok <==> members_patchable(members@, *latest_view, txn_idx),
        r matches Ok(out) ==> members_patched(members@, out@, *latest_view, txn_idx),
{
    let mut out: Vec<(u64, WriteOp)> = Vec::new();
    let mut j: usize = 0;
    while j < members.len()
        invariant
            j <= members@.len(),
            members_patched(members@.take(j as int), out@, *latest_view, txn_idx),
            members_patchable(members@.take(j as int), *latest_view, txn_idx),
        decreases members@.len() - j,
    {
        let (tag, v) = &members[j];
        let ghost out0 = out@;
        match patch_value(v, latest_view, txn_idx) {
            Ok(w) => {
                let ghost wm = w@;
                out.push((*tag, w));
                proof {
                    assert(out@[j as int].0 == members@[j as int].0);
                    assert(out@[j as int].1@ == wm);
                    assert(patched_value(members@[j as int].1, *latest_view, txn_idx) == Some(wm));
                    assert forall|jj: int| 0 <= jj < j implies out@[jj] == out0[jj] by {}
                }
            },
            Err(e) => {
                proof {
                    assert(patched_value(members@[j as int].1, *latest_view, txn_idx) is None);
                }
                return Err(e);
            },
        }
        proof {
            let mt = members@.take(j as int + 1);
            assert forall|jj: int| 0 <= jj < mt.len() implies #[trigger] out@[jj].0 == mt[jj].0
                && patched_value(mt[jj].1, *latest_view, txn_idx) == Some(out@[jj].1@) by {
                if jj < j {
                    assert(members@.take(j as int)[jj] == mt[jj]);
                    assert(out@[jj] == out0[jj]);
                } else {
                    assert(mt[jj] == members@[j as int]);
                }
            }
            assert forall|jj: int| 0 <= jj < mt.len() implies #[trigger] patched_value(mt[jj].1, *latest_view, txn_idx) is Some by {
                if jj < j {
                    assert(members@.take(j as int)[jj] == mt[jj]);
                }
            }
        }
        j = j + 1;
    }
    proof {
        assert(members@.take(j as int) =~= members@);
    }
    Ok(out)
}

pub open spec fn groups_patchable(g: Seq<(u64, WriteOp, Vec<(u64, ValueWithLayout)>)>, view: LatestView, txn_idx: u32) -> bool {
    forall|i: int| 0 <= i < g.len() ==> #[trigger] members_patchable(g[i].2@, view, txn_idx)
}

pub open spec fn groups_patched(
    g: Seq<(u64, WriteOp, Vec<(u64, ValueWithLayout)>)>,
    out: Seq<(u64, WriteOp, Vec<(u64, WriteOp)>)>,
    view: LatestView,
    txn_idx: u32,
) -> bool {
    &&& out.len() == g.len()
    &&& forall|i: int|
        0 <= i < g.len() ==> #[trigger] out[i].0 == g[i].0 && out[i].1@ == g[i].1@ && members_patched(
            g[i].2@,
            out[i].2@,
            view,
            txn_idx,
        )
}

/// Resolves every value of every finalized group: raw values and values
/// without delayed fields as they are, the others with their identifiers
/// replaced by their values. Group keys, metadata writes and tags are kept.
pub fn map_id_to_values_in_group_writes(
    finalized_groups: Vec<(u64, WriteOp, Vec<(u64, ValueWithLayout)>)>,
    latest_view: &LatestView,
    txn_idx: u32,
) -> (r: Result<Vec<(u64, WriteOp, Vec<(u64, WriteOp)>)>, PanicError>)
    ensures
        r is Ok <==> groups_patchable(finalized_groups@, *latest_view, txn_idx),
        r matches Ok(out) ==> groups_patched(finalized_groups@, out@, *latest_view, txn_idx),
{
    let mut patched_finalized_groups: Vec<(u64, WriteOp, Vec<(u64, WriteOp)>)> = Vec::new();
    let mut i: usize = 0;
    while i < finalized_groups.len()
        invariant
            i <= finalized_groups@.len(),
            groups_patched(finalized_groups@.take(i as int), patched_finalized_groups@, *latest_view, txn_idx),
            groups_patchable(finalized_groups@.take(i as int), *latest_view, txn_idx),
        decreases finalized_groups@.len() - i,
    {
        let (group_key, group_metadata_op, resource_vec) = &finalized_groups[i];
        match patch_members(resource_vec, latest_view, txn_idx) {
            Ok(patched_resource_vec) => {
                patched_finalized_groups.push((*group_key, group_metadata_op.duplicate(), patched_resource_vec));
            },
            Err(e) => {
                proof {
                    assert(!members_patchable(finalized_groups@[i as int].2@, *latest_view, txn_idx));
                }
                return Err(e);
            },
        }
        proof {
            let gt = finalized_groups@.take(i as int + 1);
            let out = patched_finalized_groups@;
            assert forall|ii: int| 0 <= ii < gt.len() implies #[trigger] out[ii].0 == gt[ii].0 && out[ii].1@ == gt[ii].1@ && members_patched(gt[ii].2@, out[ii].2@, *latest_view, txn_idx) by {
                if ii < i {
                    assert(finalized_groups@.take(i as int)[ii] == gt[ii]);
                }
            }
            assert forall|ii: int| 0 <= ii < gt.len() implies #[trigger] members_patchable(gt[ii].2@, *latest_view, txn_idx) by {
                if ii < i {
                    assert(finalized_groups@.take(i as int)[ii] == gt[ii]);
                }
            }
        }
        i = i + 1;
    }
    proof {
        assert(finalized_groups@.take(i as int) =~= finalized_groups@);
    }
    Ok(patched_finalized_groups)
}

/// The write that one entry of a resource write set resolves to: a write with
/// delayed fields that is not a deletion has its identifiers replaced by their
/// values; the others stay as they are.
pub open spec fn patched_write(w: WriteOp, layout: Option<MoveTypeLayout>, view: LatestView, txn_idx: u32) -> Option<WriteOpModel> {
    match layout {
        Some(l) => if w@.is_deletion() {
            Some(w@)
        } else {
            match resolve_bytes(view, txn_idx, l@, w@.bytes) {
                Some(nb) => Some(w@.with_bytes(nb)),
                None => None,
            }
        },
        None => Some(w@),
    }
}

pub open spec fn write_set_patchable(s: Seq<(u64, (WriteOp, Option<MoveTypeLayout>))>, view: LatestView, txn_idx: u32) -> bool {
    forall|i: int| 0 <= i < s.len() ==> #[trigger] patched_write(s[i].1.0, s[i].1.1, view, txn_idx) is Some
}

/// The patched write set keyed by resource key; of two entries for one key,
/// the later one stands.
pub open spec fn patched_write_set(s: Seq<(u64, (WriteOp, Option<MoveTypeLayout>))>, view: LatestView, txn_idx: u32) -> Map<u64, WriteOpModel>
    decreases s.len(),
{
    if s.len() == 0 {
        Map::empty()
    } else {
        let e = s.last();
        patched_write_set(s.drop_last(), view, txn_idx).insert(e.0, patched_write(e.1.0, e.1.1, view, txn_idx)->Some_0)
    }
}

/// A map of writes whose models are `m`.
pub open spec fn models_match(r: Map<u64, WriteOp>, m: Map<u64, WriteOpModel>) -> bool {
    &&& r.dom() == m.dom()
    &&& forall|k: u64| #[trigger] r.contains_key(k) ==> r[k]@ == m[k]
}

/// Replaces, in every write of a resource write set that carries delayed
/// fields and is not a deletion, the identifiers by their values; the other
/// writes pass through unchanged. The result is keyed by resource key.
pub fn map_id_to_values_in_write_set(
    resource_write_set: Vec<(u64, (WriteOp, Option<MoveTypeLayout>))>,
    latest_view: &LatestView,
    txn_idx: u32,
) -> (r: Result<BTreeMap<u64, WriteOp>, PanicError>)
    ensures
        r is Ok <==> write_set_patchable(resource_write_set@, *latest_view, txn_idx),
        r matches Ok(m) ==> models_match(m@, patched_write_set(resource_write_set@, *latest_view, txn_idx)),
{
    let ghost s = resource_write_set@;
    let mut patched_resource_write_set: BTreeMap<u64, WriteOp> = BTreeMap::new();
    let mut i: usize = 0;
    proof {
        assert(s.take(0) =~= Seq::<(u64, (WriteOp, Option<MoveTypeLayout>))>::empty());
        assert(patched_resource_write_set@.dom() =~= Set::<u64>::empty());
    }
    while i < resource_write_set.len()
        invariant
            s == resource_write_set@,
            i <= s.len(),
            write_set_patchable(s.take(i as int), *latest_view, txn_idx),
            models_match(patched_resource_write_set@, patched_write_set(s.take(i as int), *latest_view, txn_idx)),
        decreases s.len() - i,
    {
        let (key, (write_op, layout)) = &resource_write_set[i];
        let ghost m0 = patched_resource_write_set@;
        let patched = match layout {
            Some(layout) => if !write_op.is_deletion() {
                match write_op.bytes() {
                    Some(write_op_bytes) => match replace_identifiers_with_values(latest_view, txn_idx, write_op_bytes, layout) {
                        Ok((patched_bytes, _)) => {
                            let mut patched_write_op = write_op.duplicate();
                            patched_write_op.set_bytes(patched_bytes);
                            patched_write_op
                        },
                        Err(e) => {
                            proof {
                                assert(patched_write(s[i as int].1.0, s[i as int].1.1, *latest_view, txn_idx) is None);
                            }
                            return Err(e);
                        },
                    },
                    None => {
                        return Err(PanicError::CodeInvariantError(InvariantViolation::NotModification));
                    },
                }
            } else {
                write_op.duplicate()
            },
            None => write_op.duplicate(),
        };
        proof {
            assert(patched_write(s[i as int].1.0, s[i as int].1.1, *latest_view, txn_idx) == Some(patched@));
        }
        patched_resource_write_set.insert(*key, patched);
        proof {
            let st = s.take(i as int + 1);
            assert(st.drop_last() =~= s.take(i as int));
            assert(st.last() == s[i as int]);
            let pm = patched_write_set(st, *latest_view, txn_idx);
            assert(patched_resource_write_set@.dom() =~= pm.dom());
            assert forall|jj: int| 0 <= jj < st.len() implies #[trigger] patched_write(st[jj].1.0, st[jj].1.1, *latest_view, txn_idx) is Some by {
                if jj < i {
                    assert(s.take(i as int)[jj] == st[jj]);
                }
            }
        }
        i = i + 1;
    }
    proof {
        assert(s.take(i as int) =~= s);
    }
    Ok(patched_resource_write_set)
}

/// The BCS bytes of a map from tags to byte strings.
pub uninterp spec fn bcs_tag_map_bytes(m: Map<u64, Seq<u8>>) -> Seq<u8>;

/// BCS refuses sequences longer than this.
pub const MAX_SEQUENCE_LENGTH: usize = 2147483647;

pub open spec fn byte_strings(m: Map<u64, Vec<u8>>) -> Map<u64, Seq<u8>> {
    m.map_values(|v: Vec<u8>| v@)
}

/// Every sequence in the map is short enough for BCS.
pub open spec fn within_bcs_limits(m: Map<u64, Seq<u8>>) -> bool {
    &&& m.len() <= MAX_SEQUENCE_LENGTH
    &&& forall|k: u64| #[trigger] m.contains_key(k) ==> m[k].len() <= MAX_SEQUENCE_LENGTH
}

#[verifier::external_type_specification]
#[verifier::external_body]
pub struct ExBcsError(bcs::Error);

/// Relies on `bcs::to_bytes` on a `BTreeMap<u64, Vec<u8>>`: it fails exactly
/// when the map, or one of its byte strings, has more than
/// `MAX_SEQUENCE_LENGTH` elements; otherwise the bytes depend on the map alone.
#[verifier::external_body]
fn bcs_serialize_tag_map(m: &BTreeMap<u64, Vec<u8>>) -> (r: Result<Vec<u8>, bcs::Error>)
    ensures
        r is Ok <==> within_bcs_limits(byte_strings(m@)),
        r matches Ok(b) ==> b@ == bcs_tag_map_bytes(byte_strings(m@)),
{
    bcs::to_bytes(m)
}

/// The members of a group keyed by tag; of two members with one tag, the
/// later one stands.
pub open spec fn tag_map(members: Seq<(u64, WriteOp)>) -> Map<u64, Seq<u8>>
    decreases members.len(),
{
    if members.len() == 0 {
        Map::empty()
    } else {
        tag_map(members.drop_last()).insert(members.last().0, members.last().1@.bytes)
    }
}

pub open spec fn has_deleted_member(members: Seq<(u64, WriteOp)>) -> bool {
    exists|j: int| 0 <= j < members.len() && #[trigger] members[j].1@.is_deletion()
}

/// Why a finalized group cannot be serialized, if it cannot.
pub open spec fn group_serialization_error(members: Seq<(u64, WriteOp)>) -> Option<PanicOr<IntentionalFallbackToSequential>> {
    if has_deleted_member(members) {
        Some(PanicOr::CodeInvariantError(InvariantViolation::DeletionInGroup))
    } else if !within_bcs_limits(tag_map(members)) {
        Some(spec_resource_group_error(ResourceGroupErrorKind::Serialization))
    } else {
        None
    }
}

/// The blob of a group: its members' bytes keyed by tag, in BCS.
pub open spec fn group_blob(members: Seq<(u64, WriteOp)>) -> Seq<u8> {
    bcs_tag_map_bytes(tag_map(members))
}

fn serialize_group(members: &Vec<(u64, WriteOp)>) -> (r: Result<Vec<u8>, PanicOr<IntentionalFallbackToSequential>>)
    ensures
        match group_serialization_error(members@) {
            Some(e) => r == Err::<Vec<u8>, PanicOr<IntentionalFallbackToSequential>>(e),
            None => r matches Ok(b) && b@ == group_blob(members@),
        },
{
    let mut btree: BTreeMap<u64, Vec<u8>> = BTreeMap::new();
    let mut j: usize = 0;
    proof {
        assert(members@.take(0) =~= Seq::<(u64, WriteOp)>::empty());
        assert(byte_strings(btree@) =~= Map::<u64, Seq<u8>>::empty());
    }
    while j < members.len()
        invariant
            j <= members@.len(),
            byte_strings(btree@) == tag_map(members@.take(j as int)),
            !has_deleted_member(members@.take(j as int)),
        decreases members@.len() - j,
    {
        let (resource_tag, v) = &members[j];
        let bytes = match v.extract_raw_bytes() {
            Some(bytes) => bytes,
            None => {
                proof {
                    assert(members@[j as int].1@.is_deletion());
                }
                return Err(PanicOr::CodeInvariantError(InvariantViolation::DeletionInGroup));
            },
        };
        btree.insert(*resource_tag, bytes);
        proof {
            let mt = members@.take(j as int + 1);
            assert(mt.drop_last() =~= members@.take(j as int));
            assert(byte_strings(btree@) =~= tag_map(mt));
            if has_deleted_member(mt) {
                let jj = choose|jj: int| 0 <= jj < mt.len() && #[trigger] mt[jj].1@.is_deletion();
                if jj < j {
                    assert(members@.take(j as int)[jj] == mt[jj]);
                }
            }
        }
        j = j + 1;
    }
    proof {
        assert(members@.take(j as int) =~= members@);
    }
    match bcs_serialize_tag_map(&btree) {
        Ok(group_bytes) => Ok(group_bytes),
        Err(_) => Err(resource_group_error(ResourceGroupErrorKind::Serialization)),
    }
}

/// The first group, in order, that cannot be serialized is at `i`.
pub open spec fn first_unserializable(g: Seq<(u64, WriteOp, Vec<(u64, WriteOp)>)>, i: int) -> bool {
    &&& 0 <= i < g.len()
    &&& group_serialization_error(g[i].2@) is Some
    &&& forall|j: int| 0 <= j < i ==> #[trigger] group_serialization_error(g[j].2@) is None
}

/// Serializes each finalized group into its metadata write: the members'
/// bytes, keyed by tag in their canonical order, become the group's blob.
/// The first group that cannot be serialized stops the whole with its error.
pub fn serialize_groups(finalized_groups: Vec<(u64, WriteOp, Vec<(u64, WriteOp)>)>) -> (r: Result<Vec<(u64, WriteOp)>, PanicOr<IntentionalFallbackToSequential>>)
    ensures
        r is Ok <==> forall|i: int| 0 <= i < finalized_groups@.len() ==> #[trigger] group_serialization_error(finalized_groups@[i].2@) is None,
        r matches Err(e) ==> exists|i: int| first_unserializable(finalized_groups@, i) && group_serialization_error(finalized_groups@[i].2@) == Some(e),
        r matches Ok(out) ==> out@.len() == finalized_groups@.len() && forall|i: int| 0 <= i < out@.len() ==> #[trigger] out@[i].0 == finalized_groups@[i].0 && out@[i].1@ == finalized_groups@[i].1@.with_bytes(group_blob(finalized_groups@[i].2@)),
{
    let ghost g = finalized_groups@;
    let mut out: Vec<(u64, WriteOp)> = Vec::new();
    let mut i: usize = 0;
    while i < finalized_groups.len()
        invariant
            g == finalized_groups@,
            i <= g.len(),
            out@.len() == i,
            forall|j: int| 0 <= j < i ==> #[trigger] group_serialization_error(g[j].2@) is None,
            forall|j: int| 0 <= j < i ==> #[trigger] out@[j].0 == g[j].0 && out@[j].1@ == g[j].1@.with_bytes(group_blob(g[j].2@)),
        decreases g.len() - i,
    {
        let (group_key, metadata_op, finalized_group) = &finalized_groups[i];
        match serialize_group(finalized_group) {
            Ok(group_bytes) => {
                let mut metadata_op = metadata_op.duplicate();
                metadata_op.set_bytes(group_bytes);
                out.push((*group_key, metadata_op));
            },
            Err(e) => {
                proof {
                    assert(first_unserializable(g, i as int));
                }
                return Err(e);
            },
        }
        i = i + 1;
    }
    Ok(out)
}

/// The members of a group, resolved, keyed by tag; of two members with one
/// tag, the later one stands.
pub open spec fn resolved_tag_map(m: Seq<(u64, ValueWithLayout)>, view: LatestView, txn_idx: u32) -> Map<u64, Seq<u8>>
    decreases m.len(),
{
    if m.len() == 0 {
        Map::empty()
    } else {
        resolved_tag_map(m.drop_last(), view, txn_idx).insert(
            m.last().0,
            patched_value(m.last().1, view, txn_idx)->Some_0.bytes,
        )
    }
}

/// Some resolved member of the group is a deletion.
pub open spec fn resolves_to_deletion(m: Seq<(u64, ValueWithLayout)>, view: LatestView, txn_idx: u32) -> bool {
    exists|j: int| 0 <= j < m.len() && (#[trigger] patched_value(m[j].1, view, txn_idx))->Some_0.is_deletion()
}

proof fn lemma_tag_map_of_patched(
    m: Seq<(u64, ValueWithLayout)>,
    out: Seq<(u64, WriteOp)>,
    view: LatestView,
    txn_idx: u32,
)
    requires
        members_patched(m, out, view, txn_idx),
    ensures
        tag_map(out) == resolved_tag_map(m, view, txn_idx),
        has_deleted_member(out) == resolves_to_deletion(m, view, txn_idx),
    decreases m.len(),
{
    if m.len() > 0 {
        let md = m.drop_last();
        let od = out.drop_last();
        assert forall|j: int| 0 <= j < md.len() implies #[trigger] od[j].0 == md[j].0 && patched_value(md[j].1, view, txn_idx) == Some(od[j].1@) by {
            assert(out[j].0 == m[j].0);
        }
        lemma_tag_map_of_patched(md, od, view, txn_idx);
        assert(out[out.len() - 1].0 == m[m.len() - 1].0);
        if has_deleted_member(out) {
            let j = choose|j: int| 0 <= j < out.len() && #[trigger] out[j].1@.is_deletion();
            assert(out[j].0 == m[j].0);
            assert(patched_value(m[j].1, view, txn_idx) == Some(out[j].1@));
        }
        if resolves_to_deletion(m, view, txn_idx) {
            let j = choose|j: int| 0 <= j < m.len() && (#[trigger] patched_value(m[j].1, view, txn_idx))->Some_0.is_deletion();
            assert(out[j].0 == m[j].0);
            assert(patched_value(m[j].1, view, txn_idx) == Some(out[j].1@));
        }
    }
}

/// Finalizes one resource group: checks it against its metadata write,
/// resolves its members' identifiers, and writes the members' bytes, keyed by
/// tag, into the metadata write as the group's blob.
pub fn finalize_group(
    group_key: u64,
    members: Vec<(u64, ValueWithLayout)>,
    metadata_op: WriteOp,
    is_read_needing_exchange: bool,
    latest_view: &LatestView,
    txn_idx: u32,
) -> (r: Result<(u64, WriteOp), PanicOr<IntentionalFallbackToSequential>>)
    ensures
        finalized_group_check(members@.len() == 0, metadata_op@.is_deletion(), is_read_needing_exchange) matches Some(kind)
            ==> r == Err::<(u64, WriteOp), PanicOr<IntentionalFallbackToSequential>>(spec_resource_group_error(kind)),
        finalized_group_check(members@.len() == 0, metadata_op@.is_deletion(), is_read_needing_exchange) is None ==> {
            let resolved = resolved_tag_map(members@, *latest_view, txn_idx);
            &&& !members_patchable(members@, *latest_view, txn_idx) ==> (r matches Err(PanicOr::CodeInvariantError(_)))
            &&& members_patchable(members@, *latest_view, txn_idx) && resolves_to_deletion(members@, *latest_view, txn_idx)
                ==> r == Err::<(u64, WriteOp), PanicOr<IntentionalFallbackToSequential>>(
                PanicOr::CodeInvariantError(InvariantViolation::DeletionInGroup),
            )
            &&& members_patchable(members@, *latest_view, txn_idx) && !resolves_to_deletion(members@, *latest_view, txn_idx)
                && !within_bcs_limits(resolved) ==> r == Err::<(u64, WriteOp), PanicOr<IntentionalFallbackToSequential>>(
                spec_resource_group_error(ResourceGroupErrorKind::Serialization),
            )
            &&& members_patchable(members@, *latest_view, txn_idx) && !resolves_to_deletion(members@, *latest_view, txn_idx)
                && within_bcs_limits(resolved) ==> (r matches Ok((k, w)) && k == group_key && w@
                == metadata_op@.with_bytes(bcs_tag_map_bytes(resolved)))
        },
{
    let ghost m = members@;
    let ghost md = metadata_op@;
    let (group_key, metadata_op, members) = match map_finalized_group::<PanicError>(
        group_key,
        Ok(members),
        metadata_op,
        is_read_needing_exchange,
    ) {
        Ok(checked) => checked,
        Err(ExecutionError::FallbackToSequential(e)) => {
            return Err(e);
        },
        Err(ExecutionError::UserError(PanicError::CodeInvariantError(v))) => {
            return Err(PanicOr::CodeInvariantError(v));
        },
    };
    let patched = match patch_members(&members, latest_view, txn_idx) {
        Ok(patched) => patched,
        Err(PanicError::CodeInvariantError(v)) => {
            return Err(PanicOr::CodeInvariantError(v));
        },
    };
    proof {
        lemma_tag_map_of_patched(m, patched@, *latest_view, txn_idx);
    }
    match serialize_group(&patched) {
        Ok(group_bytes) => {
            let mut metadata_op = metadata_op;
            metadata_op.set_bytes(group_bytes);
            Ok((group_key, metadata_op))
        },
        Err(e) => Err(e),
    }
}

/// The groups a transaction finalizes, in order: those whose metadata it
/// writes, flagged `false`, then those it only read but whose values need
/// exchange, flagged `true`.
pub fn groups_to_finalize(
    group_write_ops: Vec<(u64, WriteOp)>,
    group_reads_needing_exchange: Vec<(u64, WriteOp)>,
) -> (r: Vec<((u64, WriteOp), bool)>)
    ensures
        r@.len() == group_write_ops@.len() + group_reads_needing_exchange@.len(),
        forall|i: int|
            0 <= i < group_write_ops@.len() ==> #[trigger] r@[i].0.0 == group_write_ops@[i].0
                && r@[i].0.1@ == group_write_ops@[i].1@ && !r@[i].1,
        forall|i: int|
            0 <= i < group_reads_needing_exchange@.len() ==> #[trigger] r@[group_write_ops@.len()
                + i].0.0 == group_reads_needing_exchange@[i].0 && r@[group_write_ops@.len()
                + i].0.1@ == group_reads_needing_exchange@[i].1@ && r@[group_write_ops@.len() + i].1,
{
    let mut r: Vec<((u64, WriteOp), bool)> = Vec::new();
    let n = group_write_ops.len();
    let mut i: usize = 0;
    while i < n
        invariant
            n == group_write_ops@.len(),
            i <= n,
            r@.len() == i,
            forall|j: int|
                0 <= j < i ==> #[trigger] r@[j].0.0 == group_write_ops@[j].0 && r@[j].0.1@
                    == group_write_ops@[j].1@ && !r@[j].1,
        decreases n - i,
    {
        let key = group_write_ops[i].0;
        let op = group_write_ops[i].1.duplicate();
        let ghost r0 = r@;
        r.push(((key, op), false));
        proof {
            assert forall|j: int| 0 <= j < i + 1 implies #[trigger] r@[j].0.0 == group_write_ops@[j].0
                && r@[j].0.1@ == group_write_ops@[j].1@ && !r@[j].1 by {
                if j < i {
                    assert(r@[j] == r0[j]);
                }
            }
        }
        i = i + 1;
    }
    let m = group_reads_needing_exchange.len();
    let mut j: usize = 0;
    while j < m
        invariant
            n == group_write_ops@.len(),
            m == group_reads_needing_exchange@.len(),
            j <= m,
            r@.len() == n + j,
            forall|k: int|
                0 <= k < n ==> #[trigger] r@[k].0.0 == group_write_ops@[k].0 && r@[k].0.1@
                    == group_write_ops@[k].1@ && !r@[k].1,
            forall|k: int|
                0 <= k < j ==> #[trigger] r@[n + k].0.0 == group_reads_needing_exchange@[k].0
                    && r@[n + k].0.1@ == group_reads_needing_exchange@[k].1@ && r@[n + k].1,
        decreases m - j,
    {
        let key = group_reads_needing_exchange[j].0;
        let op = group_reads_needing_exchange[j].1.duplicate();
        let ghost r0 = r@;
        r.push(((key, op), true));
        proof {
            assert forall|k: int| 0 <= k < n implies #[trigger] r@[k].0.0 == group_write_ops@[k].0
                && r@[k].0.1@ == group_write_ops@[k].1@ && !r@[k].1 by {
                assert(r@[k] == r0[k]);
            }
            assert forall|k: int| 0 <= k < j + 1 implies #[trigger] r@[n + k].0.0
                == group_reads_needing_exchange@[k].0 && r@[n + k].0.1@
                == group_reads_needing_exchange@[k].1@ && r@[n + k].1 by {
                if k < j {
                    assert(r@[n + k] == r0[n + k]);
                }
            }
        }
        j = j + 1;
    }
    r
}

/// A patched write that carried delayed fields holds no identifier any more:
/// its `k`-th delayed field holds the number that the identifier in the
/// `k`-th delayed field of the write before patching resolves to.
pub proof fn lemma_patched_write_holds_values(
    w: WriteOp,
    layout: MoveTypeLayout,
    view: LatestView,
    txn_idx: u32,
)
    requires
        !w@.is_deletion(),
        patched_write(w, Some(layout), view, txn_idx) is Some,
    ensures
        ({
            let before = w@.bytes;
            let after = patched_write(w, Some(layout), view, txn_idx)->Some_0.bytes;
            forall|k: int|
                0 <= k < delayed_count(layout@) ==> {
                    let id = #[trigger] delayed_numbers(layout@, before)[k];
                    &&& id <= u64::MAX
                    &&& view.value_of(id as u64, txn_idx) matches Some(v)
                        && delayed_numbers(layout@, after)[k] == v.number() as nat
                }
        }),
{
    let out = resolve_bytes(view, txn_idx, layout@, w@.bytes)->Some_0;
    lemma_resolution_replaces_every_identifier(view, txn_idx, layout@, w@.bytes, out);
}

} // verus!

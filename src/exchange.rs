use crate::encoding::{
    le_bytes, le_value, lemma_le_bytes_len, lemma_le_bytes_of_value, lemma_le_value_bound,
    lemma_le_value_of_bytes, lemma_pow256_monotone,
    lemma_pow256_values, pow256, push_le, read_le,
};
use crate::errors::{InvariantViolation, PanicError};
use crate::layout::{
    chunk_ok, delayed_count, is_delayed, field_width, field_width_of, is_valid_encoding, layout_width,
    lemma_layout_width_step, lemma_map_fields_len, lemma_map_fields_prefix, lemma_map_fields_step,
    map_fields, width_bytes, DelayedFieldValue, DelayedWidth, FieldLayout, IdentifierMappingKind,
    MoveTypeLayout,
};
use crate::view::LatestView;
use crate::write_op::{StateValueMetadata, WriteOp};
use std::collections::HashSet;
use vstd::prelude::*;

verus! {

broadcast use vstd::std_specs::hash::group_hash_axioms;

/// The field-by-field rewrite that only checks the bytes.
pub open spec fn field_check() -> spec_fn(FieldLayout, Seq<u8>, nat) -> Option<Seq<u8>> {
    |f: FieldLayout, c: Seq<u8>, k: nat| Some(c)
}

/// The identifier that a delayed field's bytes hold, where the number fits one.
pub open spec fn chunk_identifier(c: Seq<u8>) -> Option<u64> {
    if le_value(c) <= u64::MAX {
        Some(le_value(c) as u64)
    } else {
        None
    }
}

/// Lifting: the `k`-th delayed field of a value receives identifier `first + k`.
pub open spec fn lift_chunk(first: u64, f: FieldLayout, c: Seq<u8>, k: nat) -> Option<Seq<u8>> {
    match f {
        FieldLayout::Delayed(_, w) => Some(le_bytes((first + k) as nat, width_bytes(w))),
        _ => Some(c),
    }
}

pub open spec fn lifter(first: u64) -> spec_fn(FieldLayout, Seq<u8>, nat) -> Option<Seq<u8>> {
    |f: FieldLayout, c: Seq<u8>, k: nat| lift_chunk(first, f, c, k)
}

/// The bytes of a value whose delayed fields, in order, were replaced by the
/// identifiers `first`, `first + 1`, ...
pub open spec fn lift_bytes(l: Seq<FieldLayout>, b: Seq<u8>, first: u64) -> Option<Seq<u8>> {
    map_fields(l, b, lifter(first))
}

/// Resolving: a delayed field's identifier is replaced by the bytes of the
/// value it resolves to, which must exist and fit the field's width.
pub open spec fn resolve_chunk(view: LatestView, txn_idx: u32, f: FieldLayout, c: Seq<u8>) -> Option<
    Seq<u8>,
> {
    match f {
        FieldLayout::Delayed(_, w) => match chunk_identifier(c) {
            None => None,
            Some(id) => match view.value_of(id, txn_idx) {
                None => None,
                Some(v) => if (v.number() as nat) < pow256(width_bytes(w)) {
                    Some(le_bytes(v.number() as nat, width_bytes(w)))
                } else {
                    None
                },
            },
        },
        _ => Some(c),
    }
}

pub open spec fn resolver(view: LatestView, txn_idx: u32) -> spec_fn(FieldLayout, Seq<u8>, nat) -> Option<
    Seq<u8>,
> {
    |f: FieldLayout, c: Seq<u8>, k: nat| resolve_chunk(view, txn_idx, f, c)
}

/// The bytes of a value with every identifier replaced by its value, as
/// transaction `txn_idx` sees it through `view`.
pub open spec fn resolve_bytes(view: LatestView, txn_idx: u32, l: Seq<FieldLayout>, b: Seq<u8>) -> Option<
    Seq<u8>,
> {
    map_fields(l, b, resolver(view, txn_idx))
}

/// Extraction: a delayed field must hold an identifier; bytes stay as they are.
pub open spec fn extract_chunk(f: FieldLayout, c: Seq<u8>) -> Option<Seq<u8>> {
    match f {
        FieldLayout::Delayed(_, _) => if chunk_identifier(c) is Some {
            Some(c)
        } else {
            None
        },
        _ => Some(c),
    }
}

pub open spec fn extractor() -> spec_fn(FieldLayout, Seq<u8>, nat) -> Option<Seq<u8>> {
    |f: FieldLayout, c: Seq<u8>, k: nat| extract_chunk(f, c)
}

/// Bytes from which every delayed field's identifier can be read.
pub open spec fn is_extractable(l: Seq<FieldLayout>, b: Seq<u8>) -> bool {
    map_fields(l, b, extractor()) is Some
}

/// The bytes of the last field of `l` within `b`.
pub open spec fn last_chunk(l: Seq<FieldLayout>, b: Seq<u8>) -> Seq<u8> {
    b.skip(b.len() - field_width(l.last()))
}

/// The bytes of all fields of `l` but the last, within `b`.
pub open spec fn init_bytes(l: Seq<FieldLayout>, b: Seq<u8>) -> Seq<u8> {
    b.take(b.len() - field_width(l.last()))
}

/// The values that the delayed fields of bytes `b` hold, in order, each read
/// under its field's kind.
pub open spec fn delayed_values(l: Seq<FieldLayout>, b: Seq<u8>) -> Seq<DelayedFieldValue>
    decreases l.len(),
{
    if l.len() == 0 {
        seq![]
    } else {
        let p = delayed_values(l.drop_last(), init_bytes(l, b));
        match l.last() {
            FieldLayout::Delayed(kind, _) => p.push(
                DelayedFieldValue::spec_from_kind(kind, le_value(last_chunk(l, b)) as u128),
            ),
            _ => p,
        }
    }
}

/// The identifiers that the delayed fields of bytes `b` hold.
pub open spec fn identifiers_in(l: Seq<FieldLayout>, b: Seq<u8>) -> Set<u64>
    decreases l.len(),
{
    if l.len() == 0 {
        Set::empty()
    } else {
        let p = identifiers_in(l.drop_last(), init_bytes(l, b));
        match l.last() {
            FieldLayout::Delayed(_, _) => match chunk_identifier(last_chunk(l, b)) {
                Some(id) => p.insert(id),
                None => p,
            },
            _ => p,
        }
    }
}

/// The identifiers `first`, ..., `first + n - 1`.
pub open spec fn id_span(first: u64, n: nat) -> Set<u64> {
    Set::new(|id: u64| first <= id < first + n)
}

/// Unfolds the per-field summaries on a prefix of the layout by one field.
proof fn lemma_prefix_unfold(l: Seq<FieldLayout>, b: Seq<u8>, i: int, off: int)
    requires
        0 <= i < l.len(),
        off == layout_width(l.take(i)),
        off + field_width(l[i]) <= b.len(),
    ensures
        ({
            let lp = l.take(i + 1);
            let bp = b.take(off + field_width(l[i]));
            &&& lp.drop_last() == l.take(i)
            &&& lp.last() == l[i]
            &&& init_bytes(lp, bp) == b.take(off)
            &&& last_chunk(lp, bp) == b.subrange(off, off + field_width(l[i]))
        }),
{
    let lp = l.take(i + 1);
    let bp = b.take(off + field_width(l[i]));
    assert(lp.drop_last() =~= l.take(i));
    assert(init_bytes(lp, bp) =~= b.take(off));
    assert(last_chunk(lp, bp) =~= b.subrange(off, off + field_width(l[i])));
}

/// Facts that hold at field `i` of bytes that follow the layout.
proof fn lemma_valid_field(l: Seq<FieldLayout>, b: Seq<u8>, i: int, off: int)
    requires
        is_valid_encoding(l, b),
        0 <= i < l.len(),
        off == layout_width(l.take(i)),
    ensures
        off + field_width(l[i]) <= b.len(),
        chunk_ok(l[i], b.subrange(off, off + field_width(l[i]))),
        layout_width(l.take(i + 1)) == off + field_width(l[i]),
{
    lemma_layout_width_step(l, i);
    lemma_map_fields_prefix(l, b, field_check(), i + 1);
    lemma_map_fields_step(l, b, field_check(), i, off);
}

/// Whether `bytes` follow `layout`.
pub fn is_valid_value(bytes: &Vec<u8>, layout: &MoveTypeLayout) -> (r: bool)
    ensures
        r == is_valid_encoding(layout@, bytes@),
{
    let ghost l = layout@;
    let ghost b = bytes@;
    let n = layout.fields.len();
    let blen = bytes.len();
    let mut off: usize = 0;
    let mut i: usize = 0;
    proof {
        assert(l.take(0) =~= Seq::<FieldLayout>::empty());
        assert(b.take(0) =~= Seq::<u8>::empty());
    }
    while i < n
        invariant
            l == layout@,
            b == bytes@,
            n == l.len(),
            blen == b.len(),
            i <= n,
            off == layout_width(l.take(i as int)),
            off <= blen,
            map_fields(l.take(i as int), b.take(off as int), field_check()) is Some,
        decreases n - i,
    {
        let f = layout.fields[i];
        let w = field_width_of(f);
        proof {
            lemma_layout_width_step(l, i as int);
        }
        if w > blen - off {
            proof {
                crate::layout::lemma_map_fields_prefix_none(l, b, field_check(), i + 1);
            }
            return false;
        }
        proof {
            lemma_map_fields_step(l, b, field_check(), i as int, off as int);
        }
        let ok = match f {
            FieldLayout::Bool => bytes[off] <= 1,
            _ => true,
        };
        if !ok {
            proof {
                crate::layout::lemma_map_fields_prefix_none(l, b, field_check(), i + 1);
            }
            return false;
        }
        off = off + w;
        i = i + 1;
    }
    proof {
        assert(l.take(n as int) =~= l);
    }
    if off == blen {
        proof {
            assert(b.take(off as int) =~= b);
        }
        true
    } else {
        proof {
            if is_valid_encoding(l, b) {
                lemma_map_fields_len(l, b, field_check());
            }
        }
        false
    }
}

pub proof fn lemma_delayed_count_prefix(l: Seq<FieldLayout>, i: int)
    requires
        0 <= i <= l.len(),
    ensures
        delayed_count(l.take(i)) <= delayed_count(l),
    decreases l.len() - i,
{
    if i < l.len() {
        lemma_layout_width_step(l, i);
        lemma_delayed_count_prefix(l, i + 1);
    } else {
        assert(l.take(i) =~= l);
    }
}

/// How many delayed fields `layout` holds.
pub fn count_delayed(layout: &MoveTypeLayout) -> (r: u64)
    ensures
        r == delayed_count(layout@),
{
    let ghost l = layout@;
    let mut count: u64 = 0;
    let mut i: usize = 0;
    proof {
        assert(l.take(0) =~= Seq::<FieldLayout>::empty());
    }
    while i < layout.fields.len()
        invariant
            l == layout@,
            i <= l.len(),
            count == delayed_count(l.take(i as int)),
            count <= i,
        decreases l.len() - i,
    {
        proof {
            lemma_layout_width_step(l, i as int);
        }
        match layout.fields[i] {
            FieldLayout::Delayed(_, _) => {
                count = count + 1;
            },
            _ => {},
        }
        i = i + 1;
    }
    proof {
        assert(l.take(i as int) =~= l);
    }
    count
}

/// Replaces values with identifiers, and identifiers with values, for one
/// transaction, recording every identifier it touches.
pub struct TemporaryValueToIdentifierMapping {
    txn_idx: u32,
    delayed_field_keys: HashSet<u64>,
}

impl TemporaryValueToIdentifierMapping {
    /// The identifiers touched so far.
    pub closed spec fn touched(&self) -> Set<u64> {
        self.delayed_field_keys@
    }

    pub closed spec fn txn(&self) -> u32 {
        self.txn_idx
    }

    pub fn new(txn_idx: u32) -> (r: Self)
        ensures
            r.touched() == Set::<u64>::empty(),
            r.txn() == txn_idx,
    {
        TemporaryValueToIdentifierMapping { txn_idx, delayed_field_keys: HashSet::new() }
    }

    pub fn into_inner(self) -> (r: HashSet<u64>)
        ensures
            r@ == self.touched(),
    {
        self.delayed_field_keys
    }

    /// Lifts a delayed field's literal `value` read under `kind`: mints a fresh
    /// identifier, stores the value under it, and returns the identifier.
    pub fn value_to_identifier(
        &mut self,
        view: &mut LatestView,
        kind: IdentifierMappingKind,
        value: u128,
    ) -> (r: Result<u64, PanicError>)
        requires
            old(view).wf(),
        ensures
            final(view).wf(),
            final(self).txn() == old(self).txn(),
            final(view).counter.start == old(view).counter.start,
            final(view).is_parallel() == old(view).is_parallel(),
            forall|f: u64| old(view).writes_below(f) ==> final(view).writes_below(f),
            old(view).counter.room() > 0 ==> {
                let id = old(view).counter.next;
                &&& r == Ok::<u64, PanicError>(id)
                &&& final(view).counter.next == id + 1
                &&& forall|t: u32|
                    final(view).value_of(id, t) == Some(
                        DelayedFieldValue::spec_from_kind(kind, value),
                    )
                &&& forall|other: u64, t: u32|
                    other != id ==> final(view).value_of(other, t) == old(view).value_of(other, t)
                &&& final(self).touched() == old(self).touched().insert(id)
            },
            old(view).counter.room() <= 0 ==> {
                &&& r == Err::<u64, PanicError>(
                    PanicError::CodeInvariantError(InvariantViolation::IdentifierSpaceExhausted),
                )
                &&& *final(view) == *old(view)
                &&& final(self).touched() == old(self).touched()
            },
    {
        let id = match view.generate_delayed_field_id() {
            Ok(id) => id,
            Err(e) => {
                return Err(e);
            },
        };
        let base_value = DelayedFieldValue::from_kind(kind, value);
        proof {
            assert(view.writes_below(id));
        }
        view.set_delayed_field_value(id, base_value);
        self.delayed_field_keys.insert(id);
        Ok(id)
    }

    /// Resolves an identifier read from a delayed field of `width` to the
    /// number it stands for, as this mapping's transaction sees it.
    pub fn identifier_to_value(&mut self, view: &LatestView, width: DelayedWidth, identifier_value: u128) -> (r: Result<u128, PanicError>)
        ensures
            final(self).txn() == old(self).txn(),
            identifier_value > u64::MAX ==> r == Err::<u128, PanicError>(
                PanicError::CodeInvariantError(InvariantViolation::IdentifierOutOfRange),
            ) && final(self).touched() == old(self).touched(),
            identifier_value <= u64::MAX ==> {
                let id = identifier_value as u64;
                &&& final(self).touched() == old(self).touched().insert(id)
                &&& r == match view.value_of(id, old(self).txn()) {
                    None => Err(PanicError::CodeInvariantError(InvariantViolation::UnresolvedIdentifier(id))),
                    Some(v) => if (v.number() as nat) < pow256(width_bytes(width)) {
                        Ok(v.number())
                    } else {
                        Err(PanicError::CodeInvariantError(InvariantViolation::ValueExceedsWidth(id)))
                    },
                }
            },
    {
        if identifier_value > u64::MAX as u128 {
            return Err(PanicError::CodeInvariantError(InvariantViolation::IdentifierOutOfRange));
        }
        let id = identifier_value as u64;
        self.delayed_field_keys.insert(id);
        match view.read_delayed_field(id, self.txn_idx) {
            None => Err(PanicError::CodeInvariantError(InvariantViolation::UnresolvedIdentifier(id))),
            Some(v) => {
                let n = v.get_number();
                proof {
                    lemma_pow256_values();
                }
                match width {
                    DelayedWidth::U64 => if n > u64::MAX as u128 {
                        Err(PanicError::CodeInvariantError(InvariantViolation::ValueExceedsWidth(id)))
                    } else {
                        Ok(n)
                    },
                    DelayedWidth::U128 => Ok(n),
                }
            },
        }
    }
}

/// Whether the lifted bytes `out`, the touched identifiers `ids` and the view
/// `after` are what lifting the values of `b` through `before` gives.
pub open spec fn lifted(
    before: LatestView,
    after: LatestView,
    l: Seq<FieldLayout>,
    b: Seq<u8>,
    out: Seq<u8>,
    ids: Set<u64>,
) -> bool {
    let first = before.counter.next;
    let n = delayed_count(l);
    &&& lift_bytes(l, b, first) == Some(out)
    &&& ids == id_span(first, n)
    &&& after.counter.start == before.counter.start
    &&& after.counter.next == first + n
    &&& after.is_parallel() == before.is_parallel()
    &&& delayed_values(l, b).len() == n
    &&& forall|k: int, t: u32|
        0 <= k < n ==> #[trigger] after.value_of((first + k) as u64, t) == Some(
            delayed_values(l, b)[k],
        )
    &&& forall|id: u64, t: u32| id < first ==> #[trigger] after.value_of(id, t) == before.value_of(id, t)
}

/// Replaces the delayed fields' values in `bytes` by fresh identifiers, stored
/// in `view` with their values; returns the new bytes and the identifiers.
pub fn replace_values_with_identifiers(
    view: &mut LatestView,
    txn_idx: u32,
    bytes: &Vec<u8>,
    layout: &MoveTypeLayout,
) -> (r: Result<(Vec<u8>, HashSet<u64>), PanicError>)
    requires
        old(view).wf(),
    ensures
        final(view).wf(),
        r is Ok <==> is_valid_encoding(layout@, bytes@) && delayed_count(layout@) <= old(
            view,
        ).counter.room(),
        !is_valid_encoding(layout@, bytes@) ==> r == Err::<(Vec<u8>, HashSet<u64>), PanicError>(
            PanicError::CodeInvariantError(InvariantViolation::MalformedValue),
        ),
        is_valid_encoding(layout@, bytes@) && delayed_count(layout@) > old(view).counter.room()
            ==> r == Err::<(Vec<u8>, HashSet<u64>), PanicError>(
            PanicError::CodeInvariantError(InvariantViolation::IdentifierSpaceExhausted),
        ),
        r is Err ==> *final(view) == *old(view),
        r matches Ok((out, ids)) ==> lifted(*old(view), *final(view), layout@, bytes@, out@, ids@),
{
    if !is_valid_value(bytes, layout) {
        return Err(PanicError::CodeInvariantError(InvariantViolation::MalformedValue));
    }
    let count = count_delayed(layout);
    if count > view.counter.start + crate::view::ID_BLOCK_LEN - view.counter.next {
        return Err(PanicError::CodeInvariantError(InvariantViolation::IdentifierSpaceExhausted));
    }
    let ghost l = layout@;
    let ghost b = bytes@;
    let ghost v0 = *view;
    let ghost first = view.counter.next;
    let ghost f = lifter(first);
    let mut mapping = TemporaryValueToIdentifierMapping::new(txn_idx);
    let mut out: Vec<u8> = Vec::new();
    let n = layout.fields.len();
    let blen = bytes.len();
    let mut off: usize = 0;
    let mut i: usize = 0;
    proof {
        assert(l.take(0) =~= Seq::<FieldLayout>::empty());
        assert(b.take(0) =~= Seq::<u8>::empty());
        assert(id_span(first, 0) =~= Set::<u64>::empty());
        lemma_map_fields_len(l, b, field_check());
    }
    while i < n
        invariant
            l == layout@,
            b == bytes@,
            n == l.len(),
            i <= n,
            blen == b.len(),
            is_valid_encoding(l, b),
            b.len() == layout_width(l),
            first == v0.counter.next,
            f == lifter(first),
            v0.wf(),
            first + delayed_count(l) <= v0.counter.start + crate::view::ID_BLOCK_LEN,
            view.wf(),
            view.counter.start == v0.counter.start,
            view.is_parallel() == v0.is_parallel(),
            view.writes_below(first),
            off == layout_width(l.take(i as int)),
            off <= b.len(),
            view.counter.next == first + delayed_count(l.take(i as int)),
            map_fields(l.take(i as int), b.take(off as int), f) == Some(out@),
            mapping.touched() == id_span(first, delayed_count(l.take(i as int))),
            delayed_values(l.take(i as int), b.take(off as int)).len() == delayed_count(
                l.take(i as int),
            ),
            forall|k: int, t: u32|
                0 <= k < delayed_count(l.take(i as int)) ==> #[trigger] view.value_of(
                    (first + k) as u64,
                    t,
                ) == Some(delayed_values(l.take(i as int), b.take(off as int))[k]),
            forall|id: u64, t: u32| id < first ==> #[trigger] view.value_of(id, t) == v0.value_of(id, t),
        decreases n - i,
    {
        let fl = layout.fields[i];
        let w = field_width_of(fl);
        proof {
            lemma_valid_field(l, b, i as int, off as int);
            lemma_map_fields_step(l, b, f, i as int, off as int);
            lemma_prefix_unfold(l, b, i as int, off as int);
            lemma_delayed_count_prefix(l, i as int + 1);
        }
        let ghost chunk = b.subrange(off as int, off + w);
        let ghost k = delayed_count(l.take(i as int));
        let ghost vals = delayed_values(l.take(i as int), b.take(off as int));
        let ghost out0 = out@;
        let ghost view_before = *view;
        let ghost touched0 = mapping.touched();
        match fl {
            FieldLayout::Delayed(kind, width) => {
                let value = read_le(bytes, off, w);
                let id = match mapping.value_to_identifier(view, kind, value) {
                    Ok(id) => id,
                    Err(e) => {
                        return Err(e);
                    },
                };
                push_le(&mut out, id as u128, w);
                proof {
                    assert(id == first + k);
                    assert(out@ == out0 + le_bytes((first + k) as nat, width_bytes(width)));
                    assert(mapping.touched() =~= id_span(first, k + 1));
                    let nv = delayed_values(l.take(i + 1), b.take(off + w));
                    assert(nv == vals.push(DelayedFieldValue::spec_from_kind(kind, value)));
                    assert forall|kk: int, t: u32| 0 <= kk < k + 1 implies #[trigger] view.value_of(
                        (first + kk) as u64,
                        t,
                    ) == Some(nv[kk]) by {
                        if kk < k {
                            assert(view_before.value_of((first + kk) as u64, t) == Some(vals[kk]));
                        }
                    }
                }
            },
            _ => {
                let end = off + w;
                let mut j: usize = off;
                while j < end
                    invariant
                        off <= j <= end,
                        end == off + w,
                        end <= bytes@.len(),
                        out@ == out0 + bytes@.subrange(off as int, j as int),
                    decreases end - j,
                {
                    out.push(bytes[j]);
                    j = j + 1;
                    proof {
                        assert(out@ =~= out0 + bytes@.subrange(off as int, j as int));
                    }
                }
            },
        }
        off = off + w;
        i = i + 1;
    }
    proof {
        assert(l.take(n as int) =~= l);
        assert(b.take(off as int) =~= b);
    }
    Ok((out, mapping.into_inner()))
}

/// A rewrite that succeeds has checked every field's bytes.
pub proof fn lemma_map_fields_checks(
    l: Seq<FieldLayout>,
    b: Seq<u8>,
    f: spec_fn(FieldLayout, Seq<u8>, nat) -> Option<Seq<u8>>,
)
    requires
        map_fields(l, b, f) is Some,
    ensures
        is_valid_encoding(l, b),
    decreases l.len(),
{
    if l.len() > 0 {
        let cut = b.len() - field_width(l.last());
        lemma_map_fields_checks(l.drop_last(), b.take(cut), f);
        assert(map_fields(l.drop_last(), b.take(cut), field_check()) is Some);
    }
}

/// Replaces every identifier in `bytes` by the value it resolves to for
/// transaction `txn_idx`; returns the new bytes and the identifiers.
pub fn replace_identifiers_with_values(
    view: &LatestView,
    txn_idx: u32,
    bytes: &Vec<u8>,
    layout: &MoveTypeLayout,
) -> (r: Result<(Vec<u8>, HashSet<u64>), PanicError>)
    ensures
        r is Ok <==> resolve_bytes(*view, txn_idx, layout@, bytes@) is Some,
        !is_valid_encoding(layout@, bytes@) ==> r == Err::<(Vec<u8>, HashSet<u64>), PanicError>(
            PanicError::CodeInvariantError(InvariantViolation::MalformedValue),
        ),
        r matches Ok((out, ids)) ==> resolve_bytes(*view, txn_idx, layout@, bytes@) == Some(out@)
            && ids@ == identifiers_in(layout@, bytes@),
{
    if !is_valid_value(bytes, layout) {
        proof {
            if resolve_bytes(*view, txn_idx, layout@, bytes@) is Some {
                lemma_map_fields_checks(layout@, bytes@, resolver(*view, txn_idx));
            }
        }
        return Err(PanicError::CodeInvariantError(InvariantViolation::MalformedValue));
    }
    let ghost l = layout@;
    let ghost b = bytes@;
    let ghost f = resolver(*view, txn_idx);
    let mut mapping = TemporaryValueToIdentifierMapping::new(txn_idx);
    let mut out: Vec<u8> = Vec::new();
    let n = layout.fields.len();
    let blen = bytes.len();
    let mut off: usize = 0;
    let mut i: usize = 0;
    proof {
        assert(l.take(0) =~= Seq::<FieldLayout>::empty());
        assert(b.take(0) =~= Seq::<u8>::empty());
        lemma_map_fields_len(l, b, field_check());
    }
    while i < n
        invariant
            l == layout@,
            b == bytes@,
            n == l.len(),
            i <= n,
            blen == b.len(),
            is_valid_encoding(l, b),
            b.len() == layout_width(l),
            f == resolver(*view, txn_idx),
            mapping.txn() == txn_idx,
            off == layout_width(l.take(i as int)),
            off <= b.len(),
            map_fields(l.take(i as int), b.take(off as int), f) == Some(out@),
            mapping.touched() == identifiers_in(l.take(i as int), b.take(off as int)),
        decreases n - i,
    {
        let fl = layout.fields[i];
        let w = field_width_of(fl);
        proof {
            lemma_valid_field(l, b, i as int, off as int);
            lemma_map_fields_step(l, b, f, i as int, off as int);
            lemma_prefix_unfold(l, b, i as int, off as int);
        }
        let ghost out0 = out@;
        match fl {
            FieldLayout::Delayed(_, width) => {
                let identifier_value = read_le(bytes, off, w);
                let value = match mapping.identifier_to_value(view, width, identifier_value) {
                    Ok(v) => v,
                    Err(e) => {
                        proof {
                            crate::layout::lemma_map_fields_prefix_none(l, b, f, i + 1);
                        }
                        return Err(e);
                    },
                };
                push_le(&mut out, value, w);
            },
            _ => {
                let end = off + w;
                let mut j: usize = off;
                while j < end
                    invariant
                        off <= j <= end,
                        end == off + w,
                        end <= bytes@.len(),
                        out@ == out0 + bytes@.subrange(off as int, j as int),
                    decreases end - j,
                {
                    out.push(bytes[j]);
                    j = j + 1;
                    proof {
                        assert(out@ =~= out0 + bytes@.subrange(off as int, j as int));
                    }
                }
            },
        }
        off = off + w;
        i = i + 1;
    }
    proof {
        assert(l.take(n as int) =~= l);
        assert(b.take(off as int) =~= b);
    }
    Ok((out, mapping.into_inner()))
}

/// Recovers the identifiers in bytes whose values were already exchanged,
/// without consulting or changing any view.
pub struct TemporaryExtractIdentifiersMapping {
    delayed_field_keys: HashSet<u64>,
}

impl TemporaryExtractIdentifiersMapping {
    /// The identifiers recorded so far.
    pub closed spec fn touched(&self) -> Set<u64> {
        self.delayed_field_keys@
    }

    pub fn new() -> (r: Self)
        ensures
            r.touched() == Set::<u64>::empty(),
    {
        TemporaryExtractIdentifiersMapping { delayed_field_keys: HashSet::new() }
    }

    pub fn into_inner(self) -> (r: HashSet<u64>)
        ensures
            r@ == self.touched(),
    {
        self.delayed_field_keys
    }

    /// Records the identifier that a delayed field holds and hands it back.
    pub fn value_to_identifier(&mut self, value: u128) -> (r: Result<u128, PanicError>)
        ensures
            value > u64::MAX ==> r == Err::<u128, PanicError>(
                PanicError::CodeInvariantError(InvariantViolation::IdentifierOutOfRange),
            ) && final(self).touched() == old(self).touched(),
            value <= u64::MAX ==> r == Ok::<u128, PanicError>(value) && final(self).touched()
                == old(self).touched().insert(value as u64),
    {
        if value > u64::MAX as u128 {
            return Err(PanicError::CodeInvariantError(InvariantViolation::IdentifierOutOfRange));
        }
        self.delayed_field_keys.insert(value as u64);
        Ok(value)
    }

    /// Records the identifier that a delayed field holds and hands it back.
    pub fn identifier_to_value(&mut self, identifier_value: u128) -> (r: Result<u128, PanicError>)
        ensures
            identifier_value > u64::MAX ==> r == Err::<u128, PanicError>(
                PanicError::CodeInvariantError(InvariantViolation::IdentifierOutOfRange),
            ) && final(self).touched() == old(self).touched(),
            identifier_value <= u64::MAX ==> r == Ok::<u128, PanicError>(identifier_value)
                && final(self).touched() == old(self).touched().insert(identifier_value as u64),
    {
        self.value_to_identifier(identifier_value)
    }
}

/// The identifiers in `bytes`, as a set and as a list in field order.
fn collect_identifiers(bytes: &Vec<u8>, layout: &MoveTypeLayout) -> (r: Result<(HashSet<u64>, Vec<u64>), PanicError>)
    ensures
        r is Ok <==> is_extractable(layout@, bytes@),
        !is_valid_encoding(layout@, bytes@) ==> r == Err::<(HashSet<u64>, Vec<u64>), PanicError>(
            PanicError::CodeInvariantError(InvariantViolation::MalformedValue),
        ),
        is_valid_encoding(layout@, bytes@) && r is Err ==> r == Err::<(HashSet<u64>, Vec<u64>), PanicError>(
            PanicError::CodeInvariantError(InvariantViolation::IdentifierOutOfRange),
        ),
        r matches Ok((set, list)) ==> set@ == identifiers_in(layout@, bytes@) && forall|id: u64|
            #[trigger] list@.contains(id) <==> set@.contains(id),
{
    if !is_valid_value(bytes, layout) {
        proof {
            if is_extractable(layout@, bytes@) {
                lemma_map_fields_checks(layout@, bytes@, extractor());
            }
        }
        return Err(PanicError::CodeInvariantError(InvariantViolation::MalformedValue));
    }
    let ghost l = layout@;
    let ghost b = bytes@;
    let ghost f = extractor();
    let mut mapping = TemporaryExtractIdentifiersMapping::new();
    let mut list: Vec<u64> = Vec::new();
    let n = layout.fields.len();
    let blen = bytes.len();
    let mut off: usize = 0;
    let mut i: usize = 0;
    proof {
        assert(l.take(0) =~= Seq::<FieldLayout>::empty());
        assert(b.take(0) =~= Seq::<u8>::empty());
        lemma_map_fields_len(l, b, field_check());
    }
    while i < n
        invariant
            l == layout@,
            b == bytes@,
            n == l.len(),
            i <= n,
            blen == b.len(),
            is_valid_encoding(l, b),
            b.len() == layout_width(l),
            f == extractor(),
            off == layout_width(l.take(i as int)),
            off <= b.len(),
            map_fields(l.take(i as int), b.take(off as int), f) == Some(b.take(off as int)),
            mapping.touched() == identifiers_in(l.take(i as int), b.take(off as int)),
            forall|id: u64| #[trigger] list@.contains(id) <==> mapping.touched().contains(id),
        decreases n - i,
    {
        let fl = layout.fields[i];
        let w = field_width_of(fl);
        proof {
            lemma_valid_field(l, b, i as int, off as int);
            lemma_map_fields_step(l, b, f, i as int, off as int);
            lemma_prefix_unfold(l, b, i as int, off as int);
            assert(b.take(off as int) + b.subrange(off as int, off + w) =~= b.take(off + w));
        }
        match fl {
            FieldLayout::Delayed(_, _) => {
                let value = read_le(bytes, off, w);
                let ghost list0 = list@;
                match mapping.value_to_identifier(value) {
                    Ok(id) => {
                        list.push(id as u64);
                        proof {
                            assert forall|x: u64| #[trigger] list@.contains(x) <==> mapping.touched().contains(x) by {
                                if list@.contains(x) && x != id as u64 {
                                    let j = choose|j: int| 0 <= j < list@.len() && list@[j] == x;
                                    assert(list0[j] == x);
                                }
                                if x == id as u64 {
                                    assert(list@[list0.len() as int] == x);
                                } else if list0.contains(x) {
                                    let j = choose|j: int| 0 <= j < list0.len() && list0[j] == x;
                                    assert(list@[j] == x);
                                }
                            }
                        }
                    },
                    Err(e) => {
                        proof {
                            crate::layout::lemma_map_fields_prefix_none(l, b, f, i + 1);
                        }
                        return Err(e);
                    },
                }
            },
            _ => {},
        }
        off = off + w;
        i = i + 1;
    }
    proof {
        assert(l.take(n as int) =~= l);
        assert(b.take(off as int) =~= b);
    }
    Ok((mapping.into_inner(), list))
}

/// The identifiers in `bytes`, whose values were already exchanged.
pub fn extract_identifiers_from_value(bytes: &Vec<u8>, layout: &MoveTypeLayout) -> (r: Result<HashSet<u64>, PanicError>)
    ensures
        r is Ok <==> is_extractable(layout@, bytes@),
        !is_valid_encoding(layout@, bytes@) ==> r == Err::<HashSet<u64>, PanicError>(
            PanicError::CodeInvariantError(InvariantViolation::MalformedValue),
        ),
        is_valid_encoding(layout@, bytes@) && !is_extractable(layout@, bytes@) ==> r == Err::<HashSet<u64>, PanicError>(
            PanicError::CodeInvariantError(InvariantViolation::IdentifierOutOfRange),
        ),
        r matches Ok(ids) ==> ids@ == identifiers_in(layout@, bytes@),
{
    match collect_identifiers(bytes, layout) {
        Ok((set, _)) => Ok(set),
        Err(e) => Err(e),
    }
}

proof fn lemma_resolve_lifted(
    after: LatestView,
    txn_idx: u32,
    l: Seq<FieldLayout>,
    b: Seq<u8>,
    first: u64,
)
    requires
        is_valid_encoding(l, b),
        first + delayed_count(l) <= u64::MAX,
        delayed_values(l, b).len() == delayed_count(l),
        forall|k: int, t: u32|
            0 <= k < delayed_count(l) ==> #[trigger] after.value_of((first + k) as u64, t) == Some(
                delayed_values(l, b)[k],
            ),
    ensures
        lift_bytes(l, b, first) matches Some(out) && resolve_bytes(after, txn_idx, l, out) == Some(
            b,
        ),
    decreases l.len(),
{
    if l.len() == 0 {
        lemma_map_fields_len(l, b, field_check());
        assert(b =~= Seq::<u8>::empty());
    } else {
        let w = field_width(l.last());
        let ld = l.drop_last();
        let cut = b.len() - w;
        let bi = b.take(cut);
        let c = b.skip(cut);
        let k = delayed_count(ld);
        assert(map_fields(ld, bi, field_check()) is Some);
        let vi = delayed_values(ld, bi);
        assert(vi.len() == k) by {
            lemma_map_fields_len(ld, bi, field_check());
            lemma_delayed_values_len(ld, bi);
        }
        assert forall|kk: int, t: u32| 0 <= kk < k implies #[trigger] after.value_of(
            (first + kk) as u64,
            t,
        ) == Some(vi[kk]) by {
            assert(delayed_values(l, b)[kk] == vi[kk]);
        }
        lemma_resolve_lifted(after, txn_idx, ld, bi, first);
        let p = lift_bytes(ld, bi, first)->Some_0;
        let q = lift_chunk(first, l.last(), c, k)->Some_0;
        let out = p + q;
        assert(lift_bytes(l, b, first) == Some(out));
        lemma_pow256_values();
        lemma_le_value_bound(c);
        match l.last() {
            FieldLayout::Delayed(kind, wd) => {
                lemma_le_bytes_len((first + k) as nat, w);
                lemma_pow256_monotone(8, w);
                lemma_le_value_of_bytes((first + k) as nat, w);
                lemma_pow256_monotone(w, 16);
                lemma_le_bytes_of_value(c);
                assert(after.value_of((first + k) as u64, txn_idx) == Some(
                    delayed_values(l, b)[k as int],
                ));
            },
            _ => {},
        }
        assert(out.take(out.len() - w) =~= p);
        assert(out.skip(out.len() - w) =~= q);
        assert(bi + c =~= b);
    }
}

proof fn lemma_delayed_values_len(l: Seq<FieldLayout>, b: Seq<u8>)
    ensures
        delayed_values(l, b).len() == delayed_count(l),
    decreases l.len(),
{
    if l.len() > 0 {
        lemma_delayed_values_len(l.drop_last(), init_bytes(l, b));
    }
}

/// Within one attempt, resolving the identifiers that lifting put into a
/// value's bytes gives back the bytes it started from, whatever the kinds of its
/// delayed fields.
pub proof fn lemma_round_trip(
    before: LatestView,
    after: LatestView,
    txn_idx: u32,
    l: Seq<FieldLayout>,
    b: Seq<u8>,
    out: Seq<u8>,
    ids: Set<u64>,
)
    requires
        before.wf(),
        is_valid_encoding(l, b),
        lifted(before, after, l, b, out, ids),
    ensures
        resolve_bytes(after, txn_idx, l, out) == Some(b),
{
    let first = before.counter.next;
    assert forall|k: int, t: u32| 0 <= k < delayed_count(l) implies #[trigger] after.value_of(
        (first + k) as u64,
        t,
    ) == Some(delayed_values(l, b)[k]) by {
        assert(after.value_of((first + k) as u64, t) == Some(delayed_values(l, b)[k]));
    }
    lemma_resolve_lifted(after, txn_idx, l, b, first);
}

/// Whether a value read by a transaction holds an identifier that the
/// transaction's delayed-field writes also touch: then its metadata and layout
/// are handed back, for the value to be exchanged again. A deletion holds no
/// identifiers; bytes whose identifiers cannot be read are a fatal error.
pub fn does_value_need_exchange(
    value: &WriteOp,
    layout: &MoveTypeLayout,
    delayed_write_set_ids: &HashSet<u64>,
    key: u64,
) -> (r: Option<Result<(u64, (Option<StateValueMetadata>, MoveTypeLayout)), PanicError>>)
    ensures
        value@.is_deletion() ==> r is None,
        !value@.is_deletion() && !is_extractable(layout@, value@.bytes) ==> r matches Some(Err(_)),
        !value@.is_deletion() && is_extractable(layout@, value@.bytes) ==> (r is Some <==> !delayed_write_set_ids@.disjoint(identifiers_in(layout@, value@.bytes))),
        r matches Some(Ok((k, (m, l)))) ==> k == key && m == value@.metadata && l@ == layout@,
{
    match value.bytes() {
        Some(bytes) => match collect_identifiers(bytes, layout) {
            Ok((_, identifiers_in_read)) => {
                let ghost ids = identifiers_in(layout@, value@.bytes);
                let mut i: usize = 0;
                while i < identifiers_in_read.len()
                    invariant
                        i <= identifiers_in_read@.len(),
                        !value@.is_deletion(),
                        is_extractable(layout@, value@.bytes),
                        ids == identifiers_in(layout@, value@.bytes),
                        forall|id: u64| #[trigger] identifiers_in_read@.contains(id) <==> ids.contains(id),
                        forall|j: int| 0 <= j < i ==> !delayed_write_set_ids@.contains(#[trigger] identifiers_in_read@[j]),
                    decreases identifiers_in_read@.len() - i,
                {
                    let id = identifiers_in_read[i];
                    if delayed_write_set_ids.contains(&id) {
                        proof {
                            assert(identifiers_in_read@.contains(id));
                            assert(!delayed_write_set_ids@.disjoint(ids));
                        }
                        return Some(Ok((key, (value.as_state_value_metadata(), layout.duplicate()))));
                    }
                    i = i + 1;
                }
                proof {
                    assert forall|id: u64| !(delayed_write_set_ids@.contains(id) && ids.contains(id)) by {
                        if ids.contains(id) {
                            assert(identifiers_in_read@.contains(id));
                            let j = choose|j: int| 0 <= j < identifiers_in_read@.len() && identifiers_in_read@[j] == id;
                            assert(!delayed_write_set_ids@.contains(identifiers_in_read@[j]));
                        }
                    }
                    assert(delayed_write_set_ids@.disjoint(ids));
                }
                None
            },
            Err(e) => Some(Err(e)),
        },
        None => None,
    }
}

/// The numbers that the delayed fields of bytes `b` hold, in order.
pub open spec fn delayed_numbers(l: Seq<FieldLayout>, b: Seq<u8>) -> Seq<nat>
    decreases l.len(),
{
    if l.len() == 0 {
        seq![]
    } else {
        let p = delayed_numbers(l.drop_last(), init_bytes(l, b));
        if is_delayed(l.last()) {
            p.push(le_value(last_chunk(l, b)))
        } else {
            p
        }
    }
}

/// Resolution leaves no identifier behind: the `k`-th delayed field of the
/// result holds the number that the identifier in the `k`-th delayed field of
/// the input resolves to.
pub proof fn lemma_resolution_replaces_every_identifier(
    view: LatestView,
    txn_idx: u32,
    l: Seq<FieldLayout>,
    b: Seq<u8>,
    out: Seq<u8>,
)
    requires
        resolve_bytes(view, txn_idx, l, b) == Some(out),
    ensures
        delayed_numbers(l, b).len() == delayed_count(l),
        delayed_numbers(l, out).len() == delayed_count(l),
        forall|k: int|
            0 <= k < delayed_count(l) ==> {
                let id = #[trigger] delayed_numbers(l, b)[k];
                &&& id <= u64::MAX
                &&& view.value_of(id as u64, txn_idx) matches Some(v) && delayed_numbers(l, out)[k]
                    == v.number() as nat
            },
    decreases l.len(),
{
    if l.len() > 0 {
        let w = field_width(l.last());
        let ld = l.drop_last();
        let cut = b.len() - w;
        let bi = b.take(cut);
        let c = b.skip(cut);
        let f = resolver(view, txn_idx);
        let p = map_fields(ld, bi, f)->Some_0;
        let q = resolve_chunk(view, txn_idx, l.last(), c)->Some_0;
        assert(out == p + q);
        lemma_resolution_replaces_every_identifier(view, txn_idx, ld, bi, p);
        lemma_map_fields_len(ld, bi, f);
        lemma_pow256_values();
        match l.last() {
            FieldLayout::Delayed(_, wd) => {
                let v = view.value_of(chunk_identifier(c)->Some_0, txn_idx)->Some_0;
                lemma_le_bytes_len(v.number() as nat, w);
                lemma_le_value_of_bytes(v.number() as nat, w);
            },
            _ => {},
        }
        assert(q.len() == w);
        assert(out.take(out.len() - w) =~= p);
        assert(out.skip(out.len() - w) =~= q);
        assert(init_bytes(l, out) == p);
        assert(last_chunk(l, out) == q);
    }
}

} // verus!

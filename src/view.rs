use crate::errors::{InvariantViolation, PanicError};
use crate::layout::DelayedFieldValue;
use std::collections::HashMap;
use vstd::prelude::*;

verus! {

broadcast use vstd::std_specs::hash::group_hash_axioms;

/// How many identifiers one execution attempt may mint.
pub const ID_BLOCK_LEN: u64 = 1_000_000;

/// Mints the identifiers of one execution attempt, counting up from a start.
#[derive(Debug)]
pub struct IdCounter {
    pub start: u64,
    pub next: u64,
}

impl IdCounter {
    pub open spec fn wf(&self) -> bool {
        &&& self.start <= u32::MAX
        &&& self.start <= self.next <= self.start + ID_BLOCK_LEN
    }

    /// How many identifiers may still be minted.
    pub open spec fn room(&self) -> int {
        self.start + ID_BLOCK_LEN - self.next
    }

    pub fn new(start: u32) -> (r: Self)
        ensures
            r.wf(),
            r.start == start,
            r.next == start,
    {
        IdCounter { start: start as u64, next: start as u64 }
    }

    pub fn generate(&mut self) -> (r: Result<u64, PanicError>)
        requires
            old(self).wf(),
        ensures
            final(self).wf(),
            final(self).start == old(self).start,
            old(self).room() > 0 ==> r == Ok::<u64, PanicError>(old(self).next) && final(self).next
                == old(self).next + 1,
            old(self).room() <= 0 ==> r == Err::<u64, PanicError>(
                PanicError::CodeInvariantError(InvariantViolation::IdentifierSpaceExhausted),
            ) && final(self).next == old(self).next,
    {
        if self.next - self.start < ID_BLOCK_LEN {
            let id = self.next;
            self.next = self.next + 1;
            Ok(id)
        } else {
            Err(PanicError::CodeInvariantError(InvariantViolation::IdentifierSpaceExhausted))
        }
    }
}

/// Where in the serial order a read of a delayed field observes it.
#[derive(Clone, Copy, Debug, PartialEq, Eq, Structural)]
pub enum ReadPosition {
    BeforeCurrentTxn,
    AfterCurrentTxn,
}

/// The newest write of `id` among `log` by a transaction below `bound`; of two
/// writes by one transaction, the later one.
pub open spec fn latest_write(log: Seq<(u64, u32, DelayedFieldValue)>, id: u64, bound: int) -> Option<
    (u32, DelayedFieldValue),
>
    decreases log.len(),
{
    if log.len() == 0 {
        None
    } else {
        let rest = latest_write(log.drop_last(), id, bound);
        let e = log.last();
        if e.0 == id && (e.1 as int) < bound && (rest is None || rest->Some_0.0 <= e.1) {
            Some((e.1, e.2))
        } else {
            rest
        }
    }
}

pub proof fn lemma_latest_write_absent(log: Seq<(u64, u32, DelayedFieldValue)>, id: u64)
    requires
        forall|i: int| 0 <= i < log.len() ==> #[trigger] log[i].0 != id,
    ensures
        forall|bound: int| #[trigger] latest_write(log, id, bound) is None,
    decreases log.len(),
{
    if log.len() > 0 {
        let d = log.drop_last();
        assert forall|i: int| 0 <= i < d.len() implies #[trigger] d[i].0 != id by {
            assert(d[i] == log[i]);
        }
        lemma_latest_write_absent(d, id);
        assert(log.last() == log[log.len() - 1]);
        assert forall|bound: int| #[trigger] latest_write(log, id, bound) is None by {
            assert(latest_write(d, id, bound) is None);
        }
    }
}

pub proof fn lemma_latest_write_bound(log: Seq<(u64, u32, DelayedFieldValue)>, id: u64, bound: int)
    ensures
        latest_write(log, id, bound) matches Some(w) ==> (w.0 as int) < bound,
    decreases log.len(),
{
    if log.len() > 0 {
        lemma_latest_write_bound(log.drop_last(), id, bound);
    }
}

/// The delayed-field values shared by the transactions of a block in parallel
/// execution: each identifier's base value, and the values that committed
/// transactions wrote, by transaction index.
#[derive(Debug)]
pub struct VersionedDelayedFields {
    pub base: HashMap<u64, DelayedFieldValue>,
    pub log: Vec<(u64, u32, DelayedFieldValue)>,
}

pub open spec fn position_bound(txn_idx: u32, position: ReadPosition) -> int {
    match position {
        ReadPosition::BeforeCurrentTxn => txn_idx as int,
        ReadPosition::AfterCurrentTxn => txn_idx + 1,
    }
}

impl VersionedDelayedFields {
    /// The value of `id` as seen by transaction `txn_idx` at `position`: the
    /// newest write by an earlier transaction (or by `txn_idx` itself, after
    /// it), else the base value.
    pub open spec fn spec_read(&self, id: u64, txn_idx: u32, position: ReadPosition) -> Option<
        DelayedFieldValue,
    > {
        match latest_write(self.log@, id, position_bound(txn_idx, position)) {
            Some(w) => Some(w.1),
            None => if self.base@.contains_key(id) {
                Some(self.base@[id])
            } else {
                None
            },
        }
    }

    /// Every identifier that the store mentions is below `next`.
    pub open spec fn ids_below(&self, next: u64) -> bool {
        &&& forall|id: u64| #[trigger] self.base@.contains_key(id) ==> id < next
        &&& forall|i: int| 0 <= i < self.log@.len() ==> #[trigger] self.log@[i].0 < next
    }

    pub fn new() -> (r: Self)
        ensures
            r.base@ == Map::<u64, DelayedFieldValue>::empty(),
            r.log@ == Seq::<(u64, u32, DelayedFieldValue)>::empty(),
    {
        VersionedDelayedFields { base: HashMap::new(), log: Vec::new() }
    }

    pub fn read_latest_committed_value(&self, id: u64, txn_idx: u32, position: ReadPosition) -> (r:
        Option<DelayedFieldValue>)
        ensures
            r == self.spec_read(id, txn_idx, position),
    {
        let bound: u64 = match position {
            ReadPosition::BeforeCurrentTxn => txn_idx as u64,
            ReadPosition::AfterCurrentTxn => txn_idx as u64 + 1,
        };
        let mut best: Option<(u32, DelayedFieldValue)> = None;
        let mut i: usize = 0;
        while i < self.log.len()
            invariant
                i <= self.log@.len(),
                bound as int == position_bound(txn_idx, position),
                best == latest_write(self.log@.take(i as int), id, bound as int),
            decreases self.log@.len() - i,
        {
            let e = self.log[i];
            proof {
                assert(self.log@.take(i as int + 1).drop_last() =~= self.log@.take(i as int));
            }
            let newer = match best {
                None => true,
                Some(b) => b.0 <= e.1,
            };
            if e.0 == id && (e.1 as u64) < bound && newer {
                best = Some((e.1, e.2));
            }
            i = i + 1;
        }
        proof {
            assert(self.log@.take(i as int) =~= self.log@);
        }
        match best {
            Some(w) => Some(w.1),
            None => match self.base.get(&id) {
                Some(v) => Some(*v),
                None => None,
            },
        }
    }

    pub fn set_base_value(&mut self, id: u64, value: DelayedFieldValue)
        ensures
            final(self).base@ == old(self).base@.insert(id, value),
            final(self).log@ == old(self).log@,
    {
        self.base.insert(id, value);
    }

    pub fn record_write(&mut self, id: u64, txn_idx: u32, value: DelayedFieldValue)
        ensures
            final(self).base@ == old(self).base@,
            final(self).log@ == old(self).log@.push((id, txn_idx, value)),
    {
        self.log.push((id, txn_idx, value));
    }
}

/// Where an execution attempt keeps its delayed-field values.
#[derive(Debug)]
pub enum ViewState {
    /// Parallel execution: the block's shared multi-version values.
    Sync(VersionedDelayedFields),
    /// Sequential execution: a map private to the attempt.
    Unsync(HashMap<u64, DelayedFieldValue>),
}

/// The delayed-field view of one execution attempt.
#[derive(Debug)]
pub struct LatestView {
    pub latest_view: ViewState,
    pub counter: IdCounter,
}

impl LatestView {
    pub open spec fn wf(&self) -> bool {
        &&& self.counter.wf()
        &&& match &self.latest_view {
            ViewState::Sync(s) => s.ids_below(self.counter.next),
            ViewState::Unsync(m) => forall|id: u64| #[trigger]
                m@.contains_key(id) ==> id < self.counter.next,
        }
    }

    /// The value that identifier `id` resolves to for transaction `txn_idx`:
    /// in parallel mode as committed after the transaction, in sequential mode
    /// from the private map.
    pub open spec fn value_of(&self, id: u64, txn_idx: u32) -> Option<DelayedFieldValue> {
        match &self.latest_view {
            ViewState::Sync(s) => s.spec_read(id, txn_idx, ReadPosition::AfterCurrentTxn),
            ViewState::Unsync(m) => if m@.contains_key(id) {
                Some(m@[id])
            } else {
                None
            },
        }
    }

    /// No committed write mentions an identifier at or above `first`.
    pub open spec fn writes_below(&self, first: u64) -> bool {
        match &self.latest_view {
            ViewState::Sync(s) => forall|i: int|
                0 <= i < s.log@.len() ==> #[trigger] s.log@[i].0 < first,
            ViewState::Unsync(_) => true,
        }
    }

    pub open spec fn is_parallel(&self) -> bool {
        self.latest_view is Sync
    }

    /// A view for parallel execution whose identifiers count up from `start`.
    pub fn new_parallel(start: u32) -> (r: Self)
        ensures
            r.wf(),
            r.is_parallel(),
            r.counter.start == start,
            r.counter.next == start,
            forall|id: u64, t: u32| r.value_of(id, t) is None,
    {
        LatestView {
            latest_view: ViewState::Sync(VersionedDelayedFields::new()),
            counter: IdCounter::new(start),
        }
    }

    /// A view for sequential execution whose identifiers count up from `start`.
    pub fn new_sequential(start: u32) -> (r: Self)
        ensures
            r.wf(),
            !r.is_parallel(),
            r.counter.start == start,
            r.counter.next == start,
            forall|id: u64, t: u32| r.value_of(id, t) is None,
    {
        LatestView { latest_view: ViewState::Unsync(HashMap::new()), counter: IdCounter::new(start) }
    }

    pub fn generate_delayed_field_id(&mut self) -> (r: Result<u64, PanicError>)
        requires
            old(self).wf(),
        ensures
            final(self).wf(),
            final(self).latest_view == old(self).latest_view,
            final(self).counter.start == old(self).counter.start,
            old(self).counter.room() > 0 ==> r == Ok::<u64, PanicError>(old(self).counter.next)
                && final(self).counter.next == old(self).counter.next + 1,
            old(self).counter.room() <= 0 ==> r == Err::<u64, PanicError>(
                PanicError::CodeInvariantError(InvariantViolation::IdentifierSpaceExhausted),
            ) && final(self).counter.next == old(self).counter.next,
    {
        self.counter.generate()
    }

    /// Sets the value of an identifier minted in this attempt.
    pub fn set_delayed_field_value(&mut self, id: u64, value: DelayedFieldValue)
        requires
            old(self).wf(),
            id < old(self).counter.next,
        ensures
            final(self).wf(),
            final(self).counter == old(self).counter,
            final(self).is_parallel() == old(self).is_parallel(),
            forall|f: u64| old(self).writes_below(f) ==> final(self).writes_below(f),
            forall|other: u64, t: u32|
                other != id ==> final(self).value_of(other, t) == old(self).value_of(other, t),
            forall|t: u32| old(self).writes_below(id) ==> final(self).value_of(id, t) == Some(value),
    {
        match &mut self.latest_view {
            ViewState::Sync(s) => {
                s.set_base_value(id, value);
                proof {
                    if old(self).writes_below(id) {
                        lemma_latest_write_absent(s.log@, id);
                    }
                }
            },
            ViewState::Unsync(m) => {
                m.insert(id, value);
            },
        }
    }

    /// Reads the value that `id` resolves to for transaction `txn_idx`.
    pub fn read_delayed_field(&self, id: u64, txn_idx: u32) -> (r: Option<DelayedFieldValue>)
        ensures
            r == self.value_of(id, txn_idx),
    {
        match &self.latest_view {
            ViewState::Sync(s) => s.read_latest_committed_value(
                id,
                txn_idx,
                ReadPosition::AfterCurrentTxn,
            ),
            ViewState::Unsync(m) => match m.get(&id) {
                Some(v) => Some(*v),
                None => None,
            },
        }
    }

    /// Records that transaction `txn_idx` committed `value` for `id`: a new
    /// version in parallel mode, the new value in sequential mode.
    /// Fails on an identifier that this attempt never minted.
    pub fn record_committed_write(&mut self, id: u64, txn_idx: u32, value: DelayedFieldValue) -> (r:
        Result<(), PanicError>)
        requires
            old(self).wf(),
        ensures
            final(self).wf(),
            final(self).counter == old(self).counter,
            final(self).is_parallel() == old(self).is_parallel(),
            r is Ok <==> old(self).counter.start <= id < old(self).counter.next,
            r is Err ==> r == Err::<(), PanicError>(
                PanicError::CodeInvariantError(InvariantViolation::UnresolvedIdentifier(id)),
            ) && *final(self) == *old(self),
            r is Ok ==> final(self).value_of(id, txn_idx) == Some(value),
    {
        if id < self.counter.start || id >= self.counter.next {
            return Err(PanicError::CodeInvariantError(InvariantViolation::UnresolvedIdentifier(id)));
        }
        let ghost old_log = match &self.latest_view {
            ViewState::Sync(s) => s.log@,
            ViewState::Unsync(_) => Seq::empty(),
        };
        match &mut self.latest_view {
            ViewState::Sync(s) => {
                s.record_write(id, txn_idx, value);
                proof {
                    assert(s.log@.drop_last() =~= old_log);
                    lemma_latest_write_bound(old_log, id, txn_idx + 1);
                }
            },
            ViewState::Unsync(m) => {
                m.insert(id, value);
            },
        }
        Ok(())
    }
}

} // verus!

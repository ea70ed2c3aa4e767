use std::collections::{HashMap, VecDeque};
use vstd::prelude::*;

verus! {

broadcast use vstd::std_specs::hash::group_hash_axioms;

/// An account address.
pub type Author = [u8; 32];

/// A committed anchor of the DAG, as leader reputation sees it.
#[derive(Debug)]
pub struct CommitEvent {
    pub epoch: u64,
    pub round: u64,
    pub author: Author,
    pub parents: Vec<Author>,
    pub failed_authors: Vec<Author>,
}

/// The block metadata that leader reputation reads.
#[derive(Debug)]
pub struct NewBlockEvent {
    pub epoch: u64,
    pub round: u64,
    /// Bit `i` (most significant bit first) is set when validator `i` voted.
    pub previous_block_votes_bitvec: Vec<u8>,
    pub proposer: Author,
    pub failed_proposer_indices: Vec<u64>,
}

/// The position of the first occurrence of `a` in `s`, if any.
pub open spec fn is_first_position(s: Seq<Author>, a: Author, i: int) -> bool {
    &&& 0 <= i < s.len()
    &&& s[i] == a
    &&& forall|j: int| 0 <= j < i ==> s[j] != a
}

pub open spec fn validator_index(s: Seq<Author>, a: Author) -> Option<int> {
    if exists|i: int| is_first_position(s, a, i) {
        Some(choose|i: int| is_first_position(s, a, i))
    } else {
        None
    }
}

proof fn lemma_first_position_unique(s: Seq<Author>, a: Author, i: int)
    requires
        is_first_position(s, a, i),
    ensures
        validator_index(s, a) == Some(i),
{
    let k = choose|k: int| is_first_position(s, a, k);
    assert(k == i) by {
        if k < i {
            assert(s[k] == a);
        } else if i < k {
            assert(s[i] == a);
        }
    }
}

/// Whether two addresses are the same.
pub fn same_author(a: &Author, b: &Author) -> (r: bool)
    ensures
        r == (*a == *b),
{
    let mut i: usize = 0;
    while i < 32
        invariant
            i <= 32,
            forall|j: int| 0 <= j < i ==> a@[j] == b@[j],
        decreases 32 - i,
    {
        if a[i] != b[i] {
            proof {
                assert(a@[i as int] != b@[i as int]);
            }
            return false;
        }
        i = i + 1;
    }
    proof {
        vstd::array::axiom_array_ext_equal(*a, *b);
    }
    true
}

/// The index of `a` among `validators`.
pub fn find_validator(validators: &Vec<Author>, a: &Author) -> (r: Option<usize>)
    ensures
        match r {
            Some(i) => validator_index(validators@, *a) == Some(i as int),
            None => validator_index(validators@, *a) is None,
        },
{
    let mut i: usize = 0;
    while i < validators.len()
        invariant
            i <= validators@.len(),
            forall|j: int| 0 <= j < i ==> validators@[j] != *a,
        decreases validators@.len() - i,
    {
        if same_author(&validators[i], a) {
            proof {
                lemma_first_position_unique(validators@, *a, i as int);
            }
            return Some(i);
        }
        i = i + 1;
    }
    None
}

/// How many bytes hold `n` bits.
pub open spec fn bitvec_len(n: nat) -> nat {
    (n + 7) / 8
}

/// `bits` with bit `i` set, counting from the most significant bit of byte 0.
pub open spec fn set_bit(bits: Seq<u8>, i: nat) -> Seq<u8> {
    bits.update((i / 8) as int, bits[(i / 8) as int] | (0x80u8 >> ((i % 8) as u8)))
}

/// Every author is one of the validators.
pub open spec fn all_validators(validators: Seq<Author>, authors: Seq<Author>) -> bool {
    forall|i: int| 0 <= i < authors.len() ==> #[trigger] validator_index(validators, authors[i]) is Some
}

/// One bit per validator, set for each validator among `parents`.
pub open spec fn votes_bitvec(validators: Seq<Author>, parents: Seq<Author>) -> Seq<u8>
    decreases parents.len(),
{
    if parents.len() == 0 {
        Seq::new(bitvec_len(validators.len()), |i: int| 0u8)
    } else {
        set_bit(
            votes_bitvec(validators, parents.drop_last()),
            validator_index(validators, parents.last())->Some_0 as nat,
        )
    }
}

/// The validator indices of `failed`.
pub open spec fn failed_indices(validators: Seq<Author>, failed: Seq<Author>) -> Seq<u64> {
    Seq::new(failed.len(), |i: int| validator_index(validators, failed[i])->Some_0 as u64)
}

/// Whether `event` can be converted with the validators of its epoch.
pub open spec fn convertible(epochs: Map<u64, Vec<Author>>, event: CommitEvent) -> bool {
    &&& epochs.contains_key(event.epoch)
    &&& all_validators(epochs[event.epoch]@, event.parents@)
    &&& all_validators(epochs[event.epoch]@, event.failed_authors@)
}

/// `out` is `event` in the form leader reputation reads.
pub open spec fn converted(epochs: Map<u64, Vec<Author>>, event: CommitEvent, out: NewBlockEvent) -> bool {
    let validators = epochs[event.epoch]@;
    &&& out.epoch == event.epoch
    &&& out.round == event.round
    &&& out.proposer == event.author
    &&& out.previous_block_votes_bitvec@ == votes_bitvec(validators, event.parents@)
    &&& out.failed_proposer_indices@ == failed_indices(validators, event.failed_authors@)
}

/// Feeds leader reputation with the latest committed anchors: a window of
/// the most recent commit events of known epochs, newest first.
pub struct MetadataBackendAdapter {
    epoch_to_validators: HashMap<u64, Vec<Author>>,
    window_size: usize,
    sliding_window: VecDeque<CommitEvent>,
}

impl MetadataBackendAdapter {
    /// The validators of each known epoch, in index order.
    pub closed spec fn epochs(&self) -> Map<u64, Vec<Author>> {
        self.epoch_to_validators@
    }

    pub closed spec fn window(&self) -> Seq<CommitEvent> {
        self.sliding_window@
    }

    pub closed spec fn spec_window_size(&self) -> usize {
        self.window_size
    }

    pub fn new(window_size: usize, epoch_to_validators: HashMap<u64, Vec<Author>>) -> (r: Self)
        ensures
            r.epochs() == epoch_to_validators@,
            r.spec_window_size() == window_size,
            r.window() == Seq::<CommitEvent>::empty(),
    {
        MetadataBackendAdapter { epoch_to_validators, window_size, sliding_window: VecDeque::new() }
    }

    /// Records a commit event of a known epoch as the newest, dropping the
    /// oldest when the window is full; events of other epochs are ignored.
    pub fn push(&mut self, event: CommitEvent)
        ensures
            final(self).epochs() == old(self).epochs(),
            final(self).spec_window_size() == old(self).spec_window_size(),
            !old(self).epochs().contains_key(event.epoch) ==> final(self).window() == old(self).window(),
            old(self).epochs().contains_key(event.epoch) ==> final(self).window() == seq![event] + if old(
                self,
            ).window().len() == old(self).spec_window_size() && old(self).window().len() > 0 {
                old(self).window().drop_last()
            } else {
                old(self).window()
            },
    {
        if !self.epoch_to_validators.contains_key(&event.epoch) {
            return;
        }
        if self.sliding_window.len() == self.window_size {
            self.sliding_window.pop_back();
        }
        self.sliding_window.push_front(event);
        proof {
            assert(self.sliding_window@ =~= seq![event] + if old(self).window().len() == old(self).spec_window_size() && old(self).window().len() > 0 {
                old(self).window().drop_last()
            } else {
                old(self).window()
            });
        }
    }

    /// Converts a commit event with the validators of its epoch; none where
    /// the epoch, or one of its authors, is unknown.
    pub fn convert(&self, event: &CommitEvent) -> (r: Option<NewBlockEvent>)
        ensures
            r is Some <==> convertible(self.epochs(), *event),
            r matches Some(out) ==> converted(self.epochs(), *event, out),
    {
        let validators = match self.epoch_to_validators.get(&event.epoch) {
            Some(v) => v,
            None => {
                return None;
            },
        };
        let ghost vals = validators@;
        proof {
            assert(self.epochs().contains_key(event.epoch));
            assert(vals == self.epochs()[event.epoch]@);
        }
        let n = validators.len();
        let num_bytes = n / 8 + if n % 8 == 0 { 0 } else { 1 };
        let mut bitvec: Vec<u8> = Vec::new();
        let mut k: usize = 0;
        while k < num_bytes
            invariant
                k <= num_bytes,
                bitvec@ == Seq::new(k as nat, |i: int| 0u8),
            decreases num_bytes - k,
        {
            bitvec.push(0);
            k = k + 1;
            proof {
                assert(bitvec@ =~= Seq::new(k as nat, |i: int| 0u8));
            }
        }
        proof {
            assert(num_bytes == bitvec_len(n as nat)) by (nonlinear_arith)
                requires
                    num_bytes == n / 8 + if n % 8 == 0 { 0int } else { 1int },
            ;
            assert(event.parents@.take(0) =~= Seq::<Author>::empty());
        }
        let mut i: usize = 0;
        while i < event.parents.len()
            invariant
                vals == validators@,
                self.epochs().contains_key(event.epoch),
                vals == self.epochs()[event.epoch]@,
                n == vals.len(),
                i <= event.parents@.len(),
                all_validators(vals, event.parents@.take(i as int)),
                bitvec@ == votes_bitvec(vals, event.parents@.take(i as int)),
                bitvec@.len() == bitvec_len(n as nat),
            decreases event.parents@.len() - i,
        {
            let idx = match find_validator(validators, &event.parents[i]) {
                Some(idx) => idx,
                None => {
                    proof {
                        assert(validator_index(vals, event.parents@[i as int]) is None);
                        assert(vals == self.epochs()[event.epoch]@);
                        assert(!all_validators(vals, event.parents@));
                    }
                    return None;
                },
            };
            proof {
                let pt = event.parents@.take(i as int + 1);
                assert(pt.drop_last() =~= event.parents@.take(i as int));
                assert(idx < n);
                assert((idx / 8) < bitvec_len(n as nat)) by (nonlinear_arith)
                    requires
                        idx < n,
                ;
                assert forall|j: int| 0 <= j < pt.len() implies #[trigger] validator_index(vals, pt[j]) is Some by {
                    if j < i {
                        assert(event.parents@.take(i as int)[j] == pt[j]);
                    }
                }
            }
            let b = idx / 8;
            let mask = 0x80u8 >> ((idx % 8) as u8);
            let byte = bitvec[b] | mask;
            bitvec.set(b, byte);
            i = i + 1;
        }
        proof {
            assert(event.parents@.take(i as int) =~= event.parents@);
        }
        let mut failed_authors: Vec<u64> = Vec::new();
        let mut j: usize = 0;
        while j < event.failed_authors.len()
            invariant
                vals == validators@,
                self.epochs().contains_key(event.epoch),
                vals == self.epochs()[event.epoch]@,
                n == vals.len(),
                j <= event.failed_authors@.len(),
                all_validators(vals, event.failed_authors@.take(j as int)),
                failed_authors@ == failed_indices(vals, event.failed_authors@.take(j as int)),
            decreases event.failed_authors@.len() - j,
        {
            let idx = match find_validator(validators, &event.failed_authors[j]) {
                Some(idx) => idx,
                None => {
                    proof {
                        assert(validator_index(vals, event.failed_authors@[j as int]) is None);
                        assert(vals == self.epochs()[event.epoch]@);
                        assert(!all_validators(vals, event.failed_authors@));
                    }
                    return None;
                },
            };
            failed_authors.push(idx as u64);
            proof {
                let ft = event.failed_authors@.take(j as int + 1);
                assert(failed_authors@ =~= failed_indices(vals, ft));
                assert forall|jj: int| 0 <= jj < ft.len() implies #[trigger] validator_index(vals, ft[jj]) is Some by {
                    if jj < j {
                        assert(event.failed_authors@.take(j as int)[jj] == ft[jj]);
                    }
                }
            }
            j = j + 1;
        }
        proof {
            assert(event.failed_authors@.take(j as int) =~= event.failed_authors@);
        }
        Some(
            NewBlockEvent {
                epoch: event.epoch,
                round: event.round,
                previous_block_votes_bitvec: bitvec,
                proposer: event.author,
                failed_proposer_indices: failed_authors,
            },
        )
    }

    /// The events of the window, newest first, converted; none where one of
    /// them cannot be. The accompanying hash is all zeros.
    pub fn get_block_metadata(&self, _target_epoch: u64, _target_round: u64) -> (r: Option<
        (Vec<NewBlockEvent>, [u8; 32]),
    >)
        ensures
            r is Some <==> forall|i: int|
                0 <= i < self.window().len() ==> #[trigger] convertible(
                    self.epochs(),
                    self.window()[i],
                ),
            r matches Some((events, hash)) ==> events@.len() == self.window().len() && (forall|
                i: int,
            |
                0 <= i < events@.len() ==> #[trigger] converted(
                    self.epochs(),
                    self.window()[i],
                    events@[i],
                )) && forall|k: int| 0 <= k < 32 ==> hash[k] == 0,
    {
        let mut events: Vec<NewBlockEvent> = Vec::new();
        let mut i: usize = 0;
        while i < self.sliding_window.len()
            invariant
                i <= self.window().len(),
                events@.len() == i,
                forall|j: int| 0 <= j < i ==> #[trigger] convertible(self.epochs(), self.window()[j]),
                forall|j: int|
                    0 <= j < i ==> #[trigger] converted(self.epochs(), self.window()[j], events@[j]),
            decreases self.window().len() - i,
        {
            match self.convert(&self.sliding_window[i]) {
                Some(e) => events.push(e),
                None => {
                    return None;
                },
            }
            i = i + 1;
        }
        Some((events, [0u8; 32]))
    }
}

} // verus!

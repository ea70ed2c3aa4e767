use crate::layout::MoveTypeLayout;
use vstd::prelude::*;

verus! {

/// Storage metadata that a state value carries.
#[derive(Clone, Copy, Debug, PartialEq, Eq, Structural)]
pub struct StateValueMetadata {
    pub deposit: u64,
    pub creation_time_usecs: u64,
}

#[derive(Clone, Copy, Debug, PartialEq, Eq, Structural)]
pub enum WriteOpKind {
    Creation,
    Modification,
    Deletion,
}

/// A write to one storage slot. A deletion carries no bytes.
#[derive(Debug)]
pub struct WriteOp {
    pub kind: WriteOpKind,
    pub bytes: Vec<u8>,
    pub metadata: Option<StateValueMetadata>,
}

/// What a write is: its kind, its bytes (empty for a deletion) and metadata.
pub struct WriteOpModel {
    pub kind: WriteOpKind,
    pub bytes: Seq<u8>,
    pub metadata: Option<StateValueMetadata>,
}

impl View for WriteOp {
    type V = WriteOpModel;

    open spec fn view(&self) -> WriteOpModel {
        WriteOpModel {
            kind: self.kind,
            bytes: if self.kind is Deletion {
                Seq::empty()
            } else {
                self.bytes@
            },
            metadata: self.metadata,
        }
    }
}

impl WriteOpModel {
    pub open spec fn is_deletion(self) -> bool {
        self.kind is Deletion
    }

    /// The write with its bytes replaced; a deletion stays as it is.
    pub open spec fn with_bytes(self, bytes: Seq<u8>) -> WriteOpModel {
        if self.is_deletion() {
            self
        } else {
            WriteOpModel { bytes, ..self }
        }
    }

    /// A read value taken as a modification that writes it back.
    pub open spec fn as_modification(self) -> WriteOpModel {
        WriteOpModel { kind: WriteOpKind::Modification, ..self }
    }
}

/// A copy of `v`.
pub fn copy_bytes(v: &Vec<u8>) -> (r: Vec<u8>)
    ensures
        r@ == v@,
{
    let mut r: Vec<u8> = Vec::new();
    let mut i: usize = 0;
    while i < v.len()
        invariant
            i <= v@.len(),
            r@ == v@.take(i as int),
        decreases v@.len() - i,
    {
        r.push(v[i]);
        i = i + 1;
        proof {
            assert(r@ =~= v@.take(i as int));
        }
    }
    proof {
        assert(r@ =~= v@);
    }
    r
}

impl WriteOp {
    pub fn creation(bytes: Vec<u8>, metadata: Option<StateValueMetadata>) -> (r: Self)
        ensures
            r@ == (WriteOpModel { kind: WriteOpKind::Creation, bytes: bytes@, metadata }),
    {
        WriteOp { kind: WriteOpKind::Creation, bytes, metadata }
    }

    pub fn modification(bytes: Vec<u8>, metadata: Option<StateValueMetadata>) -> (r: Self)
        ensures
            r@ == (WriteOpModel { kind: WriteOpKind::Modification, bytes: bytes@, metadata }),
    {
        WriteOp { kind: WriteOpKind::Modification, bytes, metadata }
    }

    pub fn deletion(metadata: Option<StateValueMetadata>) -> (r: Self)
        ensures
            r@ == (WriteOpModel { kind: WriteOpKind::Deletion, bytes: Seq::empty(), metadata }),
    {
        WriteOp { kind: WriteOpKind::Deletion, bytes: Vec::new(), metadata }
    }

    pub fn is_deletion(&self) -> (r: bool)
        ensures
            r == self@.is_deletion(),
    {
        match self.kind {
            WriteOpKind::Deletion => true,
            _ => false,
        }
    }

    /// The bytes written, unless this is a deletion.
    pub fn bytes(&self) -> (r: Option<&Vec<u8>>)
        ensures
            match r {
                None => self@.is_deletion(),
                Some(b) => !self@.is_deletion() && b@ == self@.bytes,
            },
    {
        if self.is_deletion() {
            None
        } else {
            Some(&self.bytes)
        }
    }

    /// Replaces the bytes written; a deletion stays as it is.
    pub fn set_bytes(&mut self, bytes: Vec<u8>)
        ensures
            final(self)@ == old(self)@.with_bytes(bytes@),
    {
        if !self.is_deletion() {
            self.bytes = bytes;
        }
    }

    /// The bytes written, unless this is a deletion.
    pub fn extract_raw_bytes(&self) -> (r: Option<Vec<u8>>)
        ensures
            match r {
                None => self@.is_deletion(),
                Some(b) => !self@.is_deletion() && b@ == self@.bytes,
            },
    {
        match self.bytes() {
            None => None,
            Some(b) => Some(copy_bytes(b)),
        }
    }

    /// A read value as a modification that writes it back; none for a deletion.
    pub fn convert_read_to_modification(&self) -> (r: Option<WriteOp>)
        ensures
            match r {
                None => self@.is_deletion(),
                Some(w) => !self@.is_deletion() && w@ == self@.as_modification(),
            },
    {
        if self.is_deletion() {
            None
        } else {
            Some(
                WriteOp {
                    kind: WriteOpKind::Modification,
                    bytes: copy_bytes(&self.bytes),
                    metadata: self.metadata,
                },
            )
        }
    }

    pub fn as_state_value_metadata(&self) -> (r: Option<StateValueMetadata>)
        ensures
            r == self@.metadata,
    {
        self.metadata
    }

    /// A copy of this write.
    pub fn duplicate(&self) -> (r: WriteOp)
        ensures
            r@ == self@,
    {
        WriteOp { kind: self.kind, bytes: copy_bytes(&self.bytes), metadata: self.metadata }
    }
}

/// A value as execution left it: verbatim from storage, or exchanged, with the
/// layout of its delayed fields where it has any.
#[derive(Debug)]
pub enum ValueWithLayout {
    RawFromStorage(WriteOp),
    Exchanged(WriteOp, Option<MoveTypeLayout>),
}

} // verus!

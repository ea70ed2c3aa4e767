use vstd::prelude::*;

verus! {

/// What went wrong when the exchange protocol itself was broken.
#[derive(Clone, Copy, Debug, PartialEq, Eq, Structural)]
pub enum InvariantViolation {
    /// The bytes do not follow the layout they were handed with.
    MalformedValue,
    /// A delayed field holds a number too large to be an identifier.
    IdentifierOutOfRange,
    /// No value was ever set for this identifier in the attempt.
    UnresolvedIdentifier(u64),
    /// The identifier's value does not fit in the field's width.
    ValueExceedsWidth(u64),
    /// The attempt has minted all the identifiers it may.
    IdentifierSpaceExhausted,
    /// A deleted value was handed over to have its identifiers replaced.
    NotModification,
    /// A member of a finalized group is a deletion.
    DeletionInGroup,
}

/// A fatal invariant violation: a bug in the exchange protocol.
#[derive(Clone, Copy, Debug, PartialEq, Eq, Structural)]
pub enum PanicError {
    CodeInvariantError(InvariantViolation),
}

/// Why a resource group could not be finalized in parallel.
#[derive(Clone, Copy, Debug, PartialEq, Eq, Structural)]
pub enum ResourceGroupErrorKind {
    /// A member was only read and exchanged, but the group is being deleted.
    ReadOnlyExchangedDeletion,
    /// The group's emptiness disagrees with whether its metadata deletes it.
    EmptinessMismatch { is_empty: bool, is_deletion: bool },
    /// The group's members could not be finalized.
    Finalization,
    /// The group's blob could not be serialized.
    Serialization,
}

/// A data-dependent inconsistency that re-running the block sequentially resolves.
#[derive(Clone, Copy, Debug, PartialEq, Eq, Structural)]
pub enum IntentionalFallbackToSequential {
    ResourceGroupError(ResourceGroupErrorKind),
}

/// Either a fatal invariant violation or a recoverable error `E`.
#[derive(Debug, PartialEq, Eq)]
pub enum PanicOr<E> {
    CodeInvariantError(InvariantViolation),
    Or(E),
}

/// An error of block execution: a fallback to sequential execution, or an
/// error of the transaction's own `E`.
#[derive(Debug, PartialEq, Eq)]
pub enum ExecutionError<E> {
    FallbackToSequential(PanicOr<IntentionalFallbackToSequential>),
    UserError(E),
}

} // verus!

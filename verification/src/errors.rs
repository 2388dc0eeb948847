//! Errors of the tracker core. Mutating operations abort before touching
//! anything when a referenced issue is missing or a new edge would close
//! a cycle; `PartialWriteFailure` is reserved for a caller whose
//! persistence layer fails between record writes, after the in-memory
//! working set was already updated.

use vstd::prelude::*;

verus! {

#[derive(Debug, Clone, PartialEq, Eq)]
pub enum TrackerError {
    /// A referenced issue id does not exist.
    NotFound(u32),
    /// Adding the edge `from depends on to` would create a cycle.
    CycleDetected(u32, u32),
    /// A reverse-edge update could not be persisted after the subject's
    /// own record was already written; carries the id left inconsistent.
    PartialWriteFailure(u32, String),
    /// An empty edge request: nothing to add and nothing to remove.
    MalformedRequest,
    /// A textual issue reference that is neither a number nor a known
    /// alias.
    UnknownRef,
    /// A priority name other than critical, high, medium or low.
    InvalidPriority,
}

} // verus!

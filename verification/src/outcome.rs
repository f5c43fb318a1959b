//! What the operations of a store report.
use vstd::prelude::*;

verus! {

/// How the task file stands against what was last read or written.
#[derive(Clone, Copy, Debug, PartialEq, Eq, Structural)]
pub enum Reconcile {
    Unchanged,
    /// The file had changed and was read again.
    Reloaded,
    ReadError,
}

/// Why a file could not be changed.
#[derive(Clone, Copy, Debug, PartialEq, Eq, Structural)]
pub enum StoreError {
    NotReadable,
    NotWritable,
}

#[derive(Clone, Copy, Debug, PartialEq, Eq, Structural)]
pub enum CompleteOutcome {
    OutOfRange,
    Aborted(Reconcile),
    Error(StoreError),
    /// The task was completed; `spawned` tells whether it recurs.
    Completed { spawned: bool },
    Reopened,
}

#[derive(Clone, Copy, Debug, PartialEq, Eq, Structural)]
pub enum PriorityOutcome {
    OutOfRange,
    Aborted(Reconcile),
    Error(StoreError),
    Changed { priority: Option<char> },
}

#[derive(Clone, Copy, Debug, PartialEq, Eq, Structural)]
pub enum DeleteOutcome {
    OutOfRange,
    Aborted(Reconcile),
    Error(StoreError),
    Deleted,
}

#[derive(Clone, Copy, Debug, PartialEq, Eq, Structural)]
pub enum EditOutcome {
    OutOfRange,
    Aborted(Reconcile),
    Error(StoreError),
    /// The new text was blank; nothing changed.
    Empty,
    Edited,
}

#[derive(Clone, Copy, Debug, PartialEq, Eq, Structural)]
pub enum TagOutcome {
    OutOfRange,
    Aborted(Reconcile),
    Error(StoreError),
    /// The name was blank; nothing changed.
    Empty,
    /// The line stays as it is: it has the tag already, or nothing but it.
    Kept,
    Added,
    Removed,
}

#[derive(Clone, Copy, Debug, PartialEq, Eq, Structural)]
pub enum AddOutcome {
    Aborted(Reconcile),
    Error(StoreError),
    /// The text was blank; nothing changed.
    Empty,
    Added,
}

#[derive(Clone, Copy, Debug, PartialEq, Eq, Structural)]
pub enum ArchiveOutcome {
    Nothing,
    Aborted(Reconcile),
    Error(StoreError),
    Archived { count: usize },
}

#[derive(Clone, Copy, Debug, PartialEq, Eq, Structural)]
pub enum UnarchiveOutcome {
    OutOfRange,
    Aborted(Reconcile),
    Error(StoreError),
    Restored,
}

#[derive(Clone, Copy, Debug, PartialEq, Eq, Structural)]
pub enum ArchiveDeleteOutcome {
    OutOfRange,
    Aborted(Reconcile),
    Error(StoreError),
    Deleted,
}

#[derive(Clone, Copy, Debug, PartialEq, Eq, Structural)]
pub enum BulkCompleteOutcome {
    NothingToComplete,
    Aborted(Reconcile),
    Error(StoreError),
    Done { completed: usize, spawned: usize },
}

#[derive(Clone, Copy, Debug, PartialEq, Eq, Structural)]
pub enum BulkDeleteOutcome {
    Nothing,
    Aborted(Reconcile),
    Error(StoreError),
    Done { deleted: usize },
}

#[derive(Clone, Copy, Debug, PartialEq, Eq, Structural)]
pub enum UndoOutcome {
    Nothing,
    Aborted(Reconcile),
    Error(StoreError),
    Undone,
}

#[derive(Clone, Copy, Debug, PartialEq, Eq, Structural)]
pub enum DrainReport {
    Nothing,
    Aborted(Reconcile),
    Error(StoreError),
    Drained { count: usize },
}

} // verus!

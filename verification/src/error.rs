//! Errors.

use vstd::prelude::*;

verus! {

/// What went wrong.
#[derive(Clone, Copy, Debug, PartialEq, Eq, Hash, Structural)]
pub enum ErrorKind {
    StorageError,
    DuplicatedStudy,
    StudyNotFound,
    TrialNotFound,
    TrialDiscarded,
    TrialAlreadyFinished,
    AttrNotFound,
    AttrOverwriteNotAllowed,
    IncompatibleDistribution,
    TrialQueueEmpty,
    InvalidObjectiveValues,
    NoCompletedTrial,
    SamplerError,
    MissingDependency,
    UnsupportedSearchSpace,
    UnsupportedMultiObjective,
    ImportanceEvaluatorError,
    Unexpected,
}

/// An error, and what is said of it to users. Nothing is said where the kind says it all.
#[derive(Clone, Debug, PartialEq, Eq, Hash)]
pub struct Error {
    pub kind: ErrorKind,
    pub reason: String,
}

impl Error {
    pub fn new(kind: ErrorKind) -> (r: Error)
        ensures
            r.kind == kind,
            r.reason@.len() == 0,
    {
        Error { kind, reason: String::new() }
    }

    /// An error with a reason.
    pub fn with_reason(kind: ErrorKind, reason: String) -> (r: Error)
        ensures
            r.kind == kind,
            r.reason@ == reason@,
    {
        Error { kind, reason }
    }
}

pub type Result<T> = core::result::Result<T, Error>;

/// The result is this error, without a reason.
pub open spec fn fails<T>(r: Result<T>, kind: ErrorKind) -> bool {
    r is Err && r->Err_0.kind == kind && r->Err_0.reason@.len() == 0
}

/// The result is this error, with this reason.
pub open spec fn fails_because<T>(r: Result<T>, kind: ErrorKind, reason: Seq<char>) -> bool {
    r is Err && r->Err_0.kind == kind && r->Err_0.reason@ == reason
}

} // verus!

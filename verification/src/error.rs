use vstd::prelude::*;

verus! {

/// The error taxonomy of the library. Parse-level problems on single input
/// rows are never reported through this type: they are counted and skipped.
/// Everything here propagates to the operation boundary.
#[derive(Debug, Clone)]
pub enum AnkiChessError {
    AnkiError(String),
    JsonError(String),
    IoError(String),
    TauriError(String),
    NotFound(String),
    InvalidInput(String),
    MutexPoison(String),
    DatabaseError(String),
    HttpError(String),
    CsvError(String),
    TimeError(String),
    JoinError(String),
    /// A referential-integrity violation, e.g. linking to nonexistent content.
    ConstraintError(String),
    /// A missing prerequisite (such as a required record template), raised
    /// before any row is processed.
    ConfigurationError(String),
}

} // verus!

//! The library's error type.

use vstd::prelude::*;

verus! {

/// Declares `rusqlite::Error`, which database failures carry.
#[verifier::external_type_specification]
#[verifier::external_body]
pub struct ExSqliteError(rusqlite::Error);

/// Errors surfaced at the library boundary.
#[derive(Debug)]
pub enum TalonError {
    /// A caller-supplied value was rejected.
    InvalidInput {
        /// Name of the offending field.
        field: &'static str,
        /// Why the value was rejected.
        message: String,
    },
    /// A database operation failed.
    Sqlite {
        /// What was being attempted.
        context: &'static str,
        /// The database's error.
        source: rusqlite::Error,
    },
    /// An internal invariant or environment operation failed.
    Internal {
        /// What went wrong.
        message: String,
    },
}

/// Result alias for library operations.
pub type TalonResult<T> = Result<T, TalonError>;

} // verus!

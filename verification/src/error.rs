//! The engine's error type, with the user-facing message of each variant.
//!
//! Errors raised by the Git library, the cache database, schema migrations and the file
//! system are carried as their own messages; the application fills them in when it
//! converts those errors.

use vstd::prelude::*;

use crate::text::{concat, owned};

verus! {

/// An engine failure.
pub enum AppError {
    /// The Git library failed; the payload is its message.
    Git(String),
    /// The cache database failed; the payload is its message.
    Db(String),
    /// A schema migration failed; the payload is its message.
    Migration(String),
    /// A file-system operation failed; the payload is its message.
    Io(String),
    /// A command needs an open repository and none is active.
    NoRepo,
    /// A failure described by the engine itself.
    Message(String),
}

/// The message shown for `e`.
pub open spec fn error_message(e: AppError) -> Seq<char> {
    match e {
        AppError::Git(m) => "git error: "@ + m@,
        AppError::Db(m) => "database error: "@ + m@,
        AppError::Migration(m) => "migration error: "@ + m@,
        AppError::Io(m) => "i/o error: "@ + m@,
        AppError::NoRepo => "no repository is currently open"@,
        AppError::Message(m) => m@,
    }
}

impl AppError {
    /// The message shown for this error (what `to_string` gives).
    pub fn message(&self) -> (r: String)
        ensures
            r@ == error_message(*self),
    {
        match self {
            AppError::Git(m) => concat("git error: ", m.as_str()),
            AppError::Db(m) => concat("database error: ", m.as_str()),
            AppError::Migration(m) => concat("migration error: ", m.as_str()),
            AppError::Io(m) => concat("i/o error: ", m.as_str()),
            AppError::NoRepo => owned("no repository is currently open"),
            AppError::Message(m) => m.clone(),
        }
    }
}

} // verus!

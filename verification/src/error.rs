//! The library's error type. Errors of outside code (database, file system,
//! JSON) arrive here as their messages.
use vstd::prelude::*;

use crate::text::push_str;

verus! {

/// What went wrong in an operation of the library or of the code around it.
#[derive(Debug, Clone, PartialEq, Eq)]
pub enum AppError {
    /// A database error, by its message.
    Db(String),
    /// A file-system error, by its message.
    Io(String),
    Audio(String),
    NotFound(String),
    InvalidState(String),
    InvalidInput(String),
    /// A (de)serialization error, by its message.
    Serde(String),
    Http(String),
}

/// Result of an operation that may fail with an [`AppError`].
pub type AppResult<T> = Result<T, AppError>;

/// The prefix that the message of each kind of error starts with.
pub open spec fn error_prefix(e: AppError) -> Seq<char> {
    match e {
        AppError::Db(_) => "database error: "@,
        AppError::Io(_) => "io error: "@,
        AppError::Audio(_) => "audio error: "@,
        AppError::NotFound(_) => "not found: "@,
        AppError::InvalidState(_) => "invalid state: "@,
        AppError::InvalidInput(_) => "invalid input: "@,
        AppError::Serde(_) => "serialization error: "@,
        AppError::Http(_) => "http error: "@,
    }
}

/// The detail text that an error carries.
pub open spec fn error_detail(e: AppError) -> Seq<char> {
    match e {
        AppError::Db(s) => s@,
        AppError::Io(s) => s@,
        AppError::Audio(s) => s@,
        AppError::NotFound(s) => s@,
        AppError::InvalidState(s) => s@,
        AppError::InvalidInput(s) => s@,
        AppError::Serde(s) => s@,
        AppError::Http(s) => s@,
    }
}

impl AppError {
    /// The human-readable message: the kind's prefix, then the detail.
    pub fn message(&self) -> (r: String)
        ensures
            r@ == error_prefix(*self) + error_detail(*self),
    {
        let mut r = String::new();
        let detail: &String = match self {
            AppError::Db(s) => {
                push_str(&mut r, "database error: ");
                s
            },
            AppError::Io(s) => {
                push_str(&mut r, "io error: ");
                s
            },
            AppError::Audio(s) => {
                push_str(&mut r, "audio error: ");
                s
            },
            AppError::NotFound(s) => {
                push_str(&mut r, "not found: ");
                s
            },
            AppError::InvalidState(s) => {
                push_str(&mut r, "invalid state: ");
                s
            },
            AppError::InvalidInput(s) => {
                push_str(&mut r, "invalid input: ");
                s
            },
            AppError::Serde(s) => {
                push_str(&mut r, "serialization error: ");
                s
            },
            AppError::Http(s) => {
                push_str(&mut r, "http error: ");
                s
            },
        };
        push_str(&mut r, detail.as_str());
        proof {
            assert(r@ =~= error_prefix(*self) + error_detail(*self));
        }
        r
    }
}

} // verus!

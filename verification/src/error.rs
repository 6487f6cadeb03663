//! The error type of the application's operations.

use vstd::prelude::*;

verus! {

/// An error that a request ends in.
#[derive(Debug)]
pub enum AppError {
    /// Something failed that the user cannot fix; the text says what.
    Internal(String),
    /// The request itself is wrong; the text is shown to the user.
    BadRequest(String),
    /// The user is not allowed to do this; the text is shown to the user.
    Unauthorized(String),
    /// A user of that name exists already.
    DuplicateUser,
}

/// The status code that a response for the error carries.
pub open spec fn spec_status_code(e: &AppError) -> u16 {
    match e {
        AppError::Internal(_) => 500,
        AppError::BadRequest(_) => 400,
        AppError::Unauthorized(_) => 401,
        AppError::DuplicateUser => 409,
    }
}

impl AppError {
    /// The HTTP status code of the response for this error: 500 for
    /// internal errors, 400 for bad requests, 401 when unauthorized and 409
    /// for a duplicate user.
    pub fn status_code(&self) -> (code: u16)
        ensures
            code == spec_status_code(self),
    {
        match self {
            AppError::Internal(_) => 500,
            AppError::BadRequest(_) => 400,
            AppError::Unauthorized(_) => 401,
            AppError::DuplicateUser => 409,
        }
    }
}

} // verus!

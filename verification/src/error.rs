//! The library's error type.
use vstd::prelude::*;

verus! {

/// What can go wrong while talking to a language model.
#[derive(Debug)]
pub enum AppError {
    /// A refusal or failure stated by the client logic itself.
    LLMError(String),
    /// The transport failed (connection, timeout, body read).
    RequestError(String),
    /// A response body could not be decoded.
    JsonError(String),
}

impl AppError {
    /// The message that the error carries.
    pub open spec fn message(&self) -> Seq<char> {
        match self {
            AppError::LLMError(m) => m@,
            AppError::RequestError(m) => m@,
            AppError::JsonError(m) => m@,
        }
    }

    /// The text of the error, as it is shown to users.
    pub fn describe(&self) -> (res: String)
        ensures
            res@ == self.message(),
    {
        match self {
            AppError::LLMError(m) => m.clone(),
            AppError::RequestError(m) => m.clone(),
            AppError::JsonError(m) => m.clone(),
        }
    }
}

} // verus!

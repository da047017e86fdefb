//! Structured errors of the pipeline.

use vstd::prelude::*;

verus! {

/// Error kinds reported by parsing, URL handling and resource loading.
#[derive(Debug, Clone, PartialEq, Eq)]
pub enum WebbyError {
    /// Malformed or oversized input.
    Parse {
        /// Human-readable message.
        message: String,
    },
    /// Invalid or unsupported URL.
    Url {
        /// Human-readable message.
        message: String,
    },
    /// Transport failure.
    Network {
        /// Human-readable message.
        message: String,
    },
    /// File system failure.
    Io {
        /// Path involved, when known.
        path: Option<String>,
        /// Human-readable message.
        message: String,
    },
    /// Caller-supplied input outside the accepted range.
    InvalidInput {
        /// Human-readable message.
        message: String,
    },
    /// Feature outside the supported subset.
    Unsupported {
        /// Human-readable message.
        message: String,
    },
}

/// Result type of fallible pipeline steps.
pub type WebbyResult<T> = Result<T, WebbyError>;

/// The human-readable message of an error.
pub open spec fn error_message(e: WebbyError) -> Seq<char> {
    match e {
        WebbyError::Parse { message } => message@,
        WebbyError::Url { message } => message@,
        WebbyError::Network { message } => message@,
        WebbyError::Io { message, .. } => message@,
        WebbyError::InvalidInput { message } => message@,
        WebbyError::Unsupported { message } => message@,
    }
}

impl WebbyError {
    /// The human-readable message of the error.
    pub fn message(&self) -> (r: &String)
        ensures
            r@ == error_message(*self),
    {
        match self {
            WebbyError::Parse { message } => message,
            WebbyError::Url { message } => message,
            WebbyError::Network { message } => message,
            WebbyError::Io { message, .. } => message,
            WebbyError::InvalidInput { message } => message,
            WebbyError::Unsupported { message } => message,
        }
    }

    /// An invalid-input error.
    pub fn invalid_input(message: String) -> (e: Self)
        ensures
            e == (WebbyError::InvalidInput { message }),
    {
        WebbyError::InvalidInput { message }
    }

    /// An unsupported-feature error.
    pub fn unsupported(message: String) -> (e: Self)
        ensures
            e == (WebbyError::Unsupported { message }),
    {
        WebbyError::Unsupported { message }
    }
}

} // verus!

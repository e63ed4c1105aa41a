//! The library's error type.

use vstd::prelude::*;

verus! {

/// Errors of fetching an article and writing its output.
pub enum AppError {
    /// An HTTP request failed (network error, status other than success).
    HttpError(String),
    /// A file operation failed (creating a directory, writing a file).
    IoError(String),
}

} // verus!

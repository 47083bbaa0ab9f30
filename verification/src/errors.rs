//! The error taxonomy: expected errors are client-caused, carry an HTTP
//! status and are reported as such; unexpected errors are internal failures
//! reported to the caller as a generic internal error.
use vstd::prelude::*;

verus! {

/// Everything that an operation of this crate can report.
///
/// The first nine variants are expected (client-caused) failures; the last
/// three are unexpected internal failures (storage layer, filesystem, or the
/// password-hashing primitive).
#[derive(Clone, Copy, Debug, PartialEq, Eq, Structural)]
pub enum AppError {
    /// The authentication header is absent.
    MissingHeader,
    /// The authentication header does not carry the expected scheme label.
    UnsupportedScheme,
    /// The credential payload is not valid base64, or not valid UTF-8.
    MalformedEncoding,
    /// The decoded credential text has no `:` separator.
    MissingDelimiter,
    /// The key identifier is not a well-formed 128-bit identifier.
    InvalidIdentifier,
    /// No key row exists for the presented key identifier.
    UnknownKey,
    /// The presented secret does not match the stored hash.
    WrongSecret,
    /// No upload token exists for the presented token identifier.
    InvalidToken,
    /// The bucket has no binding to the blob a download asks for; reported
    /// as "no content".
    BindingNotFound,
    /// The bucket has no binding to the blob a delete asks to drop; a bad
    /// request, distinct from the download report of the same condition.
    DeleteBindingNotFound,
    /// A storage-layer failure.
    RepositoryError,
    /// A filesystem read, write or remove failure on blob bytes.
    FilesystemError,
    /// A corrupt stored hash, or an internal failure of the hashing primitive.
    HashingError,
}

impl AppError {
    /// Whether the error is client-caused, as opposed to an internal failure.
    pub open spec fn spec_expected(&self) -> bool {
        match *self {
            AppError::RepositoryError => false,
            AppError::FilesystemError => false,
            AppError::HashingError => false,
            _ => true,
        }
    }

    /// Whether the error is client-caused, as opposed to an internal failure.
    pub fn expected(&self) -> (r: bool)
        ensures
            r == self.spec_expected(),
    {
        match *self {
            AppError::RepositoryError => false,
            AppError::FilesystemError => false,
            AppError::HashingError => false,
            _ => true,
        }
    }

    /// The HTTP status code the error is reported with: `204` for the
    /// download report of a missing binding, `400` for every other client
    /// error, `500` for internal ones.
    pub open spec fn spec_status(&self) -> u16 {
        if *self == AppError::BindingNotFound {
            204
        } else if self.spec_expected() {
            400
        } else {
            500
        }
    }

    /// The HTTP status code the error is reported with.
    pub fn status(&self) -> (r: u16)
        ensures
            r == self.spec_status(),
    {
        match *self {
            AppError::BindingNotFound => 204,
            AppError::RepositoryError => 500,
            AppError::FilesystemError => 500,
            AppError::HashingError => 500,
            _ => 400,
        }
    }
}

} // verus!

//! Errors of the event store's storage backends.

use vstd::prelude::*;

verus! {

/// An error raised inside a storage backend; a `StorageError` can carry it.
pub trait BackendError {}

/// What a storage backend reports about streams.
pub enum StorageError {
    /// The stream does not exist.
    StreamDoesntExists,
    /// The stream already exists.
    StreamAlreadyExists,
    /// The backend itself failed.
    InternalBackendError(Box<dyn BackendError>),
}

impl<T: BackendError + 'static> From<T> for StorageError {
    /// Wraps a backend's own error.
    fn from(e: T) -> (r: StorageError)
        ensures
            carries_backend_error(r),
    {
        StorageError::InternalBackendError(Box::new(e))
    }
}

/// Whether an error carries a backend's own error.
pub open spec fn carries_backend_error(r: StorageError) -> bool {
    r is InternalBackendError
}

impl<T: BackendError + 'static> vstd::std_specs::convert::FromSpecImpl<T> for StorageError {
    open spec fn obeys_from_spec() -> bool {
        false
    }

    open spec fn from_spec(v: T) -> StorageError {
        choose|r: StorageError| #[trigger] carries_backend_error(r)
    }
}

} // verus!

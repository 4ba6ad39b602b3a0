//! Versions used to read streams and to check optimistic concurrency.

use vstd::prelude::*;

use crate::event_store::stream::Stream;

verus! {

/// Version used to read a stream: the cursor at which reading starts.
///
/// `ReadVersion::Origin` is the same as `ReadVersion::Version(0)`.
#[derive(Clone, Copy, Debug, PartialEq, Eq, Structural)]
pub enum ReadVersion {
    Origin,
    Version(i64),
}

impl ReadVersion {
    /// The version at which reading starts.
    pub fn start(&self) -> (r: i64)
        ensures
            r == match self {
                ReadVersion::Origin => 0,
                ReadVersion::Version(v) => *v,
            },
    {
        match self {
            ReadVersion::Origin => 0,
            ReadVersion::Version(v) => *v,
        }
    }
}

/// The `ExpectedVersion` used to define optimistic concurrency.
#[derive(Clone, Copy, Debug, PartialEq, Eq, Structural)]
pub enum ExpectedVersion {
    /// A stream in any version: valid whenever the stream is persisted.
    AnyVersion,
    /// A stream that does not exist yet: valid when the stream is persisted
    /// and its version is 0.
    NoStream,
    /// An existing stream: valid when the stream is persisted.
    StreamExists,
    /// A stream at a particular version: valid when the stream is persisted
    /// and at that version.
    Version(i64),
}

/// Why a version check failed; it tells the event store what it must do
/// before it can proceed.
#[derive(Clone, Copy, Debug, PartialEq, Eq, Structural)]
pub enum ExpectedVersionError {
    NeedCreation,
    StreamAlreadyExists,
    StreamDeleted,
    StreamDoesntExists,
    WrongExpectedVersion,
}

/// The outcome of checking a stream against an expected version, by the
/// stream's state: a deleted stream fails; a stream that is not persisted
/// yet must be created (unless it is required to exist, or to be at a
/// version other than 0); a persisted stream passes when it matches.
pub open spec fn version_check(
    persisted: bool,
    deleted: bool,
    version: i64,
    expected: ExpectedVersion,
) -> Result<(), ExpectedVersionError> {
    if persisted && deleted {
        Err(ExpectedVersionError::StreamDeleted)
    } else if !persisted {
        match expected {
            ExpectedVersion::StreamExists => Err(ExpectedVersionError::StreamDoesntExists),
            ExpectedVersion::Version(v) => if v == 0 {
                Err(ExpectedVersionError::NeedCreation)
            } else {
                Err(ExpectedVersionError::WrongExpectedVersion)
            },
            _ => Err(ExpectedVersionError::NeedCreation),
        }
    } else {
        match expected {
            ExpectedVersion::AnyVersion => Ok(()),
            ExpectedVersion::StreamExists => Ok(()),
            ExpectedVersion::NoStream => if version == 0 {
                Ok(())
            } else {
                Err(ExpectedVersionError::StreamAlreadyExists)
            },
            ExpectedVersion::Version(v) => if version == v {
                Ok(())
            } else {
                Err(ExpectedVersionError::WrongExpectedVersion)
            },
        }
    }
}

impl ExpectedVersion {
    /// Verifies whether the given `Stream` matches the `ExpectedVersion`.
    pub fn verify(stream: &Stream, expected: &Self) -> (r: Result<(), ExpectedVersionError>)
        ensures
            r == version_check(
                stream.stream_id != 0,
                stream.deleted_at is Some,
                stream.stream_version,
                *expected,
            ),
    {
        let persisted = stream.is_persisted();
        if persisted && stream.deleted_at.is_some() {
            return Err(ExpectedVersionError::StreamDeleted);
        }
        match expected {
            ExpectedVersion::NoStream if !persisted => Err(ExpectedVersionError::NeedCreation),
            ExpectedVersion::AnyVersion if !persisted => Err(ExpectedVersionError::NeedCreation),
            ExpectedVersion::Version(0) if !persisted => Err(ExpectedVersionError::NeedCreation),
            ExpectedVersion::StreamExists if !persisted => Err(
                ExpectedVersionError::StreamDoesntExists,
            ),
            ExpectedVersion::AnyVersion if persisted => Ok(()),
            ExpectedVersion::StreamExists if persisted => Ok(()),
            ExpectedVersion::Version(version) if persisted && stream.stream_version
                == *version => Ok(()),
            ExpectedVersion::NoStream if persisted && stream.stream_version != 0 => Err(
                ExpectedVersionError::StreamAlreadyExists,
            ),
            ExpectedVersion::NoStream if persisted && stream.stream_version == 0 => Ok(()),
            _ => Err(ExpectedVersionError::WrongExpectedVersion),
        }
    }
}

/// Optimistic concurrency on a live stream (persisted, not deleted): an
/// expected version passes exactly when it is the stream's version, and
/// any other version is refused as wrong; "any version" and "the stream
/// exists" always pass, and "no stream" passes only at version 0.
pub proof fn law_live_stream_versions(stream_version: i64, v: i64)
    ensures
        version_check(true, false, stream_version, ExpectedVersion::Version(v)) is Ok
            <==> stream_version == v,
        stream_version != v ==> version_check(
            true,
            false,
            stream_version,
            ExpectedVersion::Version(v),
        ) == Err::<(), ExpectedVersionError>(ExpectedVersionError::WrongExpectedVersion),
        version_check(true, false, stream_version, ExpectedVersion::AnyVersion) is Ok,
        version_check(true, false, stream_version, ExpectedVersion::StreamExists) is Ok,
        version_check(true, false, stream_version, ExpectedVersion::NoStream) is Ok
            <==> stream_version == 0,
        stream_version != 0 ==> version_check(
            true,
            false,
            stream_version,
            ExpectedVersion::NoStream,
        ) == Err::<(), ExpectedVersionError>(ExpectedVersionError::StreamAlreadyExists),
{
}

/// A deleted stream refuses every expectation, and a stream that is not
/// persisted yet never passes: it must first be created, unless it is
/// required to exist or to be at a version other than 0.
pub proof fn law_dead_or_missing_stream(deleted: bool, stream_version: i64, e: ExpectedVersion)
    ensures
        version_check(true, true, stream_version, e) == Err::<(), ExpectedVersionError>(
            ExpectedVersionError::StreamDeleted,
        ),
        version_check(false, deleted, stream_version, e) is Err,
        version_check(false, deleted, stream_version, e) == Err::<(), ExpectedVersionError>(
            ExpectedVersionError::NeedCreation,
        ) <==> (e == ExpectedVersion::AnyVersion || e == ExpectedVersion::NoStream || e
            == ExpectedVersion::Version(0)),
{
}

} // verus!

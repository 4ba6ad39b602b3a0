//! Event streams.

use vstd::prelude::*;

use crate::text::chars_of;

verus! {

/// The current time in microseconds since the Unix epoch
/// (`chrono::Utc::now().timestamp_micros()`). Nothing is stated of it: it
/// is the clock.
#[verifier::external_body]
fn now_micros() -> (t: i64) {
    chrono::Utc::now().timestamp_micros()
}

/// A `Stream` represents an event stream.
#[derive(Clone, Debug, PartialEq)]
pub struct Stream {
    pub stream_id: i64,
    /// The stream identifier, which is unique.
    pub stream_uuid: String,
    /// The current stream version number.
    pub stream_version: i64,
    /// The creation date of the stream, in microseconds since the Unix epoch.
    pub created_at: i64,
    /// The deletion date of the stream, in microseconds since the Unix epoch.
    pub deleted_at: Option<i64>,
}

/// Errors raised while building a stream.
#[derive(Clone, Copy, Debug, PartialEq, Eq, Structural)]
pub enum StreamError {
    MalformedStreamUUID,
}

/// A stream identifier is valid when it holds no space.
pub open spec fn valid_stream_id(id: Seq<char>) -> bool {
    !id.contains(' ')
}

impl Stream {
    /// The stream identifier.
    pub fn stream_uuid(&self) -> (r: &str)
        ensures
            r@ == self.stream_uuid@,
    {
        self.stream_uuid.as_str()
    }

    /// A stream is persisted once the backend gave it an id.
    pub fn is_persisted(&self) -> (r: bool)
        ensures
            r == (self.stream_id != 0),
    {
        self.stream_id != 0
    }

    /// Whether `stream_id` may name a stream.
    pub fn validates_stream_id(stream_id: &str) -> (r: bool)
        ensures
            r == valid_stream_id(stream_id@),
    {
        let chars = chars_of(stream_id);
        let mut i: usize = 0;
        while i < chars.len()
            invariant
                i <= chars@.len(),
                chars@ == stream_id@,
                !chars@.take(i as int).contains(' '),
            decreases chars@.len() - i,
        {
            if chars[i] == ' ' {
                assert(chars@[i as int] == ' ');
                return false;
            }
            assert(chars@.take(i + 1) =~= chars@.take(i as int).push(chars@[i as int]));
            i = i + 1;
        }
        assert(chars@.take(i as int) =~= chars@);
        true
    }

    /// Builds an unpersisted stream named `s`, created now.
    pub fn parse(s: &str) -> (r: Result<Stream, StreamError>)
        ensures
            match r {
                Ok(st) => valid_stream_id(s@) && st.stream_id == 0 && st.stream_uuid@ == s@
                    && st.stream_version == 0 && st.deleted_at is None,
                Err(e) => !valid_stream_id(s@) && e == StreamError::MalformedStreamUUID,
            },
    {
        if !Self::validates_stream_id(s) {
            return Err(StreamError::MalformedStreamUUID);
        }
        Ok(
            Stream {
                stream_id: 0,
                stream_uuid: s.to_owned(),
                stream_version: 0,
                created_at: now_micros(),
                deleted_at: None,
            },
        )
    }
}

impl std::str::FromStr for Stream {
    type Err = StreamError;

    fn from_str(s: &str) -> (r: Result<Self, Self::Err>)
        ensures
            match r {
                Ok(st) => valid_stream_id(s@) && st.stream_id == 0 && st.stream_uuid@ == s@
                    && st.stream_version == 0 && st.deleted_at is None,
                Err(e) => !valid_stream_id(s@) && e == StreamError::MalformedStreamUUID,
            },
    {
        Stream::parse(s)
    }
}

/// A stream identifier is refused exactly when one of its characters is a
/// space: any other character, `:` and `-` included, is accepted.
pub proof fn law_stream_id_refuses_only_spaces(id: Seq<char>)
    ensures
        valid_stream_id(id) <==> (forall|i: int| 0 <= i < id.len() ==> id[i] != ' '),
{
    if !valid_stream_id(id) {
        let i = choose|i: int| 0 <= i < id.len() && id[i] == ' ';
        assert(id[i] == ' ');
    }
}

} // verus!

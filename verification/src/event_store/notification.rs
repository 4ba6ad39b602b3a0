//! Notifications published by the event bus when events are appended.
//!
//! A notification travels as text: `stream_uuid,stream_id,first_version,last_version`.

use vstd::prelude::*;

use crate::event_store::error::BackendError;
use crate::event_store::versions::ReadVersion;
use crate::text::chars_of;
use vstd::string::StrSliceExecFns;

verus! {

/// The position of the first `c` in `s`.
pub open spec fn find_char(s: Seq<char>, c: char) -> Option<int>
    decreases s.len(),
{
    if s.len() == 0 {
        None
    } else if s[0] == c {
        Some(0)
    } else {
        match find_char(s.drop_first(), c) {
            Some(i) => Some(i + 1),
            None => None,
        }
    }
}

/// The pieces of `s` between commas, at most `n` of them: the last piece
/// keeps the rest of the text, commas included.
pub open spec fn split_n(s: Seq<char>, n: nat) -> Seq<Seq<char>>
    decreases n,
{
    if n <= 1 {
        seq![s]
    } else {
        match find_char(s, ',') {
            None => seq![s],
            Some(i) => seq![s.take(i)] + split_n(s.skip(i + 1), (n - 1) as nat),
        }
    }
}

/// Cutting into at most `n` pieces gives at least one and at most `n`.
pub proof fn lemma_split_len(s: Seq<char>, n: nat)
    requires
        n >= 1,
    ensures
        1 <= split_n(s, n).len() <= n,
    decreases n,
{
    if n > 1 {
        if let Some(i) = find_char(s, ',') {
            lemma_split_len(s.skip(i + 1), (n - 1) as nat);
        }
    }
}

pub open spec fn is_digit(c: char) -> bool {
    '0' <= c && c <= '9'
}

/// The number a string of decimal digits denotes.
pub open spec fn digits_value(d: Seq<char>) -> int
    decreases d.len(),
{
    if d.len() == 0 {
        0
    } else {
        digits_value(d.drop_last()) * 10 + (d.last() as int - '0' as int)
    }
}

/// `s` without its leading sign, if it has one.
pub open spec fn unsigned_part(s: Seq<char>) -> Seq<char> {
    if s.len() > 0 && (s[0] == '-' || s[0] == '+') {
        s.drop_first()
    } else {
        s
    }
}

pub open spec fn all_digits(d: Seq<char>) -> bool {
    forall|i: int| 0 <= i < d.len() ==> is_digit(#[trigger] d[i])
}

/// Decimal text as an `i32`: an optional `+` or `-`, then one or more
/// digits, denoting a value in range.
pub open spec fn parse_i32(s: Seq<char>) -> Option<i32> {
    let d = unsigned_part(s);
    if d.len() == 0 || !all_digits(d) {
        None
    } else {
        let v = if s[0] == '-' {
            -digits_value(d)
        } else {
            digits_value(d)
        };
        if i32::MIN <= v && v <= i32::MAX {
            Some(v as i32)
        } else {
            None
        }
    }
}

pub proof fn lemma_digits_nonneg(d: Seq<char>)
    requires
        forall|i: int| 0 <= i < d.len() ==> is_digit(#[trigger] d[i]),
    ensures
        digits_value(d) >= 0,
    decreases d.len(),
{
    if d.len() > 0 {
        let init = d.drop_last();
        assert forall|i: int| 0 <= i < init.len() implies is_digit(#[trigger] init[i]) by {
            assert(init[i] == d[i]);
        }
        lemma_digits_nonneg(init);
        assert(is_digit(d[d.len() - 1]));
    }
}

/// A prefix of a string of digits never denotes more than the whole.
pub proof fn lemma_digits_prefix(d: Seq<char>, k: int)
    requires
        0 <= k <= d.len(),
        forall|i: int| 0 <= i < d.len() ==> is_digit(#[trigger] d[i]),
    ensures
        digits_value(d.take(k)) <= digits_value(d),
    decreases d.len() - k,
{
    if k < d.len() {
        lemma_digits_prefix(d, k + 1);
        let t = d.take(k + 1);
        assert(t.drop_last() =~= d.take(k));
        assert(t.last() == d[k]);
        assert(is_digit(d[k]));
        assert forall|i: int| 0 <= i < k implies is_digit(#[trigger] d.take(k)[i]) by {
            assert(d.take(k)[i] == d[i]);
        }
        lemma_digits_nonneg(d.take(k));
    } else {
        assert(d.take(k) =~= d);
    }
}

pub proof fn lemma_find_char(t: Seq<char>, c: char, k: int)
    requires
        0 <= k <= t.len(),
        forall|j: int| 0 <= j < k ==> t[j] != c,
        k < t.len() ==> t[k] == c,
    ensures
        find_char(t, c) == if k < t.len() {
            Some(k)
        } else {
            None::<int>
        },
    decreases t.len(),
{
    if t.len() > 0 && k > 0 {
        lemma_find_char(t.drop_first(), c, k - 1);
    }
}

/// The position of the first comma at or after `from`.
fn find_comma(cs: &Vec<char>, from: usize) -> (r: Option<usize>)
    requires
        from <= cs@.len(),
    ensures
        find_char(cs@.skip(from as int), ',') == match r {
            Some(i) => Some(i - from),
            None => None::<int>,
        },
        r matches Some(i) ==> from <= i < cs@.len(),
{
    let mut i = from;
    while i < cs.len()
        invariant
            from <= i <= cs@.len(),
            forall|j: int| from <= j < i ==> cs@[j] != ',',
        decreases cs@.len() - i,
    {
        if cs[i] == ',' {
            proof {
                lemma_find_char(cs@.skip(from as int), ',', i - from);
            }
            return Some(i);
        }
        i = i + 1;
    }
    proof {
        lemma_find_char(cs@.skip(from as int), ',', cs@.len() - from);
    }
    None
}

/// Parses `cs[from..to]` as an `i32`.
fn parse_i32_in(cs: &Vec<char>, from: usize, to: usize) -> (r: Option<i32>)
    requires
        from <= to <= cs@.len(),
    ensures
        r == parse_i32(cs@.subrange(from as int, to as int)),
{
    let ghost s = cs@.subrange(from as int, to as int);
    let mut i = from;
    let mut neg = false;
    if i < to && cs[i] == '-' {
        neg = true;
        i = i + 1;
    } else if i < to && cs[i] == '+' {
        i = i + 1;
    }
    let ghost d = cs@.subrange(i as int, to as int);
    assert(d =~= unsigned_part(s));
    if i == to {
        return None;
    }
    let start = i;
    let mut acc: i64 = 0;
    assert(d.take(0) =~= Seq::<char>::empty());
    while i < to
        invariant
            start <= i <= to,
            to <= cs@.len(),
            start < to,
            s == cs@.subrange(from as int, to as int),
            d == cs@.subrange(start as int, to as int),
            from <= start,
            d == unsigned_part(s),
            neg == (s.len() > 0 && s[0] == '-'),
            0 <= acc <= 2147483648,
            acc == digits_value(d.take(i - start)),
            forall|j: int| 0 <= j < i - start ==> is_digit(#[trigger] d[j]),
        decreases to - i,
    {
        let c = cs[i];
        assert(d[i - start] == c);
        if !(c >= '0' && c <= '9') {
            assert(!is_digit(d[i - start]));
            assert(!all_digits(d));
            return None;
        }
        assert(d.take(i - start + 1).drop_last() =~= d.take(i - start));
        assert(d.take(i - start + 1).last() == c);
        let digit = (c as u32 - '0' as u32) as i64;
        acc = acc * 10 + digit;
        i = i + 1;
        if acc > 2147483648 {
            proof {
                if all_digits(d) {
                    lemma_digits_prefix(d, i - start);
                    assert(digits_value(d) > 2147483648);
                }
                assert(parse_i32(s) == None::<i32>);
            }
            return None;
        }
    }
    assert(d.take(i - start) =~= d);
    let v: i64 = if neg {
        -acc
    } else {
        acc
    };
    if v < -2147483648 || v > 2147483647 {
        None
    } else {
        Some(v as i32)
    }
}


/// A piece without commas followed by a comma is cut off whole.
pub proof fn lemma_split_piece(u: Seq<char>, rest: Seq<char>, n: nat)
    requires
        n > 1,
        !u.contains(','),
    ensures
        split_n(u + seq![','] + rest, n) == seq![u] + split_n(rest, (n - 1) as nat),
{
    let s = u + seq![','] + rest;
    assert forall|j: int| 0 <= j < u.len() implies s[j] != ',' by {
        assert(s[j] == u[j]);
    }
    lemma_find_char(s, ',', u.len() as int);
    assert(s.take(u.len() as int) =~= u);
    assert(s.skip(u.len() as int + 1) =~= rest);
}

/// The text `stream_uuid,stream_id,first_stream_version,last_stream_version`
/// is cut back into exactly its four fields when the first three hold no
/// comma; so each field of the notification is read from its own piece,
/// and the text is refused exactly when the identifier is empty or one of
/// the numbers is not a decimal `i32`.
pub proof fn law_notification_fields(u: Seq<char>, a: Seq<char>, b: Seq<char>, c: Seq<char>)
    requires
        !u.contains(','),
        !a.contains(','),
        !b.contains(','),
    ensures
        ({
            let text = u + seq![','] + a + seq![','] + b + seq![','] + c;
            &&& split_n(text, 4) == seq![u, a, b, c]
            &&& field_value(text, 1) == parse_i32(a)
            &&& field_value(text, 2) == parse_i32(b)
            &&& field_value(text, 3) == parse_i32(c)
            &&& (first_bad_field(text) is None <==> parse_i32(a) is Some && parse_i32(b) is Some
                && parse_i32(c) is Some)
        }),
{
    let r2 = b + seq![','] + c;
    let r1 = a + seq![','] + r2;
    let text = u + seq![','] + a + seq![','] + b + seq![','] + c;
    assert(text =~= u + seq![','] + r1);
    assert(r1 =~= a + seq![','] + r2);
    lemma_split_piece(u, r1, 4);
    lemma_split_piece(a, r2, 3);
    lemma_split_piece(b, c, 2);
    assert(split_n(c, 1) == seq![c]);
    assert(split_n(text, 4) =~= seq![u, a, b, c]);
}

/// Where each of the comma-separated pieces of `cs` lies: at most four
/// pieces, the last one keeping the rest of the text.
fn split_fields(cs: &Vec<char>) -> (r: Vec<(usize, usize)>)
    ensures
        r@.len() == split_n(cs@, 4).len(),
        forall|k: int|
            0 <= k < r@.len() ==> {
                &&& r@[k].0 <= r@[k].1 <= cs@.len()
                &&& cs@.subrange(r@[k].0 as int, r@[k].1 as int) == #[trigger] split_n(cs@, 4)[k]
            },
{
    let ghost s = cs@;
    let n = cs.len();
    let mut r: Vec<(usize, usize)> = Vec::new();
    assert(s.skip(0) =~= s);
    match find_comma(cs, 0) {
        None => {
            r.push((0, n));
            assert(s.subrange(0, n as int) =~= s);
        },
        Some(c1) => {
            r.push((0, c1));
            let ghost s1 = s.skip(c1 + 1);
            assert(split_n(s, 4) == seq![s.take(c1 as int)] + split_n(s1, 3));
            assert(s.subrange(0, c1 as int) =~= s.take(c1 as int));
            assert(cs@.skip(c1 + 1) =~= s1);
            match find_comma(cs, c1 + 1) {
                None => {
                    r.push((c1 + 1, n));
                    assert(s.subrange(c1 + 1, n as int) =~= s1);
                    assert(split_n(s1, 3) == seq![s1]);
                    assert(split_n(s, 4) =~= seq![s.take(c1 as int), s1]);
                },
                Some(c2) => {
                    r.push((c1 + 1, c2));
                    let ghost s2 = s.skip(c2 + 1);
                    assert(s1.skip(c2 - c1) =~= s2);
                    assert(s1.take(c2 - c1 - 1) =~= s.subrange(c1 + 1, c2 as int));
                    assert(split_n(s1, 3) == seq![s1.take(c2 - c1 - 1)] + split_n(s2, 2));
                    assert(cs@.skip(c2 + 1) =~= s2);
                    match find_comma(cs, c2 + 1) {
                        None => {
                            r.push((c2 + 1, n));
                            assert(s.subrange(c2 + 1, n as int) =~= s2);
                            assert(split_n(s2, 2) == seq![s2]);
                            assert(split_n(s, 4) =~= seq![
                                s.take(c1 as int),
                                s.subrange(c1 + 1, c2 as int),
                                s2,
                            ]);
                        },
                        Some(c3) => {
                            r.push((c2 + 1, c3));
                            r.push((c3 + 1, n));
                            let ghost s3 = s.skip(c3 + 1);
                            assert(s2.skip(c3 - c2) =~= s3);
                            assert(s2.take(c3 - c2 - 1) =~= s.subrange(c2 + 1, c3 as int));
                            assert(s.subrange(c3 + 1, n as int) =~= s3);
                            assert(split_n(s3, 1) == seq![s3]);
                            assert(split_n(s2, 2) == seq![s2.take(c3 - c2 - 1)] + split_n(s3, 1));
                            assert(split_n(s, 4) =~= seq![
                                s.take(c1 as int),
                                s.subrange(c1 + 1, c2 as int),
                                s.subrange(c2 + 1, c3 as int),
                                s3,
                            ]);
                        },
                    }
                },
            }
        },
    }
    r
}


/// Notification produced by the event bus, naming the stream and the range
/// of versions that were appended.
#[derive(Clone, Debug)]
pub struct EventNotification {
    pub stream_id: i32,
    pub stream_uuid: String,
    pub first_stream_version: i32,
    pub last_stream_version: i32,
}

/// Why a notification could not be read.
#[derive(Clone, Copy, Debug)]
pub enum EventNotificationError {
    /// The named field is missing or is not a decimal `i32`.
    ParsingError { field: &'static str },
    /// The stream identifier is empty.
    InvalidStreamUUID,
}

/// What a failure on the event bus carries.
pub enum EventBusError {
    /// A notification could not be read.
    EventNotificationError(EventNotificationError),
    /// The bus itself failed.
    InternalEventBusError(Box<dyn BackendError>),
}

/// The name of the `k`-th field of a notification.
pub open spec fn field_name(k: int) -> Seq<char> {
    if k == 1 {
        "stream_id"@
    } else if k == 2 {
        "first_stream_version"@
    } else {
        "last_stream_version"@
    }
}

/// The `k`-th field of the notification text `s`, read as an `i32`.
pub open spec fn field_value(s: Seq<char>, k: int) -> Option<i32> {
    let p = split_n(s, 4);
    if k < p.len() {
        parse_i32(p[k])
    } else {
        None
    }
}

/// The first of the three numeric fields that is missing or unreadable.
pub open spec fn first_bad_field(s: Seq<char>) -> Option<int> {
    if field_value(s, 1) is None {
        Some(1)
    } else if field_value(s, 2) is None {
        Some(2)
    } else if field_value(s, 3) is None {
        Some(3)
    } else {
        None
    }
}

/// Whether the text `s` is a notification: its identifier is not empty and
/// its three numbers are decimal `i32`s.
pub open spec fn notification_accepted(s: Seq<char>) -> bool {
    split_n(s, 4)[0].len() > 0 && first_bad_field(s) is None
}

pub open spec fn succeeded<T, E>(r: Result<T, E>) -> bool {
    r is Ok
}

impl EventNotification {
    /// Reads `stream_uuid,stream_id,first_stream_version,last_stream_version`.
    ///
    /// The text is cut at its first three commas. An empty stream identifier
    /// is `InvalidStreamUUID`; otherwise the first numeric field that is
    /// missing or not a decimal `i32` is a `ParsingError` naming it.
    pub fn parse(value: &str) -> (r: Result<EventNotification, EventNotificationError>)
        ensures
            split_n(value@, 4)[0].len() == 0 <==> r matches Err(
                EventNotificationError::InvalidStreamUUID,
            ),
            split_n(value@, 4)[0].len() > 0 && first_bad_field(value@) is Some ==> (r matches Err(
                EventNotificationError::ParsingError { field },
            ) && field@ == field_name(first_bad_field(value@)->0)),
            r matches Ok(n) ==> {
                &&& n.stream_uuid@ == split_n(value@, 4)[0]
                &&& Some(n.stream_id) == field_value(value@, 1)
                &&& Some(n.first_stream_version) == field_value(value@, 2)
                &&& Some(n.last_stream_version) == field_value(value@, 3)
            },
            r is Ok <==> notification_accepted(value@),
    {
        let cs = chars_of(value);
        let ranges = split_fields(&cs);
        proof {
            lemma_split_len(cs@, 4);
        }
        let (u0, u1) = ranges[0];
        assert(cs@.subrange(u0 as int, u1 as int) == split_n(value@, 4)[0]);
        if u0 == u1 {
            return Err(EventNotificationError::InvalidStreamUUID);
        }
        let stream_uuid = value.substring_char(u0, u1).to_owned();
        if ranges.len() < 2 {
            return Err(EventNotificationError::ParsingError { field: "stream_id" });
        }
        let stream_id = match parse_i32_in(&cs, ranges[1].0, ranges[1].1) {
            Some(v) => v,
            None => {
                return Err(EventNotificationError::ParsingError { field: "stream_id" });
            },
        };
        if ranges.len() < 3 {
            return Err(EventNotificationError::ParsingError { field: "first_stream_version" });
        }
        let first_stream_version = match parse_i32_in(&cs, ranges[2].0, ranges[2].1) {
            Some(v) => v,
            None => {
                return Err(EventNotificationError::ParsingError { field: "first_stream_version" });
            },
        };
        if ranges.len() < 4 {
            return Err(EventNotificationError::ParsingError { field: "last_stream_version" });
        }
        let last_stream_version = match parse_i32_in(&cs, ranges[3].0, ranges[3].1) {
            Some(v) => v,
            None => {
                return Err(EventNotificationError::ParsingError { field: "last_stream_version" });
            },
        };
        Ok(EventNotification { stream_id, stream_uuid, first_stream_version, last_stream_version })
    }
}

impl EventNotification {
    /// Where a subscriber reads the notified events: from the first
    /// notified version on, as many events as the notification spans.
    pub fn read_window(&self) -> (r: (ReadVersion, usize))
        requires
            i32::MIN <= self.last_stream_version - self.first_stream_version < i32::MAX,
        ensures
            r.0 == ReadVersion::Version(self.first_stream_version as i64),
            r.1 == (self.last_stream_version - self.first_stream_version + 1) as usize,
    {
        let span: i32 = self.last_stream_version - self.first_stream_version + 1;
        (ReadVersion::Version(self.first_stream_version as i64), span as usize)
    }
}

impl<'a> TryFrom<&'a str> for EventNotification {
    type Error = EventNotificationError;

    fn try_from(value: &'a str) -> (r: Result<Self, Self::Error>)
        ensures
            split_n(value@, 4)[0].len() == 0 <==> r matches Err(
                EventNotificationError::InvalidStreamUUID,
            ),
            split_n(value@, 4)[0].len() > 0 && first_bad_field(value@) is Some ==> (r matches Err(
                EventNotificationError::ParsingError { field },
            ) && field@ == field_name(first_bad_field(value@)->0)),
            r matches Ok(n) ==> {
                &&& n.stream_uuid@ == split_n(value@, 4)[0]
                &&& Some(n.stream_id) == field_value(value@, 1)
                &&& Some(n.first_stream_version) == field_value(value@, 2)
                &&& Some(n.last_stream_version) == field_value(value@, 3)
            },
            r is Ok <==> notification_accepted(value@),
    {
        EventNotification::parse(value)
    }
}

impl<'a> vstd::std_specs::convert::TryFromSpecImpl<&'a str> for EventNotification {
    open spec fn obeys_try_from_spec() -> bool {
        false
    }

    open spec fn try_from_spec(v: &'a str) -> Result<Self, EventNotificationError> {
        choose|r: Result<Self, EventNotificationError>|
            #[trigger] succeeded(r) == notification_accepted(v@)
    }
}

} // verus!

use vstd::prelude::*;

verus! {

/// The first instant of the year 0000, in microseconds since the Unix epoch.
pub const MIN_MICROS: i64 = -62167219200000000;

/// The last microsecond of the year 9999, in microseconds since the Unix epoch.
pub const MAX_MICROS: i64 = 253402300799999999;

/// An instant in UTC, as microseconds since 1970-01-01T00:00:00Z.
///
/// A timestamp is well formed when its year has four digits, so that its
/// text always takes the same number of characters.
#[derive(Clone, Copy, Debug, PartialEq, Eq, Structural)]
pub struct Timestamp {
    pub micros: i64,
}

pub open spec fn micros_in_range(m: i64) -> bool {
    MIN_MICROS <= m <= MAX_MICROS
}

impl Timestamp {
    pub open spec fn wf(&self) -> bool {
        micros_in_range(self.micros)
    }

    /// The instant `micros` microseconds after the Unix epoch.
    pub fn from_micros(micros: i64) -> (r: Timestamp)
        ensures
            r.micros == micros,
    {
        Timestamp { micros }
    }

    /// Whether the timestamp is well formed.
    pub fn is_valid(&self) -> (r: bool)
        ensures
            r == self.wf(),
    {
        MIN_MICROS <= self.micros && self.micros <= MAX_MICROS
    }

    /// The Unix epoch itself.
    pub fn epoch() -> (r: Timestamp)
        ensures
            r.micros == 0,
            r.wf(),
    {
        Timestamp { micros: 0 }
    }
}

/// The RFC 3339 text, with six fractional digits and a `+00:00` offset,
/// that chrono writes for the instant `micros`.
pub uninterp spec fn rfc3339_text(micros: i64) -> Seq<char>;

/// The instant, in microseconds since the epoch, that chrono reads from an
/// RFC 3339 text, or `None` where chrono rejects the text.
pub uninterp spec fn rfc3339_value(s: Seq<char>) -> Option<i64>;

pub open spec fn is_rfc3339_char(c: char) -> bool {
    ('0' <= c && c <= '9') || c == '-' || c == 'T' || c == ':' || c == '.' || c == '+'
}

/// Relies on chrono's `DateTime::<Utc>::from_timestamp_micros` and
/// `to_rfc3339_opts(SecondsFormat::Micros, false)`: for a four-digit year
/// the text is `YYYY-MM-DDTHH:MM:SS.ffffff+00:00`, 32 characters of digits
/// and separators, and chrono's RFC 3339 parser reads back the same instant.
#[verifier::external_body]
pub(crate) fn format_rfc3339_micros(micros: i64) -> (r: String)
    requires
        micros_in_range(micros),
    ensures
        r@ == rfc3339_text(micros),
        r@.len() == 32,
        forall|i: int| 0 <= i < r@.len() ==> is_rfc3339_char(#[trigger] r@[i]),
        rfc3339_value(r@) == Some(micros),
{
    chrono::DateTime::<chrono::Utc>::from_timestamp_micros(micros)
        .unwrap()
        .to_rfc3339_opts(chrono::SecondsFormat::Micros, false)
}

/// chrono's `ParseError`, which its RFC 3339 parser returns; carried
/// through opaque.
#[verifier::external_type_specification]
#[verifier::external_body]
pub struct ExParseError(chrono::format::ParseError);

/// Relies on chrono's `DateTime::parse_from_rfc3339`, with the parsed
/// instant taken as microseconds since the epoch by `timestamp_micros`.
#[verifier::external_body]
pub(crate) fn parse_rfc3339_micros(s: &str) -> (r: Result<i64, chrono::format::ParseError>)
    ensures
        r is Ok <==> rfc3339_value(s@) is Some,
        r is Ok ==> rfc3339_value(s@) == Some(r->Ok_0),
{
    match chrono::DateTime::parse_from_rfc3339(s) {
        Ok(d) => Ok(d.timestamp_micros()),
        Err(e) => Err(e),
    }
}

/// Why a text is not a timestamp of the store.
#[derive(Clone, Copy, Debug, PartialEq, Eq, Structural)]
pub enum TimeError {
    /// The text is not an RFC 3339 date and time.
    Syntax,
    /// The instant falls outside the years 0000 to 9999 in UTC.
    OutOfRange,
}

/// The timestamp for what a parse gave: nothing, or an instant that must
/// have a four-digit year.
pub open spec fn time_of_parsed(parsed: Option<i64>) -> Result<Timestamp, TimeError> {
    match parsed {
        None => Err(TimeError::Syntax),
        Some(m) => if micros_in_range(m) {
            Ok(Timestamp { micros: m })
        } else {
            Err(TimeError::OutOfRange)
        },
    }
}

/// The timestamp that an RFC 3339 text denotes, normalised to UTC.
pub open spec fn parse_time_spec(s: Seq<char>) -> Result<Timestamp, TimeError> {
    time_of_parsed(rfc3339_value(s))
}

/// The timestamp for what a parse gave, in microseconds since the epoch.
pub fn time_from_parsed(parsed: Option<i64>) -> (r: Result<Timestamp, TimeError>)
    ensures
        r == time_of_parsed(parsed),
        r is Ok ==> r->Ok_0.wf(),
{
    match parsed {
        None => Err(TimeError::Syntax),
        Some(m) => if MIN_MICROS <= m && m <= MAX_MICROS {
            Ok(Timestamp { micros: m })
        } else {
            Err(TimeError::OutOfRange)
        },
    }
}

/// Reads an RFC 3339 date and time, in any offset, as a UTC timestamp.
pub fn parse_time(s: &str) -> (r: Result<Timestamp, TimeError>)
    ensures
        r == parse_time_spec(s@),
        r is Ok ==> r->Ok_0.wf(),
{
    let parsed = match parse_rfc3339_micros(s) {
        Err(_) => None,
        Ok(m) => Some(m),
    };
    time_from_parsed(parsed)
}

/// What is known of the text of a timestamp: 32 characters of digits and
/// separators, which read back as the same timestamp.
pub open spec fn time_text_facts(t: Timestamp) -> bool {
    let s = rfc3339_text(t.micros);
    &&& s.len() == 32
    &&& forall|i: int| 0 <= i < s.len() ==> is_rfc3339_char(#[trigger] s[i])
    &&& parse_time_spec(s) == Ok::<Timestamp, TimeError>(t)
}

/// The RFC 3339 text of a well-formed timestamp, to the microsecond.
pub fn format_time(t: Timestamp) -> (r: String)
    requires
        t.wf(),
    ensures
        r@ == rfc3339_text(t.micros),
        time_text_facts(t),
{
    format_rfc3339_micros(t.micros)
}

} // verus!

//! Message timestamps, carried as the date-and-time text that goes on the wire.

use vstd::prelude::*;

verus! {

/// Whether `chrono` reads `text` as a date and time with an offset from UTC
/// (RFC 3339, in the relaxed form that `chrono` accepts).
pub uninterp spec fn is_date_time_text(text: Seq<char>) -> bool;

/// Calls `str::parse::<chrono::DateTime<chrono::Utc>>` and reports whether it
/// succeeded. The contract only names that outcome: it is a function of the
/// text alone.
#[verifier::external_body]
fn parses_as_date_time(text: &str) -> (ok: bool)
    ensures
        ok == is_date_time_text(text@),
{
    text.parse::<chrono::DateTime<chrono::Utc>>().is_ok()
}

/// Calls `chrono::Utc::now` and writes the instant with
/// `DateTime::to_rfc3339_opts(SecondsFormat::AutoSi, true)`. Nothing is
/// claimed of the text: it depends on the clock. `Utc::now` panics if the
/// system clock is set before 1970.
#[verifier::external_body]
fn clock_text() -> (text: String) {
    chrono::Utc::now().to_rfc3339_opts(chrono::SecondsFormat::AutoSi, true)
}

/// The time of day, as hours and minutes in UTC, of the instant that `text`
/// is read as; `None` if `text` is no date and time.
pub uninterp spec fn clock_time(text: Seq<char>) -> Option<Seq<char>>;

/// Calls `str::parse::<chrono::DateTime<chrono::Utc>>` and, on the instant
/// read, `DateTime::format` with `"%H:%M"`. Both are functions of the text
/// alone; the contract only names the outcome.
#[verifier::external_body]
fn hour_and_minute(text: &str) -> (time: Option<String>)
    ensures
        time.deep_view() == clock_time(text@),
{
    match text.parse::<chrono::DateTime<chrono::Utc>>() {
        Ok(instant) => Some(instant.format("%H:%M").to_string()),
        Err(_) => None,
    }
}

/// The instant at which a message was written.
///
/// The relay never interprets it; it keeps the text that the author's side
/// wrote, so that every peer reads the same instant from it.
#[derive(Debug, PartialEq, Eq)]
pub struct Timestamp {
    text: String,
}

impl View for Timestamp {
    type V = Seq<char>;

    closed spec fn view(&self) -> Seq<char> {
        self.text@
    }
}

impl DeepView for Timestamp {
    type V = Seq<char>;

    open spec fn deep_view(&self) -> Seq<char> {
        self@
    }
}

impl Clone for Timestamp {
    fn clone(&self) -> (copy: Self)
        ensures
            copy@ == self@,
    {
        Timestamp { text: self.text.clone() }
    }
}

impl Timestamp {
    /// A timestamp that a decoder accepts.
    pub open spec fn valid(&self) -> bool {
        is_date_time_text(self@)
    }

    /// The timestamp whose text is `text`, whatever it holds.
    fn of_text(text: String) -> (stamp: Timestamp)
        ensures
            stamp@ == text@,
    {
        Timestamp { text }
    }

    /// Reads a timestamp from its text; `None` if the text is no date and time.
    pub fn parse(text: &str) -> (parsed: Option<Timestamp>)
        ensures
            parsed is Some <==> is_date_time_text(text@),
            parsed is Some ==> parsed->0@ == text@,
    {
        if parses_as_date_time(text) {
            Some(Timestamp::of_text(text.to_owned()))
        } else {
            None
        }
    }

    /// The current time, in UTC: the timestamp whose text the clock gives.
    /// What that text is, only the clock decides.
    pub fn now() -> Timestamp {
        Timestamp::of_text(clock_text())
    }

    /// The time of day of the timestamp, as hours and minutes in UTC; `None`
    /// if the timestamp is no date and time.
    pub fn hour_minute(&self) -> (time: Option<String>)
        ensures
            time.deep_view() == clock_time(self@),
    {
        hour_and_minute(self.text.as_str())
    }

    /// The text of the timestamp.
    pub fn as_str(&self) -> (text: &str)
        ensures
            text@ == self@,
    {
        self.text.as_str()
    }
}

} // verus!

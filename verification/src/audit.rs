//! Audit record construction.
//!
//! The song-play log and the bug-report log are append-only record sinks
//! owned by a collaborator; this module only builds the delimited record
//! bytes (a timestamp leading an ordered field list). Appending them to a
//! file, and the decision whether a song log is configured at all, stay with
//! the caller. A record that cannot be built is reported as absent, never as
//! an error.

use vstd::prelude::*;

verus! {

/// The Rfc3339 rendering of an instant, given in nanoseconds since the unix
/// epoch.
pub uninterp spec fn rfc3339_of(ns: int) -> Seq<char>;

/// The first nanosecond of year 10000: the earliest non-negative instant the
/// Rfc3339 description cannot render (it writes the year in four digits).
pub const RFC3339_NS_LIMIT: i128 = 253402300800000000000;

/// The same limit in milliseconds.
pub const RFC3339_MS_LIMIT: u64 = 253402300800000;

/// Relies on time's `OffsetDateTime::format` with the well-known `Rfc3339`
/// description: the text depends on the instant alone, and formatting
/// succeeds for every representable UTC instant whose year has four digits,
/// so for every non-negative instant below year 10000.
/// `from_unix_timestamp_nanos` converts the argument; out-of-range instants
/// and formatting failures yield `None`.
#[verifier::external_body]
fn format_rfc3339(ns: i128) -> (r: Option<String>)
    ensures
        r matches Some(s) ==> s@ == rfc3339_of(ns as int),
        0 <= ns < RFC3339_NS_LIMIT ==> r is Some,
{
    match time::OffsetDateTime::from_unix_timestamp_nanos(ns) {
        Ok(t) => t.format(&time::format_description::well_known::Rfc3339).ok(),
        Err(_) => None,
    }
}

/// One delimited record holding the given fields, as the record writer
/// renders it.
pub uninterp spec fn csv_record_of(fields: Seq<Seq<char>>) -> Seq<u8>;

/// Relies on csv's `Writer::write_record` (with `into_inner` to take the
/// bytes back out): one delimited record, a function of the field list
/// alone. Writing a first record to an in-memory buffer cannot fail: the
/// field count has nothing earlier to disagree with, and a `Vec` never
/// refuses bytes, so the writer always hands the record back.
#[verifier::external_body]
fn csv_record(fields: &Vec<String>) -> (r: Option<Vec<u8>>)
    ensures
        r is Some,
        r matches Some(b) ==> b@ == csv_record_of(fields.deep_view()),
{
    let mut w = csv::Writer::from_writer(Vec::new());
    if w.write_record(fields).is_err() {
        return None;
    }
    w.into_inner().ok()
}

/// Milliseconds since the epoch, as the nanosecond instant the formatter
/// takes.
pub open spec fn ms_to_ns(ms: int) -> int {
    ms * 1000000
}

/// Record appended to the song-play log when a queued song starts playing.
pub fn song_log_record(artist: &String, title: &String, now: u64) -> (r: Option<Vec<u8>>)
    ensures
        r matches Some(b) ==> b@ == csv_record_of(
            seq![rfc3339_of(ms_to_ns(now as int)), artist@, title@],
        ),
        now < RFC3339_MS_LIMIT ==> r is Some,
{
    let ts = match format_rfc3339((now as i128) * 1000000) {
        Some(t) => t,
        None => {
            return None;
        },
    };
    let ghost ts_view = ts@;
    let mut fields: Vec<String> = Vec::new();
    fields.push(ts);
    fields.push(artist.clone());
    fields.push(title.clone());
    assert(fields.deep_view() =~= seq![ts_view, artist@, title@]);
    csv_record(&fields)
}

/// Record appended to the bug-report log.
pub fn bug_log_record(artist: &String, title: &String, report: &str, now: u64) -> (r: Option<Vec<u8>>)
    ensures
        r matches Some(b) ==> b@ == csv_record_of(
            seq![rfc3339_of(ms_to_ns(now as int)), artist@, title@, report@],
        ),
        now < RFC3339_MS_LIMIT ==> r is Some,
{
    let ts = match format_rfc3339((now as i128) * 1000000) {
        Some(t) => t,
        None => {
            return None;
        },
    };
    let ghost ts_view = ts@;
    let mut fields: Vec<String> = Vec::new();
    fields.push(ts);
    fields.push(artist.clone());
    fields.push(title.clone());
    fields.push(report.to_owned());
    assert(fields.deep_view() =~= seq![ts_view, artist@, title@, report@]);
    csv_record(&fields)
}

} // verus!

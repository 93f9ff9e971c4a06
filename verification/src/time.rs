//! Points in time, through the `chrono` crate.

use vstd::prelude::*;

verus! {

/// `DateTime::<Utc>::from_timestamp(secs, nanos)` is `Some`.
pub uninterp spec fn chrono_accepts(secs: i64, nanos: u32) -> bool;

/// RFC 3339 text (`SecondsFormat::AutoSi`, `Z` for UTC) of the instant
/// `secs` seconds and `nanos` nanoseconds after the Unix epoch: the form in
/// which serde writes a `DateTime<Utc>`.
pub uninterp spec fn rfc3339_text(secs: i64, nanos: u32) -> Seq<char>;

/// `Utc::now()`, as its `timestamp()` and `timestamp_subsec_nanos()`.
/// chrono documents that these round-trip through `from_timestamp`.
#[verifier::external_body]
fn now_parts() -> (t: (i64, u32))
    ensures
        chrono_accepts(t.0, t.1),
{
    let now = chrono::Utc::now();
    (now.timestamp(), now.timestamp_subsec_nanos())
}

/// `DateTime::<Utc>::from_timestamp(secs, nanos).is_some()`.
#[verifier::external_body]
fn accepts(secs: i64, nanos: u32) -> (ok: bool)
    ensures
        ok == chrono_accepts(secs, nanos),
{
    chrono::DateTime::from_timestamp(secs, nanos).is_some()
}

/// `to_rfc3339_opts(SecondsFormat::AutoSi, true)` of the `DateTime<Utc>`
/// that `from_timestamp(secs, nanos)` gives.
#[verifier::external_body]
fn rfc3339(secs: i64, nanos: u32) -> (s: String)
    requires
        chrono_accepts(secs, nanos),
    ensures
        s@ == rfc3339_text(secs, nanos),
{
    match chrono::DateTime::from_timestamp(secs, nanos) {
        Some(t) => t.to_rfc3339_opts(chrono::SecondsFormat::AutoSi, true),
        None => String::new(),
    }
}

/// An instant in UTC: seconds since the Unix epoch and nanoseconds within
/// the second (above a billion during a leap second), always in chrono's
/// range.
#[derive(Clone, Copy, Debug, PartialEq, Eq)]
pub struct Timestamp {
    secs: i64,
    nanos: u32,
}

impl View for Timestamp {
    type V = (i64, u32);

    closed spec fn view(&self) -> (i64, u32) {
        (self.secs, self.nanos)
    }
}

impl Timestamp {
    #[verifier::type_invariant]
    spec fn in_range(self) -> bool {
        chrono_accepts(self.secs, self.nanos)
    }

    /// The current time.
    pub fn now() -> (t: Timestamp) {
        let (secs, nanos) = now_parts();
        Timestamp { secs, nanos }
    }

    /// The instant `secs` seconds and `nanos` nanoseconds after the epoch,
    /// or `None` where chrono cannot represent it.
    pub fn from_unix(secs: i64, nanos: u32) -> (r: Option<Timestamp>)
        ensures
            r is Some <==> chrono_accepts(secs, nanos),
            r matches Some(t) ==> t@ == (secs, nanos),
    {
        if accepts(secs, nanos) {
            Some(Timestamp { secs, nanos })
        } else {
            None
        }
    }

    /// Seconds since the Unix epoch.
    pub fn unix_seconds(&self) -> (s: i64)
        ensures
            s == self@.0,
    {
        self.secs
    }

    /// Nanoseconds within the second.
    pub fn subsec_nanos(&self) -> (n: u32)
        ensures
            n == self@.1,
    {
        self.nanos
    }

    /// RFC 3339 text of this instant, as serde writes a `DateTime<Utc>`.
    pub fn to_rfc3339(&self) -> (s: String)
        ensures
            s@ == rfc3339_text(self@.0, self@.1),
    {
        proof { use_type_invariant(self); }
        rfc3339(self.secs, self.nanos)
    }
}

} // verus!

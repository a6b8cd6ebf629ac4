//! Pastes as the database holds them.

use vstd::prelude::*;

use crate::slug::Slug;

verus! {

/// How long a new paste lives, as an SQLite date modifier (after a `+`).
pub const PASTE_LIFETIME: &'static str = "7 days";

/// A paste about to be inserted.
pub struct NewPaste<'a> {
    pub slug: &'a Slug,
    pub path: &'a str,
    pub hash: crate::hash::Hash,
    pub content_type: Option<&'a str>,
    pub expires_in: &'a str,
}

impl<'a> NewPaste<'a> {
    /// The row for an upload stored at `path`, living for seven days.
    pub fn for_upload(slug: &'a Slug, path: &'a str, hash: crate::hash::Hash, content_type: Option<&'a str>) -> (r:
        NewPaste<'a>)
        ensures
            r.slug == slug,
            r.path == path,
            r.hash == hash,
            r.content_type == content_type,
            r.expires_in@ == seq!['7', ' ', 'd', 'a', 'y', 's'],
    {
        let expires_in: &'static str = PASTE_LIFETIME;
        proof {
            reveal_strlit("7 days");
        }
        NewPaste { slug, path, hash, content_type, expires_in }
    }
}

/// A stored paste. Times are Unix timestamps in nanoseconds (UTC).
pub struct Paste {
    pub slug: Slug,
    pub path: String,
    pub hash: crate::hash::Hash,
    pub content_type: Option<String>,
    pub created_at: i128,
    pub expires_at: Option<i128>,
}

/// A paste with whether it is the only one that holds its content hash.
pub struct PasteWithUniq {
    pub paste: Paste,
    pub uniq: bool,
}

/// A bound on the Unix timestamps, in nanoseconds, that `time` can represent:
/// its dates lie within the years -999_999 to 999_999.
pub const CLOCK_BOUND: i128 = 100_000_000_000_000_000_000_000;

/// `time::OffsetDateTime::now_utc` as a Unix timestamp in nanoseconds.
/// Claimed only that the instant lies in the range of dates that `time`
/// represents (the conversion from the system clock panics rather than leave
/// it); nothing is claimed of which instant it is.
#[verifier::external_body]
fn now_unix_nanos() -> (r: i128)
    ensures
        -CLOCK_BOUND < r < CLOCK_BOUND,
{
    time::OffsetDateTime::now_utc().unix_timestamp_nanos()
}

impl Paste {
    /// The paste has an expiry time and it lies before `now`.
    pub open spec fn expired_at(&self, now: i128) -> bool {
        self.expires_at matches Some(e) && e < now
    }

    /// Whether the paste has expired at the time `now`.
    pub fn is_expired_at(&self, now: i128) -> (r: bool)
        ensures
            r == self.expired_at(now),
    {
        match self.expires_at {
            Some(e) => e < now,
            None => false,
        }
    }

    /// Whether the paste has expired now: the expiry test at the instant read
    /// from the clock. A paste without an expiry time never expires.
    pub fn is_expired(&self) -> (r: bool)
        ensures
            r ==> self.expires_at is Some,
            exists|now: i128| -CLOCK_BOUND < now < CLOCK_BOUND && r == #[trigger] self.expired_at(now),
    {
        let now: i128 = now_unix_nanos();
        let r: bool = self.is_expired_at(now);
        assert(-CLOCK_BOUND < now < CLOCK_BOUND && r == self.expired_at(now));
        r
    }
}

impl PasteWithUniq {
    /// Whether cleaning up this expired paste also deletes its file: only
    /// when no other paste shares its content.
    pub fn deletes_file(&self) -> (r: bool)
        ensures
            r == self.uniq,
    {
        self.uniq
    }
}

} // verus!

//! Instants and lease deadlines.

use vstd::prelude::*;

verus! {

/// How long a reservation of codes stays valid, in seconds.
pub const LEASE_SECONDS: i64 = 60;

/// An instant: whole seconds since the Unix epoch and the nanoseconds
/// since the last second boundary. Instants are ordered by seconds first,
/// then by nanoseconds.
#[derive(Clone, Copy, Debug, PartialEq, Eq, Structural)]
pub struct Timestamp {
    pub secs: i64,
    pub nanos: u32,
}

impl Timestamp {
    /// `self` lies strictly before `other`.
    pub open spec fn precedes(self, other: Timestamp) -> bool {
        self.secs < other.secs || (self.secs == other.secs && self.nanos < other.nanos)
    }

    /// The instant at which a lease granted at `self` runs out: one lease
    /// duration later, held at the last representable second.
    pub open spec fn lease_deadline(self) -> Timestamp {
        Timestamp {
            secs: if self.secs + LEASE_SECONDS > i64::MAX {
                i64::MAX
            } else {
                (self.secs + LEASE_SECONDS) as i64
            },
            nanos: self.nanos,
        }
    }

    /// Whether `self` lies strictly before `other`.
    pub fn is_before(&self, other: &Timestamp) -> (r: bool)
        ensures
            r == self.precedes(*other),
    {
        self.secs < other.secs || (self.secs == other.secs && self.nanos < other.nanos)
    }

    /// The instant at which a lease granted at `self` runs out.
    pub fn deadline(&self) -> (r: Timestamp)
        ensures
            r == self.lease_deadline(),
    {
        let secs: i64 = if self.secs > i64::MAX - LEASE_SECONDS {
            i64::MAX
        } else {
            self.secs + LEASE_SECONDS
        };
        Timestamp { secs, nanos: self.nanos }
    }
}

/// `chrono::Utc::now`, read by `DateTime::timestamp` and
/// `DateTime::timestamp_subsec_nanos` as seconds since the epoch and
/// nanoseconds within the second. Nothing is claimed of what the clock
/// shows. The call panics where the system clock stands before the epoch.
#[verifier::external_body]
pub(crate) fn utc_now() -> Timestamp {
    let now = chrono::Utc::now();
    Timestamp { secs: now.timestamp(), nanos: now.timestamp_subsec_nanos() }
}

} // verus!

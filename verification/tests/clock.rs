use codera1d::clock::{Timestamp, LEASE_SECONDS};
use codera1d::error::RaidError;
use codera1d::service::{check_api_key, index, ApiKeyError};

#[test]
fn lease_lasts_a_minute() {
    assert_eq!(LEASE_SECONDS, 60);
    let granted = Timestamp { secs: 1_000, nanos: 999_999_999 };
    assert_eq!(granted.deadline(), Timestamp { secs: 1_060, nanos: 999_999_999 });
    let early = Timestamp { secs: -30, nanos: 0 };
    assert_eq!(early.deadline(), Timestamp { secs: 30, nanos: 0 });
}

#[test]
fn deadline_stops_at_the_last_second() {
    let late = Timestamp { secs: i64::MAX - 59, nanos: 7 };
    assert_eq!(late.deadline(), Timestamp { secs: i64::MAX, nanos: 7 });
    let last = Timestamp { secs: i64::MAX, nanos: 0 };
    assert_eq!(last.deadline(), Timestamp { secs: i64::MAX, nanos: 0 });
    let just = Timestamp { secs: i64::MAX - 60, nanos: 1 };
    assert_eq!(just.deadline(), Timestamp { secs: i64::MAX, nanos: 1 });
}

#[test]
fn instants_are_ordered_by_seconds_then_nanoseconds() {
    let a = Timestamp { secs: 5, nanos: 900 };
    let b = Timestamp { secs: 6, nanos: 0 };
    let c = Timestamp { secs: 6, nanos: 1 };
    assert!(a.is_before(&b));
    assert!(b.is_before(&c));
    assert!(a.is_before(&c));
    assert!(!b.is_before(&a));
    assert!(!c.is_before(&b));
    assert!(!a.is_before(&a));
    let leap = Timestamp { secs: 5, nanos: 1_500_000_000 };
    assert!(a.is_before(&leap));
    assert!(leap.is_before(&b));
}

#[test]
fn errors_say_what_went_wrong() {
    assert_eq!(RaidError::NotFound.message(), "Raid not found");
    assert_eq!(RaidError::AlreadyExists.message(), "Raid already exists");
    assert_eq!(RaidError::UnknownCode.message(), "Unknown code");
    assert_eq!(RaidError::PersistenceFailure.message(), "Snapshot could not be read");
}

#[test]
fn service_greets() {
    assert_eq!(index(), "Welcome to codera1d");
}

#[test]
fn only_the_key_admits() {
    assert_eq!(check_api_key(Some("secret"), "secret"), Ok("secret"));
    assert_eq!(check_api_key(Some("Secret"), "secret"), Err(ApiKeyError::Invalid));
    assert_eq!(check_api_key(Some(""), "secret"), Err(ApiKeyError::Invalid));
    assert_eq!(check_api_key(None, "secret"), Err(ApiKeyError::Missing));
    assert_eq!(check_api_key(Some(""), ""), Ok(""));
}

use codera1d::clock::Timestamp;
use codera1d::codes::CodeList;
use codera1d::error::RaidError;
use codera1d::raid::{Raid, RaidInfo};
use codera1d::registry::{RaidMap, RESERVATION_SIZE};

/// The code list of the tests: the five most common PIN codes first, then
/// every other four-digit code in numeric order.
fn pin_codes() -> CodeList {
    let first = ["1234", "1111", "0000", "1212", "7777"];
    let mut codes: Vec<String> = first.iter().map(|code| code.to_string()).collect();
    for number in 0..10_000 {
        let code = format!("{:04}", number);
        if !first.contains(&code.as_str()) {
            codes.push(code);
        }
    }
    CodeList::new(codes).expect("the list holds every code once")
}

fn at(secs: i64) -> Timestamp {
    Timestamp { secs, nanos: 0 }
}

fn counts(remaining: u32, tried: u32) -> RaidInfo {
    RaidInfo { remaining_code_count: remaining, tried_code_count: tried }
}

#[test]
fn new_registry_is_empty() {
    let registry = RaidMap::new();
    assert!(registry.to_pub_map().is_empty());
    assert!(matches!(registry.get_raid("alpha"), Err(RaidError::NotFound)));
}

#[test]
fn create_reports_all_raids() {
    let mut registry = RaidMap::new();
    let first = registry.create_raid(String::from("alpha"), None);
    assert_eq!(first, Ok(vec![(String::from("alpha"), counts(10_000, 0))]));
    let second = registry.create_raid(String::from("beta"), Some(1_000));
    assert_eq!(
        second,
        Ok(vec![
            (String::from("alpha"), counts(10_000, 0)),
            (String::from("beta"), counts(9_000, 1_000)),
        ])
    );
    let beta = registry.get_raid("beta").expect("the raid was created");
    assert_eq!(beta.remaining_codes().min(), Some(1_000));
}

#[test]
fn create_with_a_taken_name_changes_nothing() {
    let codes = pin_codes();
    let mut registry = RaidMap::new();
    assert!(registry.create_raid(String::from("alpha"), Some(7)).is_ok());
    assert_eq!(registry.try_code("alpha", &codes, String::from("9999")), Ok(()));
    assert!(registry.reserve_codes_at("alpha", &codes, at(0)).is_ok());
    let before = registry.to_pub_map();
    assert_eq!(
        registry.create_raid(String::from("alpha"), None),
        Err(RaidError::AlreadyExists)
    );
    assert_eq!(
        registry.create_raid(String::from("alpha"), Some(500)),
        Err(RaidError::AlreadyExists)
    );
    assert_eq!(registry.to_pub_map(), before);
    assert_eq!(before, vec![(String::from("alpha"), counts(9_992, 8))]);
    let alpha = registry.get_raid("alpha").expect("the raid is there");
    assert_eq!(alpha.remaining_codes().len(), 9_987);
    assert_eq!(alpha.code_reservations(&codes).len(), 1);
}

#[test]
fn insert_puts_a_raid_under_a_free_name_only() {
    let mut registry = RaidMap::new();
    let mut raid = Raid::new();
    raid.skip_codes(3);
    assert_eq!(registry.insert_raid(String::from("alpha"), raid), Ok(()));
    assert_eq!(
        registry.insert_raid(String::from("alpha"), Raid::new()),
        Err(RaidError::AlreadyExists)
    );
    assert_eq!(registry.to_pub_map(), vec![(String::from("alpha"), counts(9_997, 3))]);
}

#[test]
fn delete_removes_the_raid_and_no_other() {
    let mut registry = RaidMap::new();
    for name in ["alpha", "beta", "gamma"] {
        assert!(registry.create_raid(String::from(name), None).is_ok());
    }
    registry.delete_raid("beta");
    assert_eq!(
        registry.to_pub_map(),
        vec![
            (String::from("alpha"), counts(10_000, 0)),
            (String::from("gamma"), counts(10_000, 0)),
        ]
    );
    assert!(matches!(registry.get_raid("beta"), Err(RaidError::NotFound)));
    registry.delete_raid("beta");
    registry.delete_raid("delta");
    assert_eq!(registry.to_pub_map().len(), 2);
    assert!(registry.create_raid(String::from("beta"), None).is_ok());
    assert_eq!(registry.to_pub_map().len(), 3);
}

#[test]
fn requests_for_a_raid_that_is_not_there_are_refused() {
    let codes = pin_codes();
    let mut registry = RaidMap::new();
    assert!(registry.create_raid(String::from("alpha"), None).is_ok());
    assert!(matches!(registry.get_raid("Alpha"), Err(RaidError::NotFound)));
    assert!(matches!(registry.reserve_codes("beta", &codes), Err(RaidError::NotFound)));
    assert!(matches!(registry.reserve_codes_at("beta", &codes, at(0)), Err(RaidError::NotFound)));
    assert_eq!(registry.try_code("beta", &codes, String::from("1234")), Err(RaidError::NotFound));
    assert_eq!(registry.try_code("beta", &codes, String::from("x")), Err(RaidError::NotFound));
    assert_eq!(registry.to_pub_map(), vec![(String::from("alpha"), counts(10_000, 0))]);
}

#[test]
fn try_code_reaches_the_named_raid() {
    let codes = pin_codes();
    let mut registry = RaidMap::new();
    assert!(registry.create_raid(String::from("alpha"), None).is_ok());
    assert!(registry.create_raid(String::from("beta"), None).is_ok());
    assert_eq!(registry.try_code("beta", &codes, String::from("0000")), Ok(()));
    assert_eq!(registry.try_code("beta", &codes, String::from("00000")), Err(RaidError::UnknownCode));
    assert_eq!(
        registry.to_pub_map(),
        vec![
            (String::from("alpha"), counts(10_000, 0)),
            (String::from("beta"), counts(9_999, 1)),
        ]
    );
    let beta = registry.get_raid("beta").expect("the raid is there");
    assert!(beta.tried_codes().contains(2));
}

#[test]
fn reserve_hands_out_five_codes() {
    let codes = pin_codes();
    assert_eq!(RESERVATION_SIZE, 5);
    let mut registry = RaidMap::new();
    assert!(registry.create_raid(String::from("alpha"), None).is_ok());
    assert!(registry.create_raid(String::from("beta"), Some(5)).is_ok());
    let first = registry.reserve_codes_at("alpha", &codes, at(40)).expect("the raid is there");
    assert_eq!(first.codes, vec!["7777", "1212", "0000", "1111", "1234"]);
    assert_eq!(first.expires_at, at(100));
    let second = registry.reserve_codes("beta", &codes).expect("the raid is there");
    assert_eq!(second.codes, vec!["0005", "0004", "0003", "0002", "0001"]);
    let third = registry.reserve_codes("alpha", &codes).expect("the raid is there");
    assert_eq!(third.codes, vec!["0005", "0004", "0003", "0002", "0001"]);
}

#[test]
fn listing_sweeps_every_raid() {
    let codes = pin_codes();
    let mut registry = RaidMap::new();
    assert!(registry.create_raid(String::from("alpha"), None).is_ok());
    assert!(registry.create_raid(String::from("beta"), None).is_ok());
    assert!(registry.reserve_codes_at("alpha", &codes, at(0)).is_ok());
    assert!(registry.reserve_codes_at("beta", &codes, at(1_000)).is_ok());
    assert_eq!(registry.try_code("beta", &codes, String::from("1234")), Ok(()));
    let summary = registry.raid_list_at(at(100));
    assert_eq!(
        summary,
        vec![
            (String::from("alpha"), counts(10_000, 0)),
            (String::from("beta"), counts(9_999, 1)),
        ]
    );
    let alpha = registry.get_raid("alpha").expect("the raid is there");
    assert_eq!(alpha.remaining_codes().len(), 10_000);
    assert!(alpha.code_reservations(&codes).is_empty());
    let beta = registry.get_raid("beta").expect("the raid is there");
    assert_eq!(beta.remaining_codes().len(), 9_995);
    assert_eq!(beta.code_reservations(&codes).len(), 1);
    let _ = registry.raid_list_at(at(1_061));
    let beta = registry.get_raid("beta").expect("the raid is there");
    assert_eq!(beta.remaining_codes().len(), 9_999);
    assert!(!beta.remaining_codes().contains(0));
}

#[test]
fn listing_by_the_clock_sweeps_what_has_run_out() {
    let codes = pin_codes();
    let mut registry = RaidMap::new();
    assert!(registry.create_raid(String::from("alpha"), None).is_ok());
    assert!(registry.reserve_codes_at("alpha", &codes, at(0)).is_ok());
    assert!(registry.reserve_codes("alpha", &codes).is_ok());
    let summary = registry.raid_list();
    assert_eq!(summary, vec![(String::from("alpha"), counts(10_000, 0))]);
    let alpha = registry.get_raid("alpha").expect("the raid is there");
    assert_eq!(alpha.remaining_codes().len(), 9_995);
    assert_eq!(alpha.code_reservations(&codes).len(), 1);
}

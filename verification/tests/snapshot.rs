use codera1d::clock::Timestamp;
use codera1d::codes::CodeList;
use codera1d::encoding::{bitmap_from_bytes, bitmap_to_bytes};
use codera1d::error::RaidError;
use codera1d::raid::{CodeReservation, Raid, RaidInfo};
use codera1d::registry::RaidMap;
use codera1d::snapshot::RaidSnapshot;
use roaring::RoaringBitmap;

/// The code list of the tests: the five most common PIN codes first, then
/// every other four-digit code in numeric order.
fn pin_codes() -> CodeList {
    let first = ["1234", "1111", "0000", "1212", "7777"];
    let mut codes: Vec<String> = first.iter().map(|code| code.to_string()).collect();
    for number in 0..10_000 {
        let code = format!("{:04}", number);
        if !first.contains(&code.as_str()) {
            codes.push(code);
        }
    }
    CodeList::new(codes).expect("the list holds every code once")
}

fn at(secs: i64) -> Timestamp {
    Timestamp { secs, nanos: 0 }
}

fn counts(remaining: u32, tried: u32) -> RaidInfo {
    RaidInfo { remaining_code_count: remaining, tried_code_count: tried }
}

fn text_of(values: std::ops::Range<u32>) -> String {
    let bitmap: RoaringBitmap = values.collect();
    bitmap_to_bytes(&bitmap).expect("a bitmap can be written")
}

#[test]
fn snapshot_of_a_fresh_raid() {
    let codes = pin_codes();
    let snapshot = Raid::new().to_snapshot(&codes).expect("a raid can be stored");
    let all: RoaringBitmap = (0..10_000).collect();
    assert_eq!(bitmap_from_bytes(&snapshot.remaining_codes), Ok(all));
    assert_eq!(snapshot.tried_codes, "OjAAAAAAAAA=");
    assert!(snapshot.code_reservations.is_empty());
}

#[test]
fn raid_reads_back_from_its_snapshot() {
    let codes = pin_codes();
    let mut raid = Raid::new();
    raid.skip_codes(100);
    let first = raid.reserve_codes_at(&codes, 5, at(10));
    let _ = raid.reserve_codes_at(&codes, 0, at(20));
    let _ = raid.reserve_codes_at(&codes, 3, Timestamp { secs: 30, nanos: 999 });
    assert_eq!(raid.try_code(&codes, first.codes[0].clone()), Ok(()));
    assert_eq!(raid.try_code(&codes, String::from("5000")), Ok(()));

    let snapshot = raid.to_snapshot(&codes).expect("a raid can be stored");
    let read = Raid::from_snapshot(&codes, &snapshot).expect("the snapshot stands for a raid");
    assert_eq!(read.remaining_codes(), raid.remaining_codes());
    assert_eq!(read.tried_codes(), raid.tried_codes());
    assert_eq!(read.info(), counts(9_898, 102));
    let kept = read.code_reservations(&codes);
    assert_eq!(kept.len(), 3);
    assert_eq!(kept[0].codes, first.codes);
    assert_eq!(kept[0].expires_at, at(70));
    assert!(kept[1].codes.is_empty());
    assert_eq!(kept[1].expires_at, at(80));
    assert_eq!(kept[2].codes.len(), 3);
    assert_eq!(kept[2].expires_at, Timestamp { secs: 90, nanos: 999 });

    // storing what was read gives what was stored
    let again = read.to_snapshot(&codes).expect("a raid can be stored");
    assert_eq!(again.remaining_codes, snapshot.remaining_codes);
    assert_eq!(again.tried_codes, snapshot.tried_codes);
    assert_eq!(again.code_reservations.len(), snapshot.code_reservations.len());
    for (one, other) in again.code_reservations.iter().zip(&snapshot.code_reservations) {
        assert_eq!(one.codes, other.codes);
        assert_eq!(one.expires_at, other.expires_at);
    }
}

#[test]
fn snapshot_that_stands_for_no_raid_is_refused() {
    let codes = pin_codes();
    let refused = |snapshot: RaidSnapshot| {
        matches!(Raid::from_snapshot(&codes, &snapshot), Err(RaidError::PersistenceFailure))
    };
    let good = RaidSnapshot {
        remaining_codes: text_of(1..10_000),
        tried_codes: text_of(0..0),
        code_reservations: vec![CodeReservation {
            codes: vec![String::from("1234")],
            expires_at: at(0),
        }],
    };
    assert!(!refused(good.clone()));
    let mut bad_text = good.clone();
    bad_text.remaining_codes = String::from("?");
    assert!(refused(bad_text));
    let mut bad_bitmap = good.clone();
    bad_bitmap.tried_codes = String::from("aGVsbG8gd29ybGQ=");
    assert!(refused(bad_bitmap));
    let mut lost_code = good.clone();
    lost_code.code_reservations.clear();
    assert!(refused(lost_code));
    let mut unknown_code = good.clone();
    unknown_code.code_reservations[0].codes[0] = String::from("123");
    assert!(refused(unknown_code));
    let mut overlap = good.clone();
    overlap.tried_codes = text_of(5..6);
    assert!(refused(overlap));
}

#[test]
fn registry_reads_back_from_its_snapshot() {
    let codes = pin_codes();
    let mut registry = RaidMap::new();
    assert!(registry.create_raid(String::from("alpha"), None).is_ok());
    assert!(registry.create_raid(String::from("beta"), Some(250)).is_ok());
    assert!(registry.reserve_codes_at("beta", &codes, at(5)).is_ok());
    assert_eq!(registry.try_code("alpha", &codes, String::from("1234")), Ok(()));

    let stored = registry.to_snapshot(&codes).expect("the raids can be stored");
    assert_eq!(stored.len(), 2);
    assert_eq!(stored[0].0, "alpha");
    assert_eq!(stored[1].0, "beta");
    let read = RaidMap::from_snapshot(&codes, &stored).expect("the snapshot stands for raids");
    assert_eq!(read.to_pub_map(), registry.to_pub_map());
    assert_eq!(
        read.to_pub_map(),
        vec![(String::from("alpha"), counts(9_999, 1)), (String::from("beta"), counts(9_750, 250))]
    );
    let beta = read.get_raid("beta").expect("the raid was stored");
    assert_eq!(beta.remaining_codes().min(), Some(255));
    assert_eq!(beta.code_reservations(&codes).len(), 1);

    // storing what was read gives what was stored
    let again = read.to_snapshot(&codes).expect("the raids can be stored");
    assert_eq!(again.len(), stored.len());
    for (one, other) in again.iter().zip(&stored) {
        assert_eq!(one.0, other.0);
        assert_eq!(one.1.remaining_codes, other.1.remaining_codes);
        assert_eq!(one.1.tried_codes, other.1.tried_codes);
        assert_eq!(one.1.code_reservations.len(), other.1.code_reservations.len());
        for (left, right) in one.1.code_reservations.iter().zip(&other.1.code_reservations) {
            assert_eq!(left.codes, right.codes);
            assert_eq!(left.expires_at, right.expires_at);
        }
    }
}

#[test]
fn every_raid_can_be_stored() {
    let codes = pin_codes();
    let mut raid = Raid::new();
    assert!(raid.to_snapshot(&codes).is_ok());
    raid.skip_codes(4_097);
    assert!(raid.to_snapshot(&codes).is_ok());
    let _ = raid.reserve_codes_at(&codes, 5_000, at(0));
    assert!(raid.to_snapshot(&codes).is_ok());
    raid.skip_codes(10_000);
    let stored = raid.to_snapshot(&codes).expect("a raid can be stored");
    assert_eq!(stored.remaining_codes, "OjAAAAAAAAA=");
    assert_eq!(stored.code_reservations.len(), 1);
    assert_eq!(stored.code_reservations[0].codes.len(), 5_000);
}

#[test]
fn registry_snapshot_with_a_name_twice_is_refused() {
    let codes = pin_codes();
    let fresh = Raid::new().to_snapshot(&codes).expect("a raid can be stored");
    let twice = vec![
        (String::from("alpha"), fresh.clone()),
        (String::from("beta"), fresh.clone()),
        (String::from("alpha"), fresh.clone()),
    ];
    assert!(matches!(RaidMap::from_snapshot(&codes, &twice), Err(RaidError::PersistenceFailure)));
    let mut broken = fresh.clone();
    broken.tried_codes = String::from("not a bitmap");
    let bad = vec![(String::from("alpha"), fresh), (String::from("beta"), broken)];
    assert!(matches!(RaidMap::from_snapshot(&codes, &bad), Err(RaidError::PersistenceFailure)));
    let none: Vec<(String, RaidSnapshot)> = Vec::new();
    let empty = RaidMap::from_snapshot(&codes, &none).expect("no raids are raids");
    assert!(empty.to_pub_map().is_empty());
}

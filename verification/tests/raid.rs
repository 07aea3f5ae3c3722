use chrono::{Duration, Utc};
use codera1d::clock::Timestamp;
use codera1d::codes::{code_index_to_string, CodeList};
use codera1d::error::RaidError;
use codera1d::raid::{CodeReservation, Raid, RaidInfo};
use roaring::RoaringBitmap;

/// The code list of the tests: the five most common PIN codes first, then
/// every other four-digit code in numeric order.
fn pin_codes() -> CodeList {
    let first = ["1234", "1111", "0000", "1212", "7777"];
    let mut codes: Vec<String> = first.iter().map(|code| code.to_string()).collect();
    for number in 0..10_000 {
        let code = format!("{:04}", number);
        if !first.contains(&code.as_str()) {
            codes.push(code);
        }
    }
    CodeList::new(codes).expect("the list holds every code once")
}

fn minutes_from_now(minutes: i64) -> Timestamp {
    let instant = Utc::now() + Duration::minutes(minutes);
    Timestamp { secs: instant.timestamp(), nanos: instant.timestamp_subsec_nanos() }
}

fn at(secs: i64) -> Timestamp {
    Timestamp { secs, nanos: 0 }
}

/// The raid with its reservations replaced by the given ones.
fn with_reservations(codes: &CodeList, raid: &Raid, reservations: Vec<CodeReservation>) -> Raid {
    Raid::from_parts(
        codes,
        raid.remaining_codes().clone(),
        raid.tried_codes().clone(),
        &reservations,
    )
    .expect("the parts make up a raid")
}

#[test]
fn new_raid() {
    let raid = Raid::new();
    assert_eq!(raid.tried_codes().len(), 0);
    assert_eq!(raid.remaining_codes().len(), 10_000);
}

#[test]
fn skip_codes() {
    let mut raid = Raid::new();
    raid.skip_codes(1000);
    assert_eq!(raid.tried_codes().len(), 1000);
    assert_eq!(raid.remaining_codes().len(), 9_000);
    assert_eq!(raid.remaining_codes().min(), Some(1000));
}

#[test]
fn try_code() {
    let codes = pin_codes();
    let mut raid = Raid::new();
    assert_eq!(raid.try_code(&codes, String::from("1234")), Ok(()));
    assert_eq!(raid.tried_codes().len(), 1);
    assert_eq!(raid.remaining_codes().len(), 9_999);
    assert_eq!(raid.tried_codes().min(), Some(0));
    assert_eq!(
        raid.remaining_codes()
            .iter()
            .find(|&code_idx| code_index_to_string(&codes, code_idx) == &String::from("1234")),
        None
    );
}

#[test]
fn reserve_codes() {
    let codes = pin_codes();
    let mut raid = Raid::new();
    let reservation = raid.reserve_codes(&codes, 5);
    assert_eq!(raid.tried_codes().len(), 0);
    assert_eq!(raid.remaining_codes().len(), 9_995);
    assert_eq!(reservation.codes, vec!["7777", "1212", "0000", "1111", "1234"]);
}

#[test]
fn expire_reservations_untried() {
    let codes = pin_codes();
    let mut raid = Raid::new();
    let mut reservation = raid.reserve_codes(&codes, 5);
    reservation.expires_at = minutes_from_now(-1);
    let mut raid = with_reservations(&codes, &raid, vec![reservation]);
    raid.expire_reservations();

    assert_eq!(raid.tried_codes().len(), 0);
    assert_eq!(raid.remaining_codes().len(), 10_000);
}

#[test]
fn expire_reservations_tried() {
    let codes = pin_codes();
    let mut raid = Raid::new();
    let mut reservation = raid.reserve_codes(&codes, 5);
    assert_eq!(raid.try_code(&codes, reservation.codes.pop().unwrap()), Ok(()));
    reservation.expires_at = minutes_from_now(-1);
    let mut raid = with_reservations(&codes, &raid, vec![reservation]);
    raid.expire_reservations();

    assert_eq!(raid.tried_codes().len(), 1);
    assert_eq!(raid.remaining_codes().len(), 9_999);
}

#[test]
fn fresh_raid_reports_every_code_as_remaining() {
    let raid = Raid::new();
    assert_eq!(raid.info(), RaidInfo { remaining_code_count: 10_000, tried_code_count: 0 });
    assert!(raid.remaining_codes().contains(0));
    assert!(raid.remaining_codes().contains(9_999));
    assert!(!raid.remaining_codes().contains(10_000));
    assert!(raid.code_reservations(&pin_codes()).is_empty());
}

#[test]
fn skip_moves_the_lowest_codes_to_tried() {
    let codes = pin_codes();
    let mut raid = Raid::new();
    raid.skip_codes(3);
    assert_eq!(raid.info(), RaidInfo { remaining_code_count: 9_997, tried_code_count: 3 });
    assert_eq!(raid.tried_codes().iter().collect::<Vec<u32>>(), vec![0, 1, 2]);
    let reservation = raid.reserve_codes_at(&codes, 5, at(0));
    assert_eq!(reservation.codes, vec!["0003", "0002", "0001", "7777", "1212"]);
    raid.skip_codes(2);
    assert_eq!(raid.tried_codes().iter().collect::<Vec<u32>>(), vec![0, 1, 2, 8, 9]);
    assert_eq!(raid.remaining_codes().min(), Some(10));
}

#[test]
fn skip_of_nothing_changes_nothing() {
    let mut raid = Raid::new();
    raid.skip_codes(0);
    assert_eq!(raid.info(), RaidInfo { remaining_code_count: 10_000, tried_code_count: 0 });
    assert_eq!(raid.remaining_codes().len(), 10_000);
}

#[test]
fn skip_of_more_than_all_takes_all() {
    let mut raid = Raid::new();
    raid.skip_codes(10_001);
    assert_eq!(raid.info(), RaidInfo { remaining_code_count: 0, tried_code_count: 10_000 });
    assert!(raid.remaining_codes().is_empty());
    raid.skip_codes(u64::MAX);
    assert_eq!(raid.info(), RaidInfo { remaining_code_count: 0, tried_code_count: 10_000 });
}

#[test]
fn try_code_twice_is_as_once() {
    let codes = pin_codes();
    let mut raid = Raid::new();
    assert_eq!(raid.try_code(&codes, String::from("7777")), Ok(()));
    let once = raid.info();
    assert_eq!(raid.try_code(&codes, String::from("7777")), Ok(()));
    assert_eq!(raid.info(), once);
    assert_eq!(once, RaidInfo { remaining_code_count: 9_999, tried_code_count: 1 });
    assert_eq!(raid.tried_codes().iter().collect::<Vec<u32>>(), vec![4]);
    assert_eq!(raid.remaining_codes().len(), 9_999);
}

#[test]
fn try_code_refuses_an_unknown_code() {
    let codes = pin_codes();
    let mut raid = Raid::new();
    assert_eq!(raid.try_code(&codes, String::from("12345")), Err(RaidError::UnknownCode));
    assert_eq!(raid.try_code(&codes, String::from("")), Err(RaidError::UnknownCode));
    assert_eq!(raid.info(), RaidInfo { remaining_code_count: 10_000, tried_code_count: 0 });
    assert_eq!(raid.remaining_codes().len(), 10_000);
}

#[test]
fn a_reserved_code_counts_as_remaining() {
    let codes = pin_codes();
    let mut raid = Raid::new();
    let _ = raid.reserve_codes_at(&codes, 5, at(1_000));
    assert_eq!(raid.info(), RaidInfo { remaining_code_count: 10_000, tried_code_count: 0 });
    assert_eq!(raid.remaining_codes().len(), 9_995);
}

#[test]
fn reservation_runs_out_a_minute_after_it_was_granted() {
    let codes = pin_codes();
    let mut raid = Raid::new();
    let granted = Timestamp { secs: 1_600_000_000, nanos: 123_456_789 };
    let reservation = raid.reserve_codes_at(&codes, 2, granted);
    assert_eq!(reservation.expires_at, Timestamp { secs: 1_600_000_060, nanos: 123_456_789 });
    assert_eq!(reservation.codes, vec!["1111", "1234"]);
    let kept = raid.code_reservations(&codes);
    assert_eq!(kept.len(), 1);
    assert_eq!(kept[0].codes, vec!["1111", "1234"]);
    assert_eq!(kept[0].expires_at, Timestamp { secs: 1_600_000_060, nanos: 123_456_789 });
}

#[test]
fn reservation_by_the_clock_runs_out_in_a_minute() {
    let codes = pin_codes();
    let mut raid = Raid::new();
    let before = Utc::now().timestamp();
    let reservation = raid.reserve_codes(&codes, 5);
    let after = Utc::now().timestamp();
    assert!(before + 60 <= reservation.expires_at.secs);
    assert!(reservation.expires_at.secs <= after + 60);
}

#[test]
fn reservations_follow_each_other() {
    let codes = pin_codes();
    let mut raid = Raid::new();
    let first = raid.reserve_codes_at(&codes, 5, at(0));
    let second = raid.reserve_codes_at(&codes, 5, at(1));
    assert_eq!(first.codes, vec!["7777", "1212", "0000", "1111", "1234"]);
    assert_eq!(second.codes, vec!["0005", "0004", "0003", "0002", "0001"]);
    assert_eq!(raid.remaining_codes().min(), Some(10));
    assert_eq!(raid.code_reservations(&codes).len(), 2);
}

#[test]
fn reservation_of_no_code_is_empty_and_kept() {
    let codes = pin_codes();
    let mut raid = Raid::new();
    let reservation = raid.reserve_codes_at(&codes, 0, at(7));
    assert!(reservation.codes.is_empty());
    assert_eq!(reservation.expires_at, at(67));
    assert_eq!(raid.remaining_codes().len(), 10_000);
    assert_eq!(raid.code_reservations(&codes).len(), 1);
}

#[test]
fn allocation_exhausts_the_codes() {
    let codes = pin_codes();
    let mut raid = Raid::new();
    let mut seen = RoaringBitmap::new();
    let mut sizes: Vec<usize> = Vec::new();
    loop {
        let reservation = raid.reserve_codes_at(&codes, 3, at(0));
        if reservation.codes.is_empty() {
            break;
        }
        sizes.push(reservation.codes.len());
        for code in &reservation.codes {
            let index = codera1d::codes::string_to_code_index(&codes, code).unwrap();
            assert!(seen.insert(index), "a code was handed out twice");
        }
    }
    assert_eq!(sizes.len(), 3_334);
    assert!(sizes[..3_333].iter().all(|&size| size == 3));
    assert_eq!(sizes[3_333], 1);
    assert_eq!(seen.len(), 10_000);
    assert!(raid.remaining_codes().is_empty());
    assert_eq!(raid.info(), RaidInfo { remaining_code_count: 10_000, tried_code_count: 0 });
}

#[test]
fn allocation_in_even_batches_ends_on_a_full_batch() {
    let codes = pin_codes();
    let mut raid = Raid::new();
    let mut batches = 0;
    let mut last = 0;
    loop {
        let reservation = raid.reserve_codes_at(&codes, 2_500, at(0));
        if reservation.codes.is_empty() {
            break;
        }
        batches += 1;
        last = reservation.codes.len();
    }
    assert_eq!(batches, 4);
    assert_eq!(last, 2_500);
}

#[test]
fn reservation_of_more_than_all_takes_all() {
    let codes = pin_codes();
    let mut raid = Raid::new();
    raid.skip_codes(9_998);
    let reservation = raid.reserve_codes_at(&codes, 5, at(0));
    assert_eq!(reservation.codes, vec!["9999", "9998"]);
    assert!(raid.remaining_codes().is_empty());
    let none = raid.reserve_codes_at(&codes, usize::MAX, at(0));
    assert!(none.codes.is_empty());
}

#[test]
fn abandoned_batch_returns_but_for_the_tried_code() {
    let codes = pin_codes();
    let mut raid = Raid::new();
    let reservation = raid.reserve_codes_at(&codes, 5, at(1_000));
    assert_eq!(reservation.expires_at, at(1_060));
    assert_eq!(raid.remaining_codes().len(), 9_995);
    assert_eq!(raid.try_code(&codes, String::from("1234")), Ok(()));
    raid.expire_reservations_at(at(1_061));
    assert_eq!(raid.remaining_codes().len(), 9_999);
    assert!(!raid.remaining_codes().contains(0));
    for index in 1..5 {
        assert!(raid.remaining_codes().contains(index));
    }
    assert_eq!(raid.info(), RaidInfo { remaining_code_count: 9_999, tried_code_count: 1 });
    assert!(raid.code_reservations(&codes).is_empty());
}

#[test]
fn lease_is_live_until_its_deadline_has_passed() {
    let codes = pin_codes();
    let mut raid = Raid::new();
    let granted = Timestamp { secs: 500, nanos: 10 };
    let _ = raid.reserve_codes_at(&codes, 5, granted);
    raid.expire_reservations_at(Timestamp { secs: 560, nanos: 9 });
    assert_eq!(raid.remaining_codes().len(), 9_995);
    raid.expire_reservations_at(Timestamp { secs: 560, nanos: 10 });
    assert_eq!(raid.remaining_codes().len(), 9_995);
    assert_eq!(raid.code_reservations(&codes).len(), 1);
    raid.expire_reservations_at(Timestamp { secs: 560, nanos: 11 });
    assert_eq!(raid.remaining_codes().len(), 10_000);
    assert!(raid.code_reservations(&codes).is_empty());
}

#[test]
fn sweep_takes_the_expired_leases_and_keeps_the_others_in_order() {
    let codes = pin_codes();
    let mut raid = Raid::new();
    let _ = raid.reserve_codes_at(&codes, 1, at(100));
    let _ = raid.reserve_codes_at(&codes, 1, at(0));
    let _ = raid.reserve_codes_at(&codes, 1, at(300));
    let _ = raid.reserve_codes_at(&codes, 1, at(10));
    raid.expire_reservations_at(at(100));
    let kept = raid.code_reservations(&codes);
    assert_eq!(kept.len(), 2);
    assert_eq!(kept[0].codes, vec!["1234"]);
    assert_eq!(kept[0].expires_at, at(160));
    assert_eq!(kept[1].codes, vec!["0000"]);
    assert_eq!(kept[1].expires_at, at(360));
    assert_eq!(raid.remaining_codes().iter().take(3).collect::<Vec<u32>>(), vec![1, 3, 4]);
}

#[test]
fn sweep_by_the_clock_keeps_a_lease_that_has_not_run_out() {
    let codes = pin_codes();
    let mut raid = Raid::new();
    let _ = raid.reserve_codes(&codes, 5);
    raid.expire_reservations();
    assert_eq!(raid.remaining_codes().len(), 9_995);
    assert_eq!(raid.code_reservations(&codes).len(), 1);
}

#[test]
fn freed_codes_are_handed_out_again() {
    let codes = pin_codes();
    let mut raid = Raid::new();
    let _ = raid.reserve_codes_at(&codes, 5, at(0));
    raid.expire_reservations_at(at(61));
    let again = raid.reserve_codes_at(&codes, 5, at(61));
    assert_eq!(again.codes, vec!["7777", "1212", "0000", "1111", "1234"]);
}

#[test]
fn raid_reads_back_from_its_parts() {
    let codes = pin_codes();
    let mut raid = Raid::new();
    raid.skip_codes(10);
    let _ = raid.reserve_codes_at(&codes, 5, at(50));
    assert_eq!(raid.try_code(&codes, String::from("9999")), Ok(()));
    let copy = Raid::from_parts(
        &codes,
        raid.remaining_codes().clone(),
        raid.tried_codes().clone(),
        &raid.code_reservations(&codes),
    )
    .expect("the parts of a raid make up a raid");
    assert_eq!(copy.remaining_codes(), raid.remaining_codes());
    assert_eq!(copy.tried_codes(), raid.tried_codes());
    assert_eq!(copy.info(), raid.info());
    let kept = copy.code_reservations(&codes);
    assert_eq!(kept.len(), 1);
    assert_eq!(kept[0].codes, raid.code_reservations(&codes)[0].codes);
    assert_eq!(kept[0].expires_at, at(110));
}

#[test]
fn parts_that_make_up_no_raid_are_refused() {
    let codes = pin_codes();
    let all: RoaringBitmap = (0..10_000).collect();
    let none = RoaringBitmap::new();
    let lease = |texts: &[&str]| CodeReservation {
        codes: texts.iter().map(|text| text.to_string()).collect(),
        expires_at: at(0),
    };
    let refused = |remaining: &RoaringBitmap, tried: &RoaringBitmap, leases: Vec<CodeReservation>| {
        matches!(
            Raid::from_parts(&codes, remaining.clone(), tried.clone(), &leases),
            Err(RaidError::PersistenceFailure)
        )
    };
    assert!(!refused(&all, &none, vec![]));
    // an index beyond the list
    let beyond: RoaringBitmap = (0..10_001).collect();
    assert!(refused(&beyond, &none, vec![]));
    let mut tried_beyond = RoaringBitmap::new();
    tried_beyond.insert(70_000);
    assert!(refused(&all, &tried_beyond, vec![]));
    // a code that is both free and tried
    let mut tried = RoaringBitmap::new();
    tried.insert(17);
    assert!(refused(&all, &tried, vec![]));
    // a code that is nowhere
    let mut most: RoaringBitmap = (0..10_000).collect();
    most.remove(0);
    assert!(refused(&most, &none, vec![]));
    assert!(!refused(&most, &none, vec![lease(&["1234"])]));
    // a code that is free and leased
    assert!(refused(&all, &none, vec![lease(&["1234"])]));
    // a code that is leased twice
    assert!(refused(&most, &none, vec![lease(&["1234", "1234"])]));
    assert!(refused(&most, &none, vec![lease(&["1234"]), lease(&["1234"])]));
    // a code that is not in the list
    assert!(refused(&most, &none, vec![lease(&["1234", "12345"])]));
    // a tried code may stand in a lease
    let mut tried_first = RoaringBitmap::new();
    tried_first.insert(0);
    assert!(!refused(&most, &tried_first, vec![lease(&["1234"])]));
}

use codera1d::encoding::{bitmap_from_bytes, bitmap_to_bytes, read_as_bitmap, written_as_text};
use codera1d::error::RaidError;
use codera1d::raid::Raid;
use roaring::RoaringBitmap;

#[test]
fn empty_bitmap_has_a_known_text() {
    let text = bitmap_to_bytes(&RoaringBitmap::new()).expect("a bitmap can be written");
    assert_eq!(text, "OjAAAAAAAAA=");
    let bitmap = bitmap_from_bytes("OjAAAAAAAAA=").expect("the text stands for a bitmap");
    assert!(bitmap.is_empty());
    // the padding may be left out
    assert_eq!(bitmap_from_bytes("OjAAAAAAAAA"), Ok(RoaringBitmap::new()));
}

#[test]
fn small_bitmap_has_a_known_text() {
    let mut bitmap = RoaringBitmap::new();
    bitmap.insert(1);
    bitmap.insert(2);
    bitmap.insert(65_536);
    let text = bitmap_to_bytes(&bitmap).expect("a bitmap can be written");
    // cookie, two containers, their keys and sizes, their offsets, their values
    let bytes: Vec<u8> = vec![
        0x3A, 0x30, 0, 0, 2, 0, 0, 0, 0, 0, 1, 0, 1, 0, 0, 0, 24, 0, 0, 0, 28, 0, 0, 0, 1, 0, 2, 0,
        0, 0,
    ];
    assert_eq!(Ok(text), written_as_text(bytes.clone()));
    let read = read_as_bitmap(bytes).expect("the bytes stand for a bitmap");
    assert_eq!(read, bitmap);
}

#[test]
fn bytes_are_written_in_base64() {
    assert_eq!(written_as_text(b"hello world".to_vec()), Ok(String::from("aGVsbG8gd29ybGQ=")));
    assert_eq!(written_as_text(Vec::new()), Ok(String::new()));
    assert_eq!(written_as_text(vec![0xFB, 0xFF]), Ok(String::from("+/8=")));
}

#[test]
fn bitmap_reads_back_from_its_text() {
    let mut raid = Raid::new();
    raid.skip_codes(4_200);
    for bitmap in [raid.remaining_codes(), raid.tried_codes()] {
        let text = bitmap_to_bytes(bitmap).expect("a bitmap can be written");
        let read = bitmap_from_bytes(&text).expect("the text stands for a bitmap");
        assert_eq!(&read, bitmap);
        assert_eq!(bitmap_to_bytes(&read), Ok(text));
    }
    let mut sparse = RoaringBitmap::new();
    for value in [0u32, 7, 65_535, 65_536, 1 << 20, u32::MAX] {
        sparse.insert(value);
    }
    let text = bitmap_to_bytes(&sparse).expect("a bitmap can be written");
    assert_eq!(bitmap_from_bytes(&text), Ok(sparse));
}

#[test]
fn text_is_the_base64_of_the_written_bytes() {
    let mut bitmap = RoaringBitmap::new();
    bitmap.insert_range(10..5_000);
    bitmap.insert(70_000);
    let mut bytes = Vec::new();
    bitmap.serialize_into(&mut bytes).expect("a vector takes every byte");
    assert_eq!(bitmap_to_bytes(&bitmap), written_as_text(bytes.clone()));
    let read = read_as_bitmap(bytes.clone()).expect("the bytes stand for a bitmap");
    let mut again = Vec::new();
    read.serialize_into(&mut again).expect("a vector takes every byte");
    assert_eq!(again, bytes);
}

#[test]
fn text_that_is_no_bitmap_is_refused() {
    // not base64
    assert_eq!(bitmap_from_bytes("not base64!"), Err(RaidError::PersistenceFailure));
    assert_eq!(bitmap_from_bytes("OjAAAAAAAAA=="), Err(RaidError::PersistenceFailure));
    assert_eq!(bitmap_from_bytes("OjAAAAAAAAA= "), Err(RaidError::PersistenceFailure));
    // base64, but no bitmap
    assert_eq!(bitmap_from_bytes("aGVsbG8gd29ybGQ="), Err(RaidError::PersistenceFailure));
    assert_eq!(bitmap_from_bytes(""), Err(RaidError::PersistenceFailure));
    assert_eq!(read_as_bitmap(vec![1, 2, 3]), Err(RaidError::PersistenceFailure));
    assert_eq!(read_as_bitmap(Vec::new()), Err(RaidError::PersistenceFailure));
}

//! Bitmaps as text.
//!
//! A snapshot stores each bitmap as text: the bytes of the standard
//! Roaring format, written in base64. The `roaring` and `base64` crates do
//! both steps. What they return is named here, and trusted to read back
//! what was written.

use crate::bitmap::bitmap_values;
use crate::error::RaidError;
use roaring::RoaringBitmap;
use vstd::prelude::*;
use vstd::string::StringSliceAdditionalSpecFns;
use vstd::utf8::encode_utf8;

verus! {

/// `base64::DecodeError`: why a text is not base64. Only that it occurred
/// is used.
#[verifier::external_type_specification]
#[verifier::external_body]
pub struct ExDecodeError(base64::DecodeError);

/// `std::io::Error`, which the `roaring` crate returns where bytes cannot
/// be written or are no bitmap. Only that it occurred is used.
#[verifier::external_type_specification]
#[verifier::external_body]
pub struct ExIoError(std::io::Error);

/// The text that `base64::encode` gives for the bytes.
pub uninterp spec fn base64_text(bytes: Seq<u8>) -> Seq<char>;

/// The bytes that `base64::decode` reads from the text, and `None` where
/// it refuses the text.
pub uninterp spec fn base64_bytes(text: Seq<char>) -> Option<Seq<u8>>;

/// The set held by the bitmap that `RoaringBitmap::deserialize_from` reads
/// from the bytes, and `None` where it refuses the bytes.
pub uninterp spec fn roaring_values(bytes: Seq<u8>) -> Option<Set<u32>>;

/// The bytes that `RoaringBitmap::serialize_into` writes of the bitmap.
/// They are fixed by the bitmap as it is kept, not by its set alone: two
/// bitmaps of one set may be written differently.
pub uninterp spec fn bitmap_bytes(bitmap: RoaringBitmap) -> Seq<u8>;

/// The longest input, in bytes, that is handed to `base64`: beyond it the
/// crate's size calculations could overflow.
pub open spec fn max_coded_len() -> nat {
    (usize::MAX / 2) as nat
}

/// The text is short enough to be read.
pub open spec fn is_short(text: Seq<char>) -> bool {
    encode_utf8(text).len() <= max_coded_len()
}

/// The set that a text stands for: the text is read as base64, and the
/// bytes as a bitmap in the Roaring format. `None` where the text is too
/// long to be read, or one of the two readings is refused.
pub open spec fn bitmap_of_text(text: Seq<char>) -> Option<Set<u32>> {
    if !is_short(text) {
        None
    } else {
        match base64_bytes(text) {
            Some(bytes) => roaring_values(bytes),
            None => None,
        }
    }
}

/// The bytes are what is written of some bitmap.
pub open spec fn is_written(bytes: Seq<u8>) -> bool {
    exists|bitmap: RoaringBitmap| bitmap_bytes(bitmap) == bytes
}

/// The text that stores the bitmap: its bytes in base64.
pub open spec fn bitmap_text(bitmap: RoaringBitmap) -> Seq<char> {
    base64_text(bitmap_bytes(bitmap))
}

/// The bitmap can be stored as text: neither its bytes nor its text are
/// too long to be read back.
pub open spec fn can_be_written(bitmap: RoaringBitmap) -> bool {
    bitmap_bytes(bitmap).len() <= max_coded_len() && is_short(bitmap_text(bitmap))
}

/// The text is what stores some bitmap, and reads back as the bytes of
/// that bitmap.
pub open spec fn is_written_text(text: Seq<char>) -> bool {
    exists|bitmap: RoaringBitmap| #[trigger]
        can_be_written(bitmap) && text == bitmap_text(bitmap) && base64_bytes(text) == Some(
            bitmap_bytes(bitmap),
        )
}

/// `base64::encode` of a byte vector: the standard base64 text of the
/// bytes, which `base64::decode` reads back as the same bytes, as the
/// crate's README shows of the pair. Longer inputs are left out, for which
/// the crate's size calculation may panic.
#[verifier::external_body]
fn base64_encode(bytes: &Vec<u8>) -> (text: String)
    requires
        bytes@.len() <= max_coded_len(),
    ensures
        text@ == base64_text(bytes@),
        base64_bytes(text@) == Some(bytes@),
{
    base64::encode(bytes)
}

/// `base64::decode` of a string: the bytes that the text stands for, or
/// the crate's error where the text is not valid base64. Longer inputs are
/// left out, for which the crate's size calculation may panic.
#[verifier::external_body]
fn base64_decode(text: &str) -> (r: Result<Vec<u8>, base64::DecodeError>)
    requires
        text.spec_bytes().len() <= max_coded_len(),
    ensures
        match r {
            Ok(bytes) => base64_bytes(text@) == Some(bytes@),
            Err(_) => base64_bytes(text@) is None,
        },
{
    base64::decode(text)
}

/// `RoaringBitmap::serialize_into` a fresh byte vector. It succeeds, since
/// only the writer can fail it and a vector takes every byte. The bytes
/// are those of the bitmap in the Roaring format, which
/// `RoaringBitmap::deserialize_from` reads back as a bitmap of the same
/// set, as the documentation of both shows.
#[verifier::external_body]
fn roaring_serialize(bitmap: &RoaringBitmap) -> (r: Result<Vec<u8>, std::io::Error>)
    ensures
        r is Ok,
        r matches Ok(bytes) ==> bytes@ == bitmap_bytes(*bitmap),
        r matches Ok(bytes) ==> roaring_values(bytes@) == Some(bitmap_values(*bitmap)),
{
    let mut bytes = Vec::new();
    match bitmap.serialize_into(&mut bytes) {
        Ok(()) => Ok(bytes),
        Err(e) => Err(e),
    }
}

/// `RoaringBitmap::deserialize_from` a byte vector: the bitmap that the
/// bytes stand for, or an error where they are not a valid bitmap in the
/// Roaring format. Where the bytes are what `serialize_into` wrote of a
/// bitmap, the bitmap that is read has the containers that were written,
/// each of its kind, and is written as those bytes again.
#[verifier::external_body]
fn roaring_deserialize(bytes: &Vec<u8>) -> (r: Result<RoaringBitmap, std::io::Error>)
    ensures
        match r {
            Ok(bitmap) => roaring_values(bytes@) == Some(bitmap_values(bitmap)),
            Err(_) => roaring_values(bytes@) is None,
        },
        r matches Ok(bitmap) ==> (is_written(bytes@) ==> bitmap_bytes(bitmap) == bytes@),
{
    RoaringBitmap::deserialize_from(&bytes[..])
}

/// The text that stores a bitmap. A text comes back exactly where the
/// bitmap can be stored as text; it is the base64 text of the bytes of the
/// bitmap, and stands for the set that the bitmap holds.
pub fn bitmap_to_bytes(x: &RoaringBitmap) -> (r: Result<String, RaidError>)
    ensures
        r is Ok <==> can_be_written(*x),
        match r {
            Ok(text) => {
                &&& text@ == bitmap_text(*x)
                &&& bitmap_of_text(text@) == Some(bitmap_values(*x))
                &&& is_written_text(text@)
            },
            Err(e) => e == RaidError::PersistenceFailure,
        },
{
    match roaring_serialize(x) {
        Ok(bytes) => {
            let r = written_as_text(bytes);
            proof {
                if r is Ok {
                    assert(can_be_written(*x));
                }
            }
            r
        },
        Err(_) => Err(RaidError::PersistenceFailure),
    }
}

/// The base64 text of the bytes, where neither the bytes nor the text are
/// too long to be read back.
pub fn written_as_text(bytes: Vec<u8>) -> (r: Result<String, RaidError>)
    ensures
        match r {
            Ok(text) => {
                &&& bytes@.len() <= max_coded_len()
                &&& text@ == base64_text(bytes@)
                &&& is_short(text@)
                &&& base64_bytes(text@) == Some(bytes@)
            },
            Err(e) => e == RaidError::PersistenceFailure && (bytes@.len() > max_coded_len()
                || !is_short(base64_text(bytes@))),
        },
{
    if bytes.len() > usize::MAX / 2 {
        return Err(RaidError::PersistenceFailure);
    }
    let text = base64_encode(&bytes);
    if text.as_str().as_bytes().len() > usize::MAX / 2 {
        return Err(RaidError::PersistenceFailure);
    }
    Ok(text)
}

/// The bitmap that a text stores. A bitmap comes back exactly where the
/// text stands for a set, and it holds that set. Where the text is what
/// stores some bitmap, the bitmap that comes back is stored as that text
/// again.
pub fn bitmap_from_bytes(text: &str) -> (r: Result<RoaringBitmap, RaidError>)
    ensures
        match r {
            Ok(bitmap) => {
                &&& bitmap_of_text(text@) == Some(bitmap_values(bitmap))
                &&& is_written_text(text@) ==> can_be_written(bitmap) && bitmap_text(bitmap)
                    == text@
            },
            Err(e) => e == RaidError::PersistenceFailure && bitmap_of_text(text@) is None,
        },
{
    if text.as_bytes().len() > usize::MAX / 2 {
        return Err(RaidError::PersistenceFailure);
    }
    match base64_decode(text) {
        Ok(bytes) => {
            let r = read_as_bitmap(bytes);
            proof {
                if r is Ok && is_written_text(text@) {
                    let written = choose|written: RoaringBitmap| #[trigger]
                        can_be_written(written) && text@ == bitmap_text(written) && base64_bytes(
                            text@,
                        ) == Some(bitmap_bytes(written));
                    assert(bitmap_bytes(written) == bytes@);
                    assert(is_written(bytes@));
                }
            }
            r
        },
        Err(_) => Err(RaidError::PersistenceFailure),
    }
}

/// The bitmap that the bytes store, where they are a bitmap in the Roaring
/// format. Where the bytes are what is written of some bitmap, the bitmap
/// that comes back is written as those bytes again.
pub fn read_as_bitmap(bytes: Vec<u8>) -> (r: Result<RoaringBitmap, RaidError>)
    ensures
        match r {
            Ok(bitmap) => {
                &&& roaring_values(bytes@) == Some(bitmap_values(bitmap))
                &&& is_written(bytes@) ==> bitmap_bytes(bitmap) == bytes@
            },
            Err(e) => e == RaidError::PersistenceFailure && roaring_values(bytes@) is None,
        },
{
    match roaring_deserialize(&bytes) {
        Ok(bitmap) => Ok(bitmap),
        Err(_) => Err(RaidError::PersistenceFailure),
    }
}

} // verus!

//! Hashing, hexadecimal text and zlib compression, as this library sees them.
//!
//! The functions marked `external_body` call into the `sha1`, `hex` and
//! `flate2` crates and into `std`. Their contracts are believed, not proved.

use vstd::prelude::*;
use std::io::Read;
use std::io::Write;
use sha1::Digest;

verus! {

/// The SHA-1 digest of a byte sequence.
pub uninterp spec fn sha1_digest(data: Seq<u8>) -> Seq<u8>;

/// What zlib compression at the highest level makes of a byte sequence, or
/// `None` where the compressor reports a failure.
pub uninterp spec fn zlib_deflate(data: Seq<u8>) -> Option<Seq<u8>>;

/// The content of a zlib stream, or `None` where the stream cannot be read to
/// its end.
pub uninterp spec fn zlib_inflate(data: Seq<u8>) -> Option<Seq<u8>>;

/// The lowercase hexadecimal digit for a value below sixteen.
pub open spec fn hex_digit(v: int) -> char {
    if v < 10 {
        ((48 + v) as u8) as char
    } else {
        ((87 + v) as u8) as char
    }
}

/// Lowercase hexadecimal text for `data`: two digits per byte, the high half
/// first.
pub open spec fn hex_text(data: Seq<u8>) -> Seq<char> {
    Seq::new(
        2 * data.len(),
        |i: int|
            if i % 2 == 0 {
                hex_digit(data[i / 2] as int / 16)
            } else {
                hex_digit(data[i / 2] as int % 16)
            },
    )
}

/// The value of a hexadecimal digit of either case, or `None` for any other
/// character.
pub open spec fn hex_value(c: char) -> Option<int> {
    if '0' <= c <= '9' {
        Some(c as int - 48)
    } else if 'a' <= c <= 'f' {
        Some(c as int - 87)
    } else if 'A' <= c <= 'F' {
        Some(c as int - 55)
    } else {
        None
    }
}

/// Whether `text` is an even number of hexadecimal digits.
pub open spec fn is_hex_text(text: Seq<char>) -> bool {
    &&& text.len() % 2 == 0
    &&& forall|i: int| 0 <= i < text.len() ==> (#[trigger] hex_value(text[i])) is Some
}

/// The bytes that hexadecimal `text` stands for.
pub open spec fn hex_bytes(text: Seq<char>) -> Seq<u8> {
    Seq::new(
        text.len() / 2,
        |i: int| (hex_value(text[2 * i])->0 * 16 + hex_value(text[2 * i + 1])->0) as u8,
    )
}

/// `hex::FromHexError`: why text is no hexadecimal. Nothing is known of a
/// value of it.
#[verifier::external_type_specification]
#[verifier::external_body]
pub struct ExFromHexError(hex::FromHexError);

/// `Sha1::digest` of the `sha1` crate: the result is the 20-byte SHA-1 digest
/// of `data`, a function of `data` alone.
#[verifier::external_body]
pub(crate) fn sha1(data: &[u8]) -> (res: Vec<u8>)
    ensures
        res@ == sha1_digest(data@),
        res@.len() == 20,
{
    sha1::Sha1::digest(data).to_vec()
}

/// `hex::encode`: every byte becomes two lowercase hexadecimal digits.
#[verifier::external_body]
pub(crate) fn hex_encode(data: &[u8]) -> (res: String)
    ensures
        res@ == hex_text(data@),
{
    hex::encode(data)
}

/// `hex::decode`: succeeds exactly on an even number of hexadecimal digits of
/// either case, and then gives one byte for each pair of digits.
#[verifier::external_body]
pub(crate) fn hex_decode(text: &str) -> (res: Result<Vec<u8>, hex::FromHexError>)
    ensures
        res is Ok <==> is_hex_text(text@),
        res matches Ok(bytes) ==> bytes@ == hex_bytes(text@),
{
    hex::decode(text)
}

/// `flate2::write::ZlibEncoder` at `Compression::best()`, fed `data` and
/// finished. The compressed bytes are a function of `data` alone, and reading
/// them back as a zlib stream gives `data` again.
#[verifier::external_body]
pub(crate) fn zlib_compress(data: &[u8]) -> (res: Option<Vec<u8>>)
    ensures
        res matches Some(packed) ==> zlib_deflate(data@) == Some(packed@) && zlib_inflate(packed@)
            == Some(data@),
        res is None ==> zlib_deflate(data@) is None,
{
    let mut encoder = flate2::write::ZlibEncoder::new(Vec::new(), flate2::Compression::best());
    match encoder.write_all(data) {
        Ok(()) => {},
        Err(_) => return None,
    }
    match encoder.finish() {
        Ok(packed) => Some(packed),
        Err(_) => None,
    }
}

/// `flate2::read::ZlibDecoder` over `data`, read to its end: the content of
/// the stream, or `None` where reading fails.
#[verifier::external_body]
pub(crate) fn zlib_decompress(data: &[u8]) -> (res: Option<Vec<u8>>)
    ensures
        res matches Some(content) ==> zlib_inflate(data@) == Some(content@),
        res is None ==> zlib_inflate(data@) is None,
{
    let mut content = Vec::new();
    match flate2::read::ZlibDecoder::new(data).read_to_end(&mut content) {
        Ok(_) => Some(content),
        Err(_) => None,
    }
}

/// `String::push`: appends one character.
#[verifier::external_body]
pub(crate) fn string_push(text: &mut String, c: char)
    ensures
        final(text)@ == old(text)@.push(c),
{
    text.push(c)
}

} // verus!

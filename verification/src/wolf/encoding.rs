//! Shift-JIS / UTF-8 text codecs used by every Wolf RPG reader and writer.
//!
//! Wolf RPG v1/v2 files store text as Shift-JIS (code page 932); v3+ files
//! store UTF-8. The Shift-JIS tables live in `encoding_rs`; UTF-8 is described
//! by vstd's `encode_utf8`/`decode_utf8`.

use vstd::prelude::*;
use vstd::utf8::*;

use crate::wolf::dat_parser::{append_decimal, decimal};

verus! {

/// What `encoding_rs::SHIFT_JIS.decode` gives for `bytes`: the decoded text
/// and whether malformed sequences were replaced.
pub uninterp spec fn shift_jis_decoding(bytes: Seq<u8>) -> (Seq<char>, bool);

/// What `encoding_rs::SHIFT_JIS.encode` gives for `text`: the encoded bytes
/// and whether unmappable characters were replaced.
pub uninterp spec fn shift_jis_encoding(text: Seq<char>) -> (Seq<u8>, bool);

/// Every byte is ASCII (below 0x80).
pub open spec fn ascii_bytes(bytes: Seq<u8>) -> bool {
    forall|i: int| 0 <= i < bytes.len() ==> bytes[i] < 0x80
}

/// Every character is ASCII (below U+0080).
pub open spec fn ascii_text(text: Seq<char>) -> bool {
    forall|i: int| 0 <= i < text.len() ==> (text[i] as u32) < 0x80
}

/// Calls `encoding_rs::SHIFT_JIS.decode`. Its result is named by
/// `shift_jis_decoding`: the same bytes always decode the same way. The
/// decoder is ASCII-compatible (`ascii_compatible_two_byte_decoder_functions`
/// in encoding_rs's `shift_jis.rs`) and no BOM is made of ASCII bytes, so
/// ASCII bytes decode to the same characters without error.
#[verifier::external_body]
fn sjis_decode_call(bytes: &[u8]) -> (out: (String, bool))
    ensures
        out.0@ == shift_jis_decoding(bytes@).0,
        out.1 == shift_jis_decoding(bytes@).1,
        ascii_bytes(bytes@) ==> out.0@ == bytes@.map_values(|b: u8| (b as u32) as char) && !out.1,
{
    let (decoded, _, had_errors) = encoding_rs::SHIFT_JIS.decode(bytes);
    (decoded.into_owned(), had_errors)
}

/// Calls `encoding_rs::SHIFT_JIS.encode`. Its result is named by
/// `shift_jis_encoding`. The encoder is ASCII-compatible, so ASCII text
/// encodes to the same bytes without error.
#[verifier::external_body]
fn sjis_encode_call(text: &str) -> (out: (Vec<u8>, bool))
    ensures
        out.0@ == shift_jis_encoding(text@).0,
        out.1 == shift_jis_encoding(text@).1,
        ascii_text(text@) ==> out.0@ == text@.map_values(|c: char| (c as u32) as u8) && !out.1,
{
    let (encoded, _, had_errors) = encoding_rs::SHIFT_JIS.encode(text);
    (encoded.into_owned(), had_errors)
}

/// Calls `std::str::from_utf8`, which, as its documentation says, succeeds
/// exactly on valid UTF-8; the claim is that the decoded characters are those
/// that vstd's `decode_utf8` describes.
#[verifier::external_body]
fn utf8_decode_call(bytes: &[u8]) -> (out: Option<String>)
    ensures
        out is Some <==> valid_utf8(bytes@),
        out matches Some(s) ==> s@ == decode_utf8(bytes@),
{
    match std::str::from_utf8(bytes) {
        Ok(s) => Some(s.to_owned()),
        Err(_) => None,
    }
}

/// What `String::from_utf8_lossy` gives for `bytes`.
pub uninterp spec fn utf8_lossy_decoding(bytes: Seq<u8>) -> Seq<char>;

/// Calls `String::from_utf8_lossy`. Its result is named by
/// `utf8_lossy_decoding`; as its documentation says, valid UTF-8 comes back
/// unchanged, so there the result is vstd's `decode_utf8`.
#[verifier::external_body]
fn utf8_lossy_call(bytes: &[u8]) -> (out: String)
    ensures
        out@ == utf8_lossy_decoding(bytes@),
        valid_utf8(bytes@) ==> out@ == decode_utf8(bytes@),
{
    String::from_utf8_lossy(bytes).into_owned()
}

/// Text decoded from `bytes` in the file's encoding, or `None` when the bytes
/// are not valid in that encoding.
pub open spec fn decoded_text(bytes: Seq<u8>, is_utf8: bool) -> Option<Seq<char>> {
    if is_utf8 {
        if valid_utf8(bytes) {
            Some(decode_utf8(bytes))
        } else {
            None
        }
    } else if shift_jis_decoding(bytes).1 {
        None
    } else {
        Some(shift_jis_decoding(bytes).0)
    }
}

/// Bytes of `text` in the file's encoding, or `None` when some character has
/// no encoding there.
pub open spec fn encoded_text(text: Seq<char>, is_utf8: bool) -> Option<Seq<u8>> {
    if is_utf8 {
        Some(encode_utf8(text))
    } else if shift_jis_encoding(text).1 {
        None
    } else {
        Some(shift_jis_encoding(text).0)
    }
}

/// A text survives a write followed by a read in the given encoding.
/// Always true for UTF-8 (see `lemma_utf8_text_round_trips`).
pub open spec fn text_round_trips(text: Seq<char>, is_utf8: bool) -> bool {
    match encoded_text(text, is_utf8) {
        Some(b) => decoded_text(b, is_utf8) == Some(text),
        None => false,
    }
}

/// Every text survives a UTF-8 write followed by a UTF-8 read.
pub proof fn lemma_utf8_text_round_trips(text: Seq<char>)
    ensures
        text_round_trips(text, true),
{
    encode_utf8_valid_utf8(text);
    encode_utf8_decode_utf8(text);
}

/// The error of a Shift-JIS decode of `n` bytes.
pub open spec fn sjis_decode_error(n: nat) -> Seq<char> {
    "Shift-JIS decode error on "@ + decimal(n) + " bytes"@
}

/// The error of a Shift-JIS encode of `text`.
pub open spec fn sjis_encode_error(text: Seq<char>) -> Seq<char> {
    "Shift-JIS encode error: '"@ + text + "' contains characters not in Shift-JIS"@
}

/// Shift-JIS decoding of raw bytes; fails when the bytes are malformed.
pub fn decode_shiftjis(bytes: &[u8]) -> (res: Result<String, String>)
    ensures
        match decoded_text(bytes@, false) {
            Some(t) => res matches Ok(s) && s@ == t,
            None => res matches Err(e) && e@ == sjis_decode_error(bytes@.len()),
        },
{
    let (decoded, had_errors) = sjis_decode_call(bytes);
    if had_errors {
        let head = append_decimal(String::from_str("Shift-JIS decode error on "), bytes.len());
        Err(head.concat(" bytes"))
    } else {
        Ok(decoded)
    }
}

/// Shift-JIS decoding that keeps going over malformed sequences (they
/// become replacement characters).
pub fn decode_shiftjis_lossy(bytes: &[u8]) -> (res: String)
    ensures
        res@ == shift_jis_decoding(bytes@).0,
{
    let (decoded, _) = sjis_decode_call(bytes);
    decoded
}

/// UTF-8 decoding that replaces malformed sequences.
pub fn decode_utf8_lossy(bytes: &[u8]) -> (res: String)
    ensures
        res@ == utf8_lossy_decoding(bytes@),
        valid_utf8(bytes@) ==> res@ == decode_utf8(bytes@),
{
    utf8_lossy_call(bytes)
}

/// Shift-JIS encoding of `text`; fails when a character has no Shift-JIS code.
pub fn encode_shiftjis(text: &str) -> (res: Result<Vec<u8>, String>)
    ensures
        match encoded_text(text@, false) {
            Some(b) => res matches Ok(v) && v@ == b,
            None => res matches Err(e) && e@ == sjis_encode_error(text@),
        },
{
    let (encoded, had_errors) = sjis_encode_call(text);
    if had_errors {
        Err(String::from_str("Shift-JIS encode error: '").concat(text).concat("' contains characters not in Shift-JIS"))
    } else {
        Ok(encoded)
    }
}

/// UTF-8 decoding of raw bytes; fails when the bytes are not valid UTF-8.
pub fn decode_utf8_bytes(bytes: &[u8]) -> (res: Option<String>)
    ensures
        match res {
            Some(s) => decoded_text(bytes@, true) == Some(s@),
            None => decoded_text(bytes@, true) is None,
        },
{
    utf8_decode_call(bytes)
}

/// Decodes `bytes` in the file's encoding (UTF-8 or Shift-JIS).
pub fn decode_text(bytes: &[u8], is_utf8: bool) -> (res: Option<String>)
    ensures
        match res {
            Some(s) => decoded_text(bytes@, is_utf8) == Some(s@),
            None => decoded_text(bytes@, is_utf8) is None,
        },
{
    if is_utf8 {
        decode_utf8_bytes(bytes)
    } else {
        match decode_shiftjis(bytes) {
            Ok(s) => Some(s),
            Err(_) => None,
        }
    }
}

/// Encodes `text` in the file's encoding (UTF-8 or Shift-JIS).
pub fn encode_text(text: &str, is_utf8: bool) -> (res: Option<Vec<u8>>)
    ensures
        match res {
            Some(b) => encoded_text(text@, is_utf8) == Some(b@),
            None => encoded_text(text@, is_utf8) is None,
        },
{
    if is_utf8 {
        let b = text.as_bytes();
        Some(vstd::slice::slice_to_vec(b))
    } else {
        match encode_shiftjis(text) {
            Ok(b) => Some(b),
            Err(_) => None,
        }
    }
}

/// Whether `text` survives a Shift-JIS write followed by a Shift-JIS read
/// (see `text_round_trips`), found by doing both; ASCII text always does.
pub fn sjis_round_trips(text: &str) -> (r: bool)
    ensures
        r == text_round_trips(text@, false),
        ascii_text(text@) ==> r,
{
    let (enc, err) = sjis_encode_call(text);
    if err {
        return false;
    }
    let (dec, err2) = sjis_decode_call(enc.as_slice());
    proof {
        if ascii_text(text@) {
            assert forall|i: int| 0 <= i < enc@.len() implies enc@[i] < 0x80 by {
                assert(enc@[i] == ((text@[i] as u32) as u8));
                assert((text@[i] as u32) < 0x80);
            }
            assert forall|i: int| 0 <= i < dec@.len() implies dec@[i] == text@[i] by {
                assert(enc@[i] == ((text@[i] as u32) as u8));
                assert((text@[i] as u32) < 0x80);
                assert(dec@[i] == ((enc@[i] as u32) as char));
                assert((enc@[i] as u32) == (text@[i] as u32));
                char_u32_cast(text@[i], text@[i] as u32);
            }
            assert(dec@ =~= text@);
        }
    }
    if err2 {
        return false;
    }
    crate::wolf::decryptor::str_equal(dec.as_str(), text)
}

} // verus!

//! RPG Maker MV/MZ asset decryption (`.rpgmvp`, `.rpgmvo`, `.rpgmvm`).
//!
//! Layout: a 16-byte header starting `RPGM` then `V` (MV) or `Z` (MZ);
//! then the first 16 bytes of the original file XORed with the key; then
//! the rest of the original file unchanged. The key is the 32-character
//! hex string `encryptionKey` of `System.json`.
use vstd::prelude::*;
use vstd::string::StringSliceAdditionalSpecFns;

use crate::wolf::dat_parser::append_decimal;

verus! {

/// Length of the header before the encrypted bytes.
pub const HEADER_LEN: usize = 16;

#[derive(Debug, Clone, PartialEq, Eq)]
pub enum DecryptorError {
    FileTooShort,
    InvalidMagic,
    /// The key is not 32 hex characters; the text says why.
    InvalidKey(String),
}

/// The value of an ASCII hex digit (either case).
pub open spec fn hex_digit(b: u8) -> Option<u8> {
    if 0x30 <= b && b <= 0x39 {
        Some((b - 0x30) as u8)
    } else if 0x61 <= b && b <= 0x66 {
        Some((b - 0x61 + 10) as u8)
    } else if 0x41 <= b && b <= 0x46 {
        Some((b - 0x41 + 10) as u8)
    } else {
        None
    }
}

/// Two key characters read as one byte: both must be hex digits.
pub open spec fn hex_pair(b0: u8, b1: u8) -> Option<u8> {
    match (hex_digit(b0), hex_digit(b1)) {
        (Some(h), Some(l)) => Some((h * 16 + l) as u8),
        _ => None,
    }
}

/// The 16 key bytes that a 32-byte hex key stands for.
pub open spec fn hex_key(s: Seq<u8>) -> Option<Seq<u8>> {
    if s.len() != 32 {
        None
    } else if forall|i: int| 0 <= i < 16 ==> #[trigger] hex_pair(s[2 * i], s[2 * i + 1]) is Some {
        Some(Seq::new(16, |i: int| hex_pair(s[2 * i], s[2 * i + 1])->0))
    } else {
        None
    }
}

proof fn lemma_bad_pair(s: Seq<u8>, i: int)
    requires
        s.len() == 32,
        0 <= i < 16,
        hex_pair(s[2 * i], s[2 * i + 1]) is None,
    ensures
        hex_key(s) is None,
{
    assert(!(hex_pair(s[2 * i], s[2 * i + 1]) is Some));
}

fn hex_digit_of(b: u8) -> (r: Option<u8>)
    ensures
        r == hex_digit(b),
{
    if 0x30 <= b && b <= 0x39 {
        Some(b - 0x30)
    } else if 0x61 <= b && b <= 0x66 {
        Some(b - 0x61 + 10)
    } else if 0x41 <= b && b <= 0x46 {
        Some(b - 0x41 + 10)
    } else {
        None
    }
}

fn hex_pair_of(b0: u8, b1: u8) -> (r: Option<u8>)
    ensures
        r == hex_pair(b0, b1),
{
    match (hex_digit_of(b0), hex_digit_of(b1)) {
        (Some(h), Some(l)) => Some(h * 16 + l),
        _ => None,
    }
}

/// Parses a 32-character hex key into its 16 bytes (see `hex_key`).
pub fn parse_hex_key(key: &str) -> (r: Result<[u8; 16], DecryptorError>)
    ensures
        match hex_key(key.spec_bytes()) {
            Some(k) => r matches Ok(a) && a@ == k,
            None => r matches Err(e) && e is InvalidKey,
        },
{
    let b = key.as_bytes();
    if b.len() != 32 {
        let m = append_decimal(String::from_str("length "), b.len()).concat(" != 32");
        return Err(DecryptorError::InvalidKey(m));
    }
    let ghost s = key.spec_bytes();
    let mut out: Vec<u8> = Vec::new();
    let mut i: usize = 0;
    while i < 16
        invariant
            b@ == s,
            s == key.spec_bytes(),
            s.len() == 32,
            i <= 16,
            out@.len() == i,
            forall|j: int| 0 <= j < i ==> #[trigger] hex_pair(s[2 * j], s[2 * j + 1]) == Some(out@[j]),
        decreases 16 - i,
    {
        match hex_pair_of(b[2 * i], b[2 * i + 1]) {
            Some(v) => {
                out.push(v);
            },
            None => {
                proof {
                    let ii = i as int;
                    assert(b@[2 * ii] == s[2 * ii] && b@[2 * ii + 1] == s[2 * ii + 1]);
                    lemma_bad_pair(s, ii);
                }
                return Err(DecryptorError::InvalidKey(String::from_str("invalid hex byte")));
            },
        }
        i = i + 1;
    }
    let a: [u8; 16] = [
        out[0], out[1], out[2], out[3], out[4], out[5], out[6], out[7], out[8], out[9], out[10],
        out[11], out[12], out[13], out[14], out[15],
    ];
    assert(a@ =~= Seq::new(16, |j: int| hex_pair(s[2 * j], s[2 * j + 1])->0));
    Ok(a)
}

/// The header starts with `RPGM` and then `V` or `Z`.
pub open spec fn has_rpgm_magic(d: Seq<u8>) -> bool {
    d.len() >= 5 && d[0] == 0x52 && d[1] == 0x50 && d[2] == 0x47 && d[3] == 0x4D && (d[4] == 0x56 || d[4]
        == 0x5A)
}

/// The original file: bytes 16..32 XORed with the key, then the rest.
pub open spec fn decrypted(d: Seq<u8>, k: Seq<u8>) -> Seq<u8> {
    Seq::new(16, |i: int| d[16 + i] ^ k[i]) + d.subrange(32, d.len() as int)
}

/// Decrypts an MV/MZ asset with its hex key. A bad key is reported first,
/// then a file shorter than 32 bytes, then a missing `RPGMV`/`RPGMZ` magic.
pub fn decrypt_file(data: &[u8], key: &str) -> (res: Result<Vec<u8>, DecryptorError>)
    ensures
        match hex_key(key.spec_bytes()) {
            None => res matches Err(e) && e is InvalidKey,
            Some(k) => if data@.len() < 32 {
                res == Err::<Vec<u8>, DecryptorError>(DecryptorError::FileTooShort)
            } else if !has_rpgm_magic(data@) {
                res == Err::<Vec<u8>, DecryptorError>(DecryptorError::InvalidMagic)
            } else {
                res matches Ok(v) && v@ == decrypted(data@, k)
            },
        },
{
    let key_bytes = parse_hex_key(key)?;
    if data.len() < HEADER_LEN + 16 {
        return Err(DecryptorError::FileTooShort);
    }
    if !(data[0] == 0x52 && data[1] == 0x50 && data[2] == 0x47 && data[3] == 0x4D && (data[4] == 0x56
        || data[4] == 0x5A)) {
        return Err(DecryptorError::InvalidMagic);
    }
    let ghost k = key_bytes@;
    let mut result: Vec<u8> = Vec::new();
    let mut i: usize = 0;
    while i < 16
        invariant
            data@.len() >= 32,
            k == key_bytes@,
            i <= 16,
            result@ =~= Seq::new(i as nat, |j: int| data@[16 + j] ^ k[j]),
        decreases 16 - i,
    {
        result.push(data[HEADER_LEN + i] ^ key_bytes[i]);
        i = i + 1;
    }
    let mut j: usize = 32;
    while j < data.len()
        invariant
            32 <= j <= data@.len(),
            result@ =~= Seq::new(16, |x: int| data@[16 + x] ^ k[x]) + data@.subrange(32, j as int),
        decreases data@.len() - j,
    {
        result.push(data[j]);
        j = j + 1;
    }
    Ok(result)
}

/// An asset as RPG Maker writes it: the 16-byte header, the first 16
/// bytes of the file XORed with the key, then the rest of the file.
pub open spec fn encrypted(header: Seq<u8>, original: Seq<u8>, k: Seq<u8>) -> Seq<u8> {
    header + Seq::new(16, |i: int| original[i] ^ k[i]) + original.subrange(16, original.len() as int)
}

/// Decrypting an encrypted asset with its key gives the file back.
pub proof fn lemma_decrypt_encrypted(header: Seq<u8>, original: Seq<u8>, k: Seq<u8>)
    requires
        header.len() == 16,
        original.len() >= 16,
        k.len() == 16,
    ensures
        decrypted(encrypted(header, original, k), k) == original,
{
    let e = encrypted(header, original, k);
    let d = decrypted(e, k);
    assert forall|i: int| 0 <= i < original.len() implies d[i] == original[i] by {
        if i < 16 {
            let a = original[i];
            let b = k[i];
            assert(e[16 + i] == a ^ b);
            assert((a ^ b) ^ b == a) by (bit_vector);
        } else {
            assert(e[16 + i] == original[i]);
        }
    }
    assert(d =~= original);
}

/// The lowercase hex digit of a value below 16.
pub open spec fn hex_char(v: u8) -> u8 {
    if v < 10 {
        (0x30 + v) as u8
    } else {
        (0x61 + v - 10) as u8
    }
}

/// A 16-byte key written as 32 lowercase hex digits, high digit first.
pub open spec fn key_text(k: Seq<u8>) -> Seq<u8> {
    Seq::new(
        32,
        |i: int|
            if i % 2 == 0 {
                hex_char(k[i / 2] / 16)
            } else {
                hex_char(k[i / 2] % 16)
            },
    )
}

proof fn lemma_hex_pair_of_byte(b: u8)
    ensures
        hex_pair(hex_char(b / 16), hex_char(b % 16)) == Some(b),
{
    let h = b / 16;
    let l = b % 16;
    assert(h < 16 && l < 16);
    assert(hex_digit(hex_char(h)) == Some(h));
    assert(hex_digit(hex_char(l)) == Some(l));
    assert(h * 16 + l == b) by (nonlinear_arith)
        requires
            h == b / 16,
            l == b % 16,
    ;
}

/// A key written as hex digits reads back as the key.
pub proof fn lemma_hex_key_of_text(k: Seq<u8>)
    requires
        k.len() == 16,
    ensures
        hex_key(key_text(k)) == Some(k),
{
    let s = key_text(k);
    assert forall|i: int| 0 <= i < 16 implies #[trigger] hex_pair(s[2 * i], s[2 * i + 1]) == Some(k[i]) by {
        assert((2 * i) % 2 == 0 && (2 * i) / 2 == i);
        assert((2 * i + 1) % 2 == 1 && (2 * i + 1) / 2 == i);
        lemma_hex_pair_of_byte(k[i]);
    }
    assert(Seq::new(16, |i: int| hex_pair(s[2 * i], s[2 * i + 1])->0) =~= k);
}

/// Decrypting, with its key written as hex digits, an asset that RPG Maker
/// encrypted gives the file back: the key reads back, the asset is long
/// enough and carries the magic, so `decrypt_file` returns `original`.
pub proof fn lemma_decrypt_round_trip(header: Seq<u8>, original: Seq<u8>, k: Seq<u8>)
    requires
        header.len() == 16,
        has_rpgm_magic(header),
        original.len() >= 16,
        k.len() == 16,
    ensures
        hex_key(key_text(k)) == Some(k),
        encrypted(header, original, k).len() >= 32,
        has_rpgm_magic(encrypted(header, original, k)),
        decrypted(encrypted(header, original, k), k) == original,
{
    lemma_hex_key_of_text(k);
    lemma_decrypt_encrypted(header, original, k);
    let e = encrypted(header, original, k);
    assert(forall|i: int| 0 <= i < 16 ==> e[i] == header[i]);
}

} // verus!

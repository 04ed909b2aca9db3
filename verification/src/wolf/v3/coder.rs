//! Byte-level reader/writer for WOLF RPG Editor v3.x binary formats.
//!
//! Integers are little-endian `u32`/`u8`. Strings are length-prefixed: a
//! `u32` byte count that includes a trailing `0x00`, then the bytes, encoded
//! as UTF-8 or Shift-JIS depending on the file's global flag.
//!
//! The readers are specified by `take_*` functions on the unread input: each
//! gives the value read and the input left after it, or `None` when the read
//! fails. The writers are specified by the bytes they append.

use vstd::bytes::*;
use vstd::prelude::*;

use super::V3FormatError;
use crate::wolf::encoding::{decode_text, decoded_text, encode_text, encoded_text, text_round_trips};

verus! {

/// Reads one byte.
pub open spec fn take_u8(s: Seq<u8>) -> Option<(u8, Seq<u8>)> {
    if s.len() >= 1 {
        Some((s[0], s.skip(1)))
    } else {
        None
    }
}

/// Reads one little-endian `u32`.
pub open spec fn take_u32(s: Seq<u8>) -> Option<(u32, Seq<u8>)> {
    if s.len() >= 4 {
        Some((spec_u32_from_le_bytes(s.take(4)), s.skip(4)))
    } else {
        None
    }
}

/// Reads `n` raw bytes.
pub open spec fn take_bytes(s: Seq<u8>, n: int) -> Option<(Seq<u8>, Seq<u8>)> {
    if 0 <= n <= s.len() {
        Some((s.take(n), s.skip(n)))
    } else {
        None
    }
}

/// The text bytes of a string frame's payload: the payload without its
/// trailing `0x00`, when it has one.
pub open spec fn string_body(data: Seq<u8>) -> Seq<u8> {
    if data.len() > 0 && data.last() == 0 {
        data.drop_last()
    } else {
        data
    }
}

/// Reads a length-prefixed string; fails on a zero length, on a short input
/// and on bytes that are not valid in the encoding.
pub open spec fn take_string(s: Seq<u8>, is_utf8: bool) -> Option<(Seq<char>, Seq<u8>)> {
    match take_u32(s) {
        None => None,
        Some((size, r)) => if size == 0 {
            None
        } else {
            match take_bytes(r, size as int) {
                None => None,
                Some((data, r2)) => match decoded_text(string_body(data), is_utf8) {
                    Some(t) => Some((t, r2)),
                    None => None,
                },
            }
        },
    }
}

/// The frame written for already-encoded text bytes: `u32` size (text plus
/// terminator, truncated to 32 bits), the bytes, `0x00`.
pub open spec fn string_frame(enc: Seq<u8>) -> Seq<u8> {
    spec_u32_to_le_bytes((enc.len() + 1) as u32) + enc + seq![0u8]
}

/// The bytes written for `text`, or `None` when the text cannot be encoded.
pub open spec fn string_bytes(text: Seq<char>, is_utf8: bool) -> Option<Seq<u8>> {
    match encoded_text(text, is_utf8) {
        Some(e) => Some(string_frame(e)),
        None => None,
    }
}

/// Reads primitives sequentially from a byte slice, tracking the position.
pub struct ByteReader<'a> {
    bytes: &'a [u8],
    pos: usize,
}

impl<'a> ByteReader<'a> {
    /// The whole input.
    pub closed spec fn input(&self) -> Seq<u8> {
        self.bytes@
    }

    /// How many bytes have been read.
    pub closed spec fn offset(&self) -> int {
        self.pos as int
    }

    pub open spec fn wf(&self) -> bool {
        0 <= self.offset() <= self.input().len()
    }

    /// The unread input.
    pub open spec fn rest(&self) -> Seq<u8> {
        self.input().skip(self.offset())
    }

    pub fn new(bytes: &'a [u8]) -> (r: Self)
        ensures
            r.wf(),
            r.input() == bytes@,
            r.offset() == 0,
            r.rest() == bytes@,
    {
        let r = ByteReader { bytes, pos: 0 };
        assert(r.rest() =~= bytes@);
        r
    }

    pub fn position(&self) -> (p: usize)
        requires
            self.wf(),
        ensures
            p == self.offset(),
    {
        self.pos
    }

    /// The bytes read since offset `start`.
    pub fn consumed_since(&self, start: usize) -> (b: &'a [u8])
        requires
            self.wf(),
            start <= self.offset(),
        ensures
            b@ == self.input().subrange(start as int, self.offset()),
    {
        vstd::slice::slice_subrange(self.bytes, start, self.pos)
    }

    /// The unread bytes.
    pub fn unread(&self) -> (b: &'a [u8])
        requires
            self.wf(),
        ensures
            b@ == self.rest(),
    {
        let b = vstd::slice::slice_subrange(self.bytes, self.pos, self.bytes.len());
        assert(b@ =~= self.rest());
        b
    }

    pub fn remaining(&self) -> (n: usize)
        requires
            self.wf(),
        ensures
            n == self.rest().len(),
    {
        self.bytes.len() - self.pos
    }

    fn take(&mut self, n: usize) -> (res: Result<&'a [u8], V3FormatError>)
        requires
            old(self).wf(),
        ensures
            final(self).wf(),
            final(self).input() == old(self).input(),
            match take_bytes(old(self).rest(), n as int) {
                Some((b, r)) => {
                    &&& res matches Ok(s) && s@ == b
                    &&& final(self).rest() == r
                    &&& final(self).offset() == old(self).offset() + n
                },
                None => {
                    &&& res == Err::<&'a [u8], V3FormatError>(
                        V3FormatError::UnexpectedEof {
                            offset: old(self).offset() as usize,
                            needed: n,
                            available: old(self).rest().len() as usize,
                        },
                    )
                    &&& *final(self) == *old(self)
                },
            },
    {
        let available = self.bytes.len() - self.pos;
        if available < n {
            return Err(V3FormatError::UnexpectedEof { offset: self.pos, needed: n, available });
        }
        let start = self.pos;
        let slice = vstd::slice::slice_subrange(self.bytes, start, start + n);
        self.pos = start + n;
        assert(slice@ =~= old(self).rest().take(n as int));
        assert(self.rest() =~= old(self).rest().skip(n as int));
        Ok(slice)
    }

    pub fn read_u8(&mut self) -> (res: Result<u8, V3FormatError>)
        requires
            old(self).wf(),
        ensures
            final(self).wf(),
            final(self).input() == old(self).input(),
            match take_u8(old(self).rest()) {
                Some((v, r)) => res == Ok::<u8, V3FormatError>(v) && final(self).rest() == r
                    && final(self).offset() == old(self).offset() + 1,
                None => res is Err,
            },
    {
        let s = self.take(1)?;
        Ok(s[0])
    }

    pub fn read_u32_le(&mut self) -> (res: Result<u32, V3FormatError>)
        requires
            old(self).wf(),
        ensures
            final(self).wf(),
            final(self).input() == old(self).input(),
            match take_u32(old(self).rest()) {
                Some((v, r)) => res == Ok::<u32, V3FormatError>(v) && final(self).rest() == r
                    && final(self).offset() == old(self).offset() + 4,
                None => res == Err::<u32, V3FormatError>(
                    V3FormatError::UnexpectedEof {
                        offset: old(self).offset() as usize,
                        needed: 4,
                        available: old(self).rest().len() as usize,
                    },
                ),
            },
    {
        let s = self.take(4)?;
        Ok(u32_from_le_bytes(s))
    }

    pub fn read_bytes(&mut self, n: usize) -> (res: Result<&'a [u8], V3FormatError>)
        requires
            old(self).wf(),
        ensures
            final(self).wf(),
            final(self).input() == old(self).input(),
            match take_bytes(old(self).rest(), n as int) {
                Some((b, r)) => res matches Ok(s) && s@ == b && final(self).rest() == r
                    && final(self).offset() == old(self).offset() + n,
                None => res is Err,
            },
    {
        self.take(n)
    }

    /// Reads a length-prefixed string: `u32` byte count (including the
    /// trailing `0x00`), then that many bytes, decoded as UTF-8 or Shift-JIS.
    pub fn read_string(&mut self, is_utf8: bool) -> (res: Result<String, V3FormatError>)
        requires
            old(self).wf(),
        ensures
            final(self).wf(),
            final(self).input() == old(self).input(),
            match take_string(old(self).rest(), is_utf8) {
                Some((t, r)) => res matches Ok(s) && s@ == t && final(self).rest() == r,
                None => res is Err,
            },
    {
        let offset = self.pos;
        let size = self.read_u32_le()?;
        if size == 0 {
            return Err(V3FormatError::ZeroLengthString { offset });
        }
        let data = self.read_bytes(size as usize)?;
        let len = data.len();
        let body = if len > 0 && data[len - 1] == 0 {
            vstd::slice::slice_subrange(data, 0, len - 1)
        } else {
            data
        };
        assert(body@ =~= string_body(data@));
        match decode_text(body, is_utf8) {
            Some(s) => Ok(s),
            None => {
                let message = if is_utf8 {
                    "invalid UTF-8".to_owned()
                } else {
                    "invalid Shift-JIS".to_owned()
                };
                Err(V3FormatError::InvalidEncoding { offset, message })
            },
        }
    }
}

/// Accumulates bytes written sequentially, mirroring `ByteReader`.
pub struct ByteWriter {
    buf: Vec<u8>,
}

impl ByteWriter {
    /// The bytes written so far.
    pub closed spec fn written(&self) -> Seq<u8> {
        self.buf@
    }

    pub fn new() -> (w: Self)
        ensures
            w.written() == Seq::<u8>::empty(),
    {
        ByteWriter { buf: Vec::new() }
    }

    pub fn write_u8(&mut self, value: u8)
        ensures
            final(self).written() == old(self).written().push(value),
    {
        self.buf.push(value);
    }

    pub fn write_u32_le(&mut self, value: u32)
        ensures
            final(self).written() == old(self).written() + spec_u32_to_le_bytes(value),
    {
        let mut b = u32_to_le_bytes(value);
        self.buf.append(&mut b);
    }

    pub fn write_bytes(&mut self, bytes: &[u8])
        ensures
            final(self).written() == old(self).written() + bytes@,
    {
        let mut b = vstd::slice::slice_to_vec(bytes);
        self.buf.append(&mut b);
    }

    /// Writes a length-prefixed string — the inverse of
    /// `ByteReader::read_string`. Fails when `value` has a character that the
    /// file's encoding cannot represent.
    pub fn write_string(&mut self, value: &str, is_utf8: bool) -> (res: Result<(), V3FormatError>)
        ensures
            match string_bytes(value@, is_utf8) {
                Some(b) => res is Ok && final(self).written() == old(self).written() + b,
                None => res is Err && final(self).written() == old(self).written(),
            },
    {
        match encode_text(value, is_utf8) {
            None => {
                let offset = self.buf.len();
                Err(
                    V3FormatError::InvalidEncoding {
                        offset,
                        message: "text contains characters not in Shift-JIS".to_owned(),
                    },
                )
            },
            Some(mut encoded) => {
                let ghost enc = encoded@;
                encoded.push(0u8);
                let n = encoded.len() as u32;
                assert(n == (enc.len() + 1) as u32);
                self.write_u32_le(n);
                self.write_bytes(encoded.as_slice());
                assert(encoded@ =~= enc + seq![0u8]);
                assert(self.written() =~= old(self).written() + string_frame(enc));
                Ok(())
            },
        }
    }

    pub fn into_bytes(self) -> (v: Vec<u8>)
        ensures
            v@ == self.written(),
    {
        self.buf
    }
}

} // verus!

verus! {

// ---------------------------------------------------------------------------
// What a read gives back of a write
// ---------------------------------------------------------------------------

pub proof fn lemma_take_u8_of_written(b: u8, rest: Seq<u8>)
    ensures
        take_u8(seq![b] + rest) == Some((b, rest)),
{
    assert((seq![b] + rest).skip(1) =~= rest);
}

pub proof fn lemma_take_u32_of_written(v: u32, rest: Seq<u8>)
    ensures
        take_u32(spec_u32_to_le_bytes(v) + rest) == Some((v, rest)),
{
    lemma_auto_spec_u32_to_from_le_bytes();
    let b = spec_u32_to_le_bytes(v);
    assert((b + rest).take(4) =~= b);
    assert((b + rest).skip(4) =~= rest);
}

pub proof fn lemma_take_bytes_of_written(b: Seq<u8>, rest: Seq<u8>)
    ensures
        take_bytes(b + rest, b.len() as int) == Some((b, rest)),
{
    assert((b + rest).take(b.len() as int) =~= b);
    assert((b + rest).skip(b.len() as int) =~= rest);
}

/// A text can be written and read back: it survives the round trip through
/// its encoding, and its frame size fits in 32 bits.
pub open spec fn string_writable(text: Seq<char>, is_utf8: bool) -> bool {
    &&& text_round_trips(text, is_utf8)
    &&& encoded_text(text, is_utf8)->0.len() + 1 < 0x1_0000_0000
}

/// Reading a written string gives back the string.
pub proof fn lemma_take_string_of_written(text: Seq<char>, is_utf8: bool, rest: Seq<u8>)
    requires
        string_writable(text, is_utf8),
    ensures
        string_bytes(text, is_utf8) is Some,
        take_string(string_bytes(text, is_utf8)->0 + rest, is_utf8) == Some((text, rest)),
{
    let e = encoded_text(text, is_utf8)->0;
    let size = (e.len() + 1) as u32;
    let payload = e + seq![0u8];
    assert(string_frame(e) + rest =~= spec_u32_to_le_bytes(size) + (payload + rest));
    lemma_take_u32_of_written(size, payload + rest);
    lemma_take_bytes_of_written(payload, rest);
    assert(payload.drop_last() =~= e);
}

} // verus!

//! LZ4 wrapping of WOLF RPG Editor v3.x `.mps` / `CommonEvent.dat` files.
//!
//! On disk: an uncompressed header (25 bytes for maps, 11 for common
//! events), `dec_size: u32`, `enc_size: u32`, then an `enc_size`-byte raw
//! LZ4 block that decompresses to `dec_size` bytes. The parsers work on
//! `header ++ payload`.

use vstd::bytes::*;
use vstd::prelude::*;
use vstd::slice::slice_subrange;

use super::V3FormatError;

verus! {

/// What `lz4_flex::block::compress` gives for `payload`.
pub uninterp spec fn lz4_block_compressed(payload: Seq<u8>) -> Seq<u8>;

/// What `lz4_flex::block::decompress` gives for `block` with output size
/// `size`: the bytes, or the error's message.
pub uninterp spec fn lz4_block_decompressed(block: Seq<u8>, size: usize) -> Result<Seq<u8>, Seq<char>>;

/// `block` decompresses, with `payload`'s length as the output size, to
/// `payload`.
pub open spec fn decompresses_to(block: Seq<u8>, payload: Seq<u8>) -> bool {
    lz4_block_decompressed(block, payload.len() as usize) == Ok::<Seq<u8>, Seq<char>>(payload)
}

/// Calls `lz4_flex::block::compress`. Its result is named by
/// `lz4_block_compressed`; as the crate's documented round trip shows,
/// decompressing it with the payload's length gives the payload back.
#[verifier::external_body]
fn lz4_compress_call(payload: &[u8]) -> (out: Vec<u8>)
    ensures
        out@ == lz4_block_compressed(payload@),
        decompresses_to(out@, payload@),
{
    lz4_flex::block::compress(payload)
}

/// Calls `lz4_flex::block::decompress` (safe, checked decoding: malformed
/// input and too small an output are errors, not panics). Its result is
/// named by `lz4_block_decompressed`.
#[verifier::external_body]
fn lz4_decompress_call(block: &[u8], size: usize) -> (out: Result<Vec<u8>, String>)
    ensures
        match lz4_block_decompressed(block@, size) {
            Ok(d) => out matches Ok(v) && v@ == d,
            Err(m) => out matches Err(s) && s@ == m,
        },
{
    match lz4_flex::block::decompress(block, size) {
        Ok(v) => Ok(v),
        Err(e) => Err(e.to_string()),
    }
}

/// Size of the uncompressed `.mps` header (magic, version, `unknown2`).
pub const HEADER_SIZE: usize = 25;

/// The 16-byte magic prefix of v3.x map/database files: ten zero bytes,
/// then `WOLFM\0`.
pub open spec fn magic_prefix() -> Seq<u8> {
    seq![
        0x00u8, 0x00, 0x00, 0x00, 0x00, 0x00, 0x00, 0x00, 0x00, 0x00, 0x57, 0x4F, 0x4C, 0x46, 0x4D,
        0x00,
    ]
}

/// An LZ4-wrapped v3.x map file: at least 33 bytes, the magic prefix, a
/// UTF-8 flag of 0x00 or 0x55, three zero bytes and a version byte of at
/// least 0x65.
pub open spec fn looks_lz4_v3(b: Seq<u8>) -> bool {
    &&& b.len() >= 33
    &&& b.take(16) == magic_prefix()
    &&& (b[16] == 0x00 || b[16] == 0x55)
    &&& b[17] == 0 && b[18] == 0 && b[19] == 0
    &&& b[20] >= 0x65
}

/// Whether `bytes` looks like an LZ4-wrapped v3.x map (see `looks_lz4_v3`).
pub fn is_lz4_v3(bytes: &[u8]) -> (r: bool)
    ensures
        r == looks_lz4_v3(bytes@),
{
    if bytes.len() < 33 {
        return false;
    }
    let prefix: [u8; 16] = [
        0x00, 0x00, 0x00, 0x00, 0x00, 0x00, 0x00, 0x00, 0x00, 0x00, 0x57, 0x4F, 0x4C, 0x46, 0x4D, 0x00,
    ];
    proof {
        broadcast use vstd::array::lemma_array_index;

        assert(prefix@ =~= magic_prefix());
    }
    let mut i: usize = 0;
    while i < 16
        invariant
            bytes@.len() >= 33,
            prefix@ == magic_prefix(),
            i <= 16,
            forall|j: int| 0 <= j < i ==> bytes@[j] == prefix@[j],
        decreases 16 - i,
    {
        if bytes[i] != prefix[i] {
            assert(bytes@.take(16)[i as int] != magic_prefix()[i as int]);
            return false;
        }
        i = i + 1;
    }
    assert(bytes@.take(16) =~= magic_prefix());
    (bytes[16] == 0x00 || bytes[16] == 0x55) && bytes[17] == 0 && bytes[18] == 0 && bytes[19] == 0
        && bytes[20] >= 0x65
}

/// What unwrapping an LZ4 block gives: `header ++ payload`, or why not.
pub enum BlockOutcome {
    Eof { offset: usize, needed: usize, available: usize },
    SizeOverflow,
    Lz4(Seq<char>),
    Done(Seq<u8>),
}

/// `bytes[0..header_size]`, `dec_size`, `enc_size`, then the block: the
/// header followed by the block decompressed to `dec_size` bytes. Too
/// short for the two sizes, or for the block, is an end-of-file error; an
/// `enc_size` that overflows the address space is reported as such.
pub open spec fn unwrap_block(bytes: Seq<u8>, header_size: usize) -> BlockOutcome {
    let block_start = header_size + 8;
    if bytes.len() < block_start {
        BlockOutcome::Eof { offset: 0, needed: block_start as usize, available: bytes.len() as usize }
    } else {
        let dec_size = u32_le(bytes, header_size as int) as usize;
        let enc_size = u32_le(bytes, header_size + 4) as usize;
        if block_start + enc_size > usize::MAX {
            BlockOutcome::SizeOverflow
        } else if bytes.len() < block_start + enc_size {
            BlockOutcome::Eof {
                offset: block_start as usize,
                needed: enc_size,
                available: (bytes.len() - block_start) as usize,
            }
        } else {
            match lz4_block_decompressed(
                bytes.subrange(block_start, block_start + enc_size),
                dec_size,
            ) {
                Err(m) => BlockOutcome::Lz4(m),
                Ok(p) => BlockOutcome::Done(bytes.take(header_size as int) + p),
            }
        }
    }
}

pub open spec fn u32_le(s: Seq<u8>, off: int) -> u32 {
    spec_u32_from_le_bytes(s.subrange(off, off + 4))
}

/// `res` reports `o`.
pub open spec fn block_result(res: Result<Vec<u8>, V3FormatError>, o: BlockOutcome) -> bool {
    match o {
        BlockOutcome::Eof { offset, needed, available } => res == Err::<Vec<u8>, V3FormatError>(
            V3FormatError::UnexpectedEof { offset, needed, available },
        ),
        BlockOutcome::SizeOverflow => res matches Err(e) && e is Lz4Block,
        BlockOutcome::Lz4(m) => res matches Err(V3FormatError::Lz4Block { message }) && message@ == m,
        BlockOutcome::Done(b) => res matches Ok(v) && v@ == b,
    }
}

/// Decompresses `header ++ dec_size ++ enc_size ++ block` into
/// `header ++ payload` (see `unwrap_block`).
pub fn decompress_block(bytes: &[u8], header_size: usize) -> (res: Result<Vec<u8>, V3FormatError>)
    requires
        header_size + 8 <= usize::MAX,
    ensures
        block_result(res, unwrap_block(bytes@, header_size)),
{
    let block_start = header_size + 8;
    if bytes.len() < block_start {
        return Err(
            V3FormatError::UnexpectedEof { offset: 0, needed: block_start, available: bytes.len() },
        );
    }
    let dec_size = u32_from_le_bytes(slice_subrange(bytes, header_size, header_size + 4)) as usize;
    let enc_size = u32_from_le_bytes(slice_subrange(bytes, header_size + 4, header_size + 8)) as usize;
    let block_end = match block_start.checked_add(enc_size) {
        Some(e) => e,
        None => return Err(V3FormatError::Lz4Block { message: "enc_size overflow".to_owned() }),
    };
    if bytes.len() < block_end {
        return Err(
            V3FormatError::UnexpectedEof {
                offset: block_start,
                needed: enc_size,
                available: bytes.len() - block_start,
            },
        );
    }
    let payload = match lz4_decompress_call(slice_subrange(bytes, block_start, block_end), dec_size) {
        Ok(p) => p,
        Err(message) => return Err(V3FormatError::Lz4Block { message }),
    };
    let mut out = vstd::slice::slice_to_vec(slice_subrange(bytes, 0, header_size));
    let mut body = payload;
    out.append(&mut body);
    Ok(out)
}

/// The on-disk form of `header ++ payload`: the header, the payload length
/// and the compressed block's length (each as a `u32`, truncated), then
/// the block.
pub open spec fn wrapped_block(decompressed: Seq<u8>, header_size: usize) -> Seq<u8> {
    let payload = decompressed.skip(header_size as int);
    let block = lz4_block_compressed(payload);
    decompressed.take(header_size as int) + spec_u32_to_le_bytes(payload.len() as u32)
        + spec_u32_to_le_bytes(block.len() as u32) + block
}

/// Compresses `header ++ payload` back into the on-disk layout — the
/// inverse of `decompress_block`. Fails when the buffer is shorter than the
/// header.
pub fn recompress_block(decompressed: &[u8], header_size: usize) -> (res: Result<Vec<u8>, V3FormatError>)
    ensures
        decompressed@.len() < header_size ==> res == Err::<Vec<u8>, V3FormatError>(
            V3FormatError::UnexpectedEof {
                offset: 0,
                needed: header_size,
                available: decompressed@.len() as usize,
            },
        ),
        decompressed@.len() >= header_size ==> (res matches Ok(v) && v@ == wrapped_block(
            decompressed@,
            header_size,
        )),
        decompressed@.len() >= header_size && header_size + 8 <= usize::MAX && decompressed@.len()
            - header_size <= u32::MAX ==> (res matches Ok(v) && (v@.len() <= header_size + 8
            + u32::MAX ==> unwrap_block(v@, header_size) == BlockOutcome::Done(decompressed@))),
{
    if decompressed.len() < header_size {
        return Err(
            V3FormatError::UnexpectedEof {
                offset: 0,
                needed: header_size,
                available: decompressed.len(),
            },
        );
    }
    let header = slice_subrange(decompressed, 0, header_size);
    let payload = slice_subrange(decompressed, header_size, decompressed.len());
    let mut block = lz4_compress_call(payload);
    let mut out = vstd::slice::slice_to_vec(header);
    let mut dec = u32_to_le_bytes(payload.len() as u32);
    let mut enc = u32_to_le_bytes(block.len() as u32);
    out.append(&mut dec);
    out.append(&mut enc);
    out.append(&mut block);
    assert(payload@ =~= decompressed@.skip(header_size as int));
    let total = out.len();
    proof {
        assert(out@.len() == total);
        if header_size + 8 <= usize::MAX && decompressed@.len() - header_size <= u32::MAX
            && out@.len() <= header_size + 8 + u32::MAX {
            lemma_block_round_trip(decompressed@, header_size);
        }
    }
    Ok(out)
}

/// Decompresses an LZ4-wrapped `.mps` file into `header[0..25] ++ payload`.
pub fn decompress_v3(bytes: &[u8]) -> (res: Result<Vec<u8>, V3FormatError>)
    ensures
        block_result(res, unwrap_block(bytes@, HEADER_SIZE)),
{
    decompress_block(bytes, HEADER_SIZE)
}

/// Compresses `header[0..25] ++ payload` back into the on-disk `.mps` layout.
pub fn recompress_v3(decompressed: &[u8]) -> (res: Result<Vec<u8>, V3FormatError>)
    ensures
        decompressed@.len() < HEADER_SIZE ==> res is Err,
        decompressed@.len() >= HEADER_SIZE ==> (res matches Ok(v) && v@ == wrapped_block(
            decompressed@,
            HEADER_SIZE,
        )),
{
    recompress_block(decompressed, HEADER_SIZE)
}

/// Unwrapping a wrapped buffer gives it back, when the payload and its
/// compressed block both have lengths that fit the `u32` size fields (and
/// the block decompresses to the payload, which every block the compressor
/// returns does).
pub proof fn lemma_block_round_trip(decompressed: Seq<u8>, header_size: usize)
    requires
        decompressed.len() >= header_size,
        header_size + 8 <= usize::MAX,
        decompressed.len() - header_size <= u32::MAX,
        lz4_block_compressed(decompressed.skip(header_size as int)).len() <= u32::MAX,
        wrapped_block(decompressed, header_size).len() <= usize::MAX,
        decompresses_to(
            lz4_block_compressed(decompressed.skip(header_size as int)),
            decompressed.skip(header_size as int),
        ),
    ensures
        unwrap_block(wrapped_block(decompressed, header_size), header_size) == BlockOutcome::Done(
            decompressed,
        ),
{
    let h = header_size as int;
    let payload = decompressed.skip(h);
    let block = lz4_block_compressed(payload);
    let w = wrapped_block(decompressed, header_size);
    lemma_auto_spec_u32_to_from_le_bytes();
    assert(w.subrange(h, h + 4) =~= spec_u32_to_le_bytes(payload.len() as u32));
    assert(w.subrange(h + 4, h + 8) =~= spec_u32_to_le_bytes(block.len() as u32));
    assert(w.subrange(h + 8, h + 8 + block.len()) =~= block);
    assert(w.take(h) =~= decompressed.take(h));
    assert(decompressed.take(h) + payload =~= decompressed);
}

/// The on-disk layout, read: a header, the decompressed size as the first
/// little-endian `u32` after it, the block's size as the second, then the
/// block; unwrapping gives the header followed by what LZ4 decompresses the
/// block to with that output size.
pub proof fn lemma_unwrap_fixed_layout(header: Seq<u8>, dec_size: u32, block: Seq<u8>, payload: Seq<u8>)
    requires
        header.len() + 8 + block.len() <= usize::MAX,
        block.len() <= u32::MAX,
        lz4_block_decompressed(block, dec_size as usize) == Ok::<Seq<u8>, Seq<char>>(payload),
    ensures
        unwrap_block(
            header + spec_u32_to_le_bytes(dec_size) + spec_u32_to_le_bytes(block.len() as u32) + block,
            header.len() as usize,
        ) == BlockOutcome::Done(header + payload),
{
    let h = header.len() as int;
    let b = header + spec_u32_to_le_bytes(dec_size) + spec_u32_to_le_bytes(block.len() as u32) + block;
    lemma_auto_spec_u32_to_from_le_bytes();
    assert(b.subrange(h, h + 4) =~= spec_u32_to_le_bytes(dec_size));
    assert(b.subrange(h + 4, h + 8) =~= spec_u32_to_le_bytes(block.len() as u32));
    assert(b.subrange(h + 8, h + 8 + block.len()) =~= block);
    assert(b.take(h) =~= header);
}

/// The on-disk layout, written: after the header come the payload's length
/// and then the compressed block's length, each as a little-endian `u32`,
/// then the block LZ4 made of the payload.
pub proof fn lemma_wrapped_fixed_layout(decompressed: Seq<u8>, header_size: usize)
    requires
        decompressed.len() >= header_size,
        decompressed.len() - header_size <= u32::MAX,
        lz4_block_compressed(decompressed.skip(header_size as int)).len() <= u32::MAX,
    ensures
        ({
            let w = wrapped_block(decompressed, header_size);
            let h = header_size as int;
            let block = lz4_block_compressed(decompressed.skip(h));
            &&& w.take(h) == decompressed.take(h)
            &&& spec_u32_from_le_bytes(w.subrange(h, h + 4)) == decompressed.len() - h
            &&& spec_u32_from_le_bytes(w.subrange(h + 4, h + 8)) == block.len()
            &&& w.skip(h + 8) == block
        }),
{
    let h = header_size as int;
    let payload = decompressed.skip(h);
    let block = lz4_block_compressed(payload);
    let w = wrapped_block(decompressed, header_size);
    lemma_auto_spec_u32_to_from_le_bytes();
    assert(w.subrange(h, h + 4) =~= spec_u32_to_le_bytes(payload.len() as u32));
    assert(w.subrange(h + 4, h + 8) =~= spec_u32_to_le_bytes(block.len() as u32));
    assert(w.skip(h + 8) =~= block);
    assert(w.take(h) =~= decompressed.take(h));
}

} // verus!

//! `CommonEvent.dat` structures for WOLF RPG Editor v3.x (v3.5+).
//!
//! On disk: a leading `0x00`, a 9-byte magic whose byte 5 is the UTF-8 flag
//! (`0x55`, else `0x00` for Shift-JIS), a version byte (`0x93` or `0xCC` for
//! v3.5), then `dec_size: u32`, `enc_size: u32` and an LZ4 block. The
//! parser works on the decompressed `header[0..11] ++ payload`.

use vstd::bytes::*;
use vstd::prelude::*;

use super::coder::{
    lemma_take_bytes_of_written, lemma_take_string_of_written, lemma_take_u32_of_written,
    lemma_take_u8_of_written, string_bytes, string_writable, take_bytes, take_string, take_u32, take_u8,
    ByteReader, ByteWriter,
};
use super::command::{
    commands_bytes, commands_view, count_u32, lemma_take_commands_shrinks, lemma_take_strings_shrinks,
    lemma_take_u32s_shrinks, len_as_u32, read_commands, read_strings, read_u32s, strings_bytes,
    strings_view, take_commands, take_strings, take_u32s, u32s_bytes, write_commands, write_strings,
    write_u32s, Command, CommandModel, command_wf, lemma_commands_round_trip, lemma_strings_round_trip,
    lemma_u32s_round_trip,
};
use super::compression::{block_result, decompress_block, recompress_block, unwrap_block, wrapped_block};
use super::V3FormatError;

verus! {

/// Size of the uncompressed header: leading byte, magic, version.
pub const HEADER_SIZE: usize = 11;

pub const EVENT_INDICATOR: u8 = 0x8E;

pub const DATA_INDICATOR: u8 = 0x8F;

pub const UNKNOWN9_INDICATOR: u8 = 0x91;

pub const UNKNOWN10_INDICATOR: u8 = 0x92;

pub const UNKNOWN2_LEN: usize = 7;

pub const UNKNOWN7_LEN: usize = 0x1D;

/// Every common event ends with exactly this many strings.
pub const UNKNOWN8_LEN: usize = 100;

/// The file's terminator must be at least this.
pub const TERMINATOR_MIN: u8 = 0x89;

/// The common-event magic (byte 5 is the UTF-8 flag).
pub open spec fn ce_magic() -> Seq<u8> {
    seq![0x57u8, 0x00, 0x00, 0x4F, 0x4C, 0x00, 0x46, 0x43, 0x00]
}

/// The versions of v3.5 files.
pub open spec fn is_v35_version(v: u8) -> bool {
    v == 0x93 || v == 0xCC
}

/// A v3.5 `CommonEvent.dat`: at least 19 bytes, leading `0x00`, the magic
/// (byte 5 being `0x00` or `0x55`) and a v3.5 version byte.
pub open spec fn looks_lz4_v3(b: Seq<u8>) -> bool {
    &&& b.len() >= 19
    &&& b[0] == 0
    &&& forall|i: int| 0 <= i < 9 && i != 5 ==> b[1 + i] == #[trigger] ce_magic()[i]
    &&& (b[6] == 0x00 || b[6] == 0x55)
    &&& is_v35_version(b[10])
}

/// Whether `bytes` looks like a v3.5 `CommonEvent.dat` (see `looks_lz4_v3`).
pub fn is_lz4_v3(bytes: &[u8]) -> (r: bool)
    ensures
        r == looks_lz4_v3(bytes@),
{
    if bytes.len() < 19 {
        return false;
    }
    let r = bytes[0] == 0x00 && bytes[1] == 0x57 && bytes[2] == 0x00 && bytes[3] == 0x00 && bytes[4]
        == 0x4F && bytes[5] == 0x4C && (bytes[6] == 0x00 || bytes[6] == 0x55) && bytes[7] == 0x46
        && bytes[8] == 0x43 && bytes[9] == 0x00 && (bytes[10] == 0x93 || bytes[10] == 0xCC);
    proof {
        if r {
            assert forall|i: int| 0 <= i < 9 && i != 5 implies bytes@[1 + i] == #[trigger] ce_magic()[i] by {
            }
        } else if !(bytes@[0] == 0) || !(bytes@[6] == 0x00 || bytes@[6] == 0x55) || !is_v35_version(
            bytes@[10],
        ) {
        } else {
            let k: int = if bytes@[1] != 0x57 {
                0
            } else if bytes@[2] != 0 {
                1
            } else if bytes@[3] != 0 {
                2
            } else if bytes@[4] != 0x4F {
                3
            } else if bytes@[5] != 0x4C {
                4
            } else if bytes@[7] != 0x46 {
                6
            } else if bytes@[8] != 0x43 {
                7
            } else {
                8
            };
            assert(bytes@[1 + k] != ce_magic()[k]);
        }
    }
    r
}

/// Decompresses a v3.5 `CommonEvent.dat` into `header[0..11] ++ payload`.
pub fn decompress(bytes: &[u8]) -> (res: Result<Vec<u8>, V3FormatError>)
    ensures
        block_result(res, unwrap_block(bytes@, HEADER_SIZE)),
{
    decompress_block(bytes, HEADER_SIZE)
}

/// Compresses `header[0..11] ++ payload` back into the on-disk layout.
pub fn recompress(decompressed: &[u8]) -> (res: Result<Vec<u8>, V3FormatError>)
    ensures
        decompressed@.len() < HEADER_SIZE ==> res is Err,
        decompressed@.len() >= HEADER_SIZE ==> (res matches Ok(v) && v@ == wrapped_block(
            decompressed@,
            HEADER_SIZE,
        )),
{
    recompress_block(decompressed, HEADER_SIZE)
}

// ---------------------------------------------------------------------------
// One common event
// ---------------------------------------------------------------------------

/// One common event.
pub struct CommonEventModel {
    pub int_id: u32,
    pub unknown1: u32,
    pub unknown2: Seq<u8>,
    pub name: Seq<char>,
    pub commands: Seq<CommandModel>,
    pub unknown11: Seq<char>,
    pub description: Seq<char>,
    pub unknown3: Seq<Seq<char>>,
    pub unknown4: Seq<u8>,
    pub unknown5: Seq<Seq<Seq<char>>>,
    pub unknown6: Seq<Seq<u32>>,
    pub unknown7: Seq<u8>,
    pub unknown8: Seq<Seq<char>>,
    pub unknown9: Seq<char>,
    pub unknown10: Option<(Seq<char>, u32)>,
}

/// `n` string lists, each a count then that many strings.
pub open spec fn take_string_lists(s: Seq<u8>, n: nat, is_utf8: bool) -> Option<
    (Seq<Seq<Seq<char>>>, Seq<u8>),
>
    decreases n,
{
    if n == 0 {
        Some((Seq::empty(), s))
    } else {
        match take_string_lists(s, (n - 1) as nat, is_utf8) {
            None => None,
            Some((vs, r)) => match take_u32(r) {
                None => None,
                Some((k, r1)) => match take_strings(r1, k as nat, is_utf8) {
                    None => None,
                    Some((v, r2)) => Some((vs.push(v), r2)),
                },
            },
        }
    }
}

/// `n` integer lists, each a count then that many `u32`s.
pub open spec fn take_u32_lists(s: Seq<u8>, n: nat) -> Option<(Seq<Seq<u32>>, Seq<u8>)>
    decreases n,
{
    if n == 0 {
        Some((Seq::empty(), s))
    } else {
        match take_u32_lists(s, (n - 1) as nat) {
            None => None,
            Some((vs, r)) => match take_u32(r) {
                None => None,
                Some((k, r1)) => match take_u32s(r1, k as nat) {
                    None => None,
                    Some((v, r2)) => Some((vs.push(v), r2)),
                },
            },
        }
    }
}

/// The fault of a common event at offset `at` that a read reports by
/// name: a first byte other than the header indicator `0x8E`.
pub open spec fn common_event_fault(s: Seq<u8>, at: int) -> Option<V3FormatError> {
    if s.len() >= 1 && s[0] != EVENT_INDICATOR {
        Some(
            V3FormatError::UnexpectedByte {
                offset: at as usize,
                expected: EVENT_INDICATOR,
                found: s[0],
                context: "common event header indicator",
            },
        )
    } else {
        None
    }
}

/// The head of a common event: indicator `0x8E`, id, `unknown1`, 7 bytes,
/// name, commands (count, then commands), `unknown11`, description, and
/// the data indicator `0x8F`.
pub open spec fn take_ce_head(s: Seq<u8>, is_utf8: bool, v35: bool) -> Option<
    ((u32, u32, Seq<u8>, Seq<char>, Seq<CommandModel>, Seq<char>, Seq<char>), Seq<u8>),
> {
    match take_u8(s) {
        None => None,
        Some((ind, r0)) => if ind != EVENT_INDICATOR {
            None
        } else {
            match take_u32(r0) {
                None => None,
                Some((id, r1)) => match take_u32(r1) {
                    None => None,
                    Some((u1, r2)) => match take_bytes(r2, UNKNOWN2_LEN as int) {
                        None => None,
                        Some((u2, r3)) => match take_string(r3, is_utf8) {
                            None => None,
                            Some((name, r4)) => match take_u32(r4) {
                                None => None,
                                Some((n, r5)) => match take_commands(r5, n as nat, is_utf8, v35) {
                                    None => None,
                                    Some((cmds, r6)) => match take_string(r6, is_utf8) {
                                        None => None,
                                        Some((u11, r7)) => match take_string(r7, is_utf8) {
                                            None => None,
                                            Some((desc, r8)) => match take_u8(r8) {
                                                None => None,
                                                Some((di, r9)) => if di != DATA_INDICATOR {
                                                    None
                                                } else {
                                                    Some(((id, u1, u2, name, cmds, u11, desc), r9))
                                                },
                                            },
                                        },
                                    },
                                },
                            },
                        },
                    },
                },
            }
        },
    }
}

/// The lists of a common event: strings, bytes, string lists and integer
/// lists, each after its count.
pub open spec fn take_ce_lists(s: Seq<u8>, is_utf8: bool) -> Option<
    ((Seq<Seq<char>>, Seq<u8>, Seq<Seq<Seq<char>>>, Seq<Seq<u32>>), Seq<u8>),
> {
    match take_u32(s) {
        None => None,
        Some((n3, r1)) => match take_strings(r1, n3 as nat, is_utf8) {
            None => None,
            Some((u3, r2)) => match take_u32(r2) {
                None => None,
                Some((n4, r3)) => match take_bytes(r3, n4 as int) {
                    None => None,
                    Some((u4, r4)) => match take_u32(r4) {
                        None => None,
                        Some((n5, r5)) => match take_string_lists(r5, n5 as nat, is_utf8) {
                            None => None,
                            Some((u5, r6)) => match take_u32(r6) {
                                None => None,
                                Some((n6, r7)) => match take_u32_lists(r7, n6 as nat) {
                                    None => None,
                                    Some((u6, r8)) => Some(((u3, u4, u5, u6), r8)),
                                },
                            },
                        },
                    },
                },
            },
        }
    }
}

/// The tail of a common event: 29 opaque bytes, 100 strings, indicator
/// `0x91`, `unknown9`, then either `0x92`, `unknown10`, `unknown12`, `0x92`
/// or a lone `0x91`.
pub open spec fn take_ce_tail(s: Seq<u8>, is_utf8: bool) -> Option<
    ((Seq<u8>, Seq<Seq<char>>, Seq<char>, Option<(Seq<char>, u32)>), Seq<u8>),
> {
    match take_bytes(s, UNKNOWN7_LEN as int) {
        None => None,
        Some((u7, r1)) => match take_strings(r1, UNKNOWN8_LEN as nat, is_utf8) {
            None => None,
            Some((u8s, r2)) => match take_u8(r2) {
                None => None,
                Some((i9, r3)) => if i9 != UNKNOWN9_INDICATOR {
                    None
                } else {
                    match take_string(r3, is_utf8) {
                        None => None,
                        Some((u9, r4)) => match take_u8(r4) {
                            None => None,
                            Some((i10, r5)) => if i10 == UNKNOWN10_INDICATOR {
                                match take_string(r5, is_utf8) {
                                    None => None,
                                    Some((u10, r6)) => match take_u32(r6) {
                                        None => None,
                                        Some((u12, r7)) => match take_u8(r7) {
                                            None => None,
                                            Some((t, r8)) => if t != UNKNOWN10_INDICATOR {
                                                None
                                            } else {
                                                Some(((u7, u8s, u9, Some((u10, u12))), r8))
                                            },
                                        },
                                    },
                                }
                            } else if i10 == UNKNOWN9_INDICATOR {
                                Some(((u7, u8s, u9, None), r5))
                            } else {
                                None
                            },
                        },
                    }
                },
            },
        },
    }
}

#[verifier::opaque]
pub open spec fn take_common_event(s: Seq<u8>, is_utf8: bool, v35: bool) -> Option<
    (CommonEventModel, Seq<u8>),
> {
    match take_ce_head(s, is_utf8, v35) {
        None => None,
        Some(((id, u1, u2, name, cmds, u11, desc), r1)) => match take_ce_lists(r1, is_utf8) {
            None => None,
            Some(((u3, u4, u5, u6), r2)) => match take_ce_tail(r2, is_utf8) {
                None => None,
                Some(((u7, u8s, u9, u10), r3)) => Some(
                    (
                        CommonEventModel {
                            int_id: id,
                            unknown1: u1,
                            unknown2: u2,
                            name,
                            commands: cmds,
                            unknown11: u11,
                            description: desc,
                            unknown3: u3,
                            unknown4: u4,
                            unknown5: u5,
                            unknown6: u6,
                            unknown7: u7,
                            unknown8: u8s,
                            unknown9: u9,
                            unknown10: u10,
                        },
                        r3,
                    ),
                ),
            },
        },
    }
}

pub open spec fn string_lists_bytes(ls: Seq<Seq<Seq<char>>>, is_utf8: bool) -> Option<Seq<u8>>
    decreases ls.len(),
{
    if ls.len() == 0 {
        Some(Seq::empty())
    } else {
        match (string_lists_bytes(ls.drop_last(), is_utf8), strings_bytes(ls.last(), is_utf8)) {
            (Some(a), Some(b)) => Some(a + spec_u32_to_le_bytes(count_u32(ls.last().len() as int)) + b),
            _ => None,
        }
    }
}

pub open spec fn u32_lists_bytes(ls: Seq<Seq<u32>>) -> Seq<u8>
    decreases ls.len(),
{
    if ls.len() == 0 {
        Seq::empty()
    } else {
        u32_lists_bytes(ls.drop_last()) + spec_u32_to_le_bytes(count_u32(ls.last().len() as int))
            + u32s_bytes(ls.last())
    }
}

/// A common event's bytes up to and including the data indicator, given
/// its encoded name, command bytes, `unknown11` and description.
pub open spec fn ce_head_bytes(
    e: CommonEventModel,
    name: Seq<u8>,
    cb: Seq<u8>,
    u11: Seq<u8>,
    desc: Seq<u8>,
) -> Seq<u8> {
    seq![EVENT_INDICATOR] + spec_u32_to_le_bytes(e.int_id) + spec_u32_to_le_bytes(e.unknown1)
        + e.unknown2 + name + spec_u32_to_le_bytes(count_u32(e.commands.len() as int)) + cb + u11
        + desc + seq![DATA_INDICATOR]
}

/// A common event's list bytes, given its encoded string lists.
pub open spec fn ce_lists_bytes(e: CommonEventModel, u3: Seq<u8>, u5: Seq<u8>) -> Seq<u8> {
    spec_u32_to_le_bytes(count_u32(e.unknown3.len() as int)) + u3 + spec_u32_to_le_bytes(
        count_u32(e.unknown4.len() as int),
    ) + e.unknown4 + spec_u32_to_le_bytes(count_u32(e.unknown5.len() as int)) + u5
        + spec_u32_to_le_bytes(count_u32(e.unknown6.len() as int)) + u32_lists_bytes(e.unknown6)
}

/// A common event's tail bytes, or `None` when a string cannot be encoded.
pub open spec fn ce_tail_bytes(e: CommonEventModel, is_utf8: bool) -> Option<Seq<u8>> {
    match (strings_bytes(e.unknown8, is_utf8), string_bytes(e.unknown9, is_utf8)) {
        (Some(u8b), Some(u9)) => {
            let end = match e.unknown10 {
                None => Some(seq![UNKNOWN9_INDICATOR]),
                Some((u10, u12)) => match string_bytes(u10, is_utf8) {
                    None => None,
                    Some(u10b) => Some(
                        seq![UNKNOWN10_INDICATOR] + u10b + spec_u32_to_le_bytes(u12) + seq![
                            UNKNOWN10_INDICATOR,
                        ],
                    ),
                },
            };
            match end {
                None => None,
                Some(eb) => Some(e.unknown7 + u8b + seq![UNKNOWN9_INDICATOR] + u9 + eb),
            }
        },
        _ => None,
    }
}

/// The bytes written for a common event, or `None` when a string cannot be
/// encoded.
#[verifier::opaque]
pub open spec fn common_event_bytes(e: CommonEventModel, is_utf8: bool, v35: bool) -> Option<Seq<u8>> {
    match (
        string_bytes(e.name, is_utf8),
        commands_bytes(e.commands, is_utf8, v35),
        string_bytes(e.unknown11, is_utf8),
        string_bytes(e.description, is_utf8),
    ) {
        (Some(nb), Some(cb), Some(u11), Some(db)) => match (
            strings_bytes(e.unknown3, is_utf8),
            string_lists_bytes(e.unknown5, is_utf8),
            ce_tail_bytes(e, is_utf8),
        ) {
            (Some(u3), Some(u5), Some(tb)) => Some(
                ce_head_bytes(e, nb, cb, u11, db) + ce_lists_bytes(e, u3, u5) + tb,
            ),
            _ => None,
        },
        _ => None,
    }
}

pub open spec fn string_lists_view(ls: Seq<Vec<String>>) -> Seq<Seq<Seq<char>>> {
    ls.map_values(|v: Vec<String>| strings_view(v@))
}

pub open spec fn u32_lists_view(ls: Seq<Vec<u32>>) -> Seq<Seq<u32>> {
    ls.map_values(|v: Vec<u32>| v@)
}

/// One common event.
#[derive(Debug, Clone, PartialEq)]
pub struct CommonEventV3 {
    pub int_id: u32,
    pub unknown1: u32,
    pub unknown2: [u8; 7],
    pub name: String,
    pub commands: Vec<Command>,
    pub unknown11: String,
    pub description: String,
    pub unknown3: Vec<String>,
    pub unknown4: Vec<u8>,
    pub unknown5: Vec<Vec<String>>,
    pub unknown6: Vec<Vec<u32>>,
    /// Opaque, preserved byte for byte (29 bytes).
    pub unknown7: Vec<u8>,
    /// Always exactly 100 strings.
    pub unknown8: Vec<String>,
    pub unknown9: String,
    /// `Some((unknown10, unknown12))` when the optional `0x92` block is present.
    pub unknown10: Option<(String, u32)>,
}

impl View for CommonEventV3 {
    type V = CommonEventModel;

    open spec fn view(&self) -> CommonEventModel {
        CommonEventModel {
            int_id: self.int_id,
            unknown1: self.unknown1,
            unknown2: self.unknown2@,
            name: self.name@,
            commands: commands_view(self.commands@),
            unknown11: self.unknown11@,
            description: self.description@,
            unknown3: strings_view(self.unknown3@),
            unknown4: self.unknown4@,
            unknown5: string_lists_view(self.unknown5@),
            unknown6: u32_lists_view(self.unknown6@),
            unknown7: self.unknown7@,
            unknown8: strings_view(self.unknown8@),
            unknown9: self.unknown9@,
            unknown10: match self.unknown10 {
                Some((a, b)) => Some((a@, b)),
                None => None,
            },
        }
    }
}

proof fn lemma_take_string_lists_none_extends(s: Seq<u8>, i: nat, n: nat, is_utf8: bool)
    requires
        i <= n,
        take_string_lists(s, i, is_utf8) is None,
    ensures
        take_string_lists(s, n, is_utf8) is None,
    decreases n - i,
{
    if i < n {
        lemma_take_string_lists_none_extends(s, i, (n - 1) as nat, is_utf8);
    }
}

proof fn lemma_take_u32_lists_none_extends(s: Seq<u8>, i: nat, n: nat)
    requires
        i <= n,
        take_u32_lists(s, i) is None,
    ensures
        take_u32_lists(s, n) is None,
    decreases n - i,
{
    if i < n {
        lemma_take_u32_lists_none_extends(s, i, (n - 1) as nat);
    }
}

pub fn read_string_lists(reader: &mut ByteReader, n: usize, is_utf8: bool) -> (res: Result<
    Vec<Vec<String>>,
    V3FormatError,
>)
    requires
        old(reader).wf(),
    ensures
        final(reader).wf(),
        final(reader).input() == old(reader).input(),
        match take_string_lists(old(reader).rest(), n as nat, is_utf8) {
            Some((vs, r)) => res matches Ok(v) && string_lists_view(v@) == vs && final(reader).rest() == r,
            None => res is Err,
        },
{
    let mut out: Vec<Vec<String>> = Vec::new();
    let mut i: usize = 0;
    while i < n
        invariant
            reader.wf(),
            reader.input() == old(reader).input(),
            i <= n,
            take_string_lists(old(reader).rest(), i as nat, is_utf8) == Some(
                (string_lists_view(out@), reader.rest()),
            ),
        decreases n - i,
    {
        let item = match reader.read_u32_le() {
            Ok(k) => read_strings(reader, k as usize, is_utf8),
            Err(e) => Err(e),
        };
        match item {
            Ok(strs) => {
                let ghost before = out@;
                out.push(strs);
                assert(string_lists_view(out@) =~= string_lists_view(before).push(strings_view(strs@)));
            },
            Err(e) => {
                proof {
                    lemma_take_string_lists_none_extends(old(reader).rest(), (i + 1) as nat, n as nat, is_utf8);
                }
                return Err(e);
            },
        }
        i = i + 1;
    }
    Ok(out)
}

pub fn read_u32_lists(reader: &mut ByteReader, n: usize) -> (res: Result<Vec<Vec<u32>>, V3FormatError>)
    requires
        old(reader).wf(),
    ensures
        final(reader).wf(),
        final(reader).input() == old(reader).input(),
        match take_u32_lists(old(reader).rest(), n as nat) {
            Some((vs, r)) => res matches Ok(v) && u32_lists_view(v@) == vs && final(reader).rest() == r,
            None => res is Err,
        },
{
    let mut out: Vec<Vec<u32>> = Vec::new();
    let mut i: usize = 0;
    while i < n
        invariant
            reader.wf(),
            reader.input() == old(reader).input(),
            i <= n,
            take_u32_lists(old(reader).rest(), i as nat) == Some((u32_lists_view(out@), reader.rest())),
        decreases n - i,
    {
        let item = match reader.read_u32_le() {
            Ok(k) => read_u32s(reader, k as usize),
            Err(e) => Err(e),
        };
        match item {
            Ok(vals) => {
                let ghost before = out@;
                out.push(vals);
                assert(u32_lists_view(out@) =~= u32_lists_view(before).push(vals@));
            },
            Err(e) => {
                proof {
                    lemma_take_u32_lists_none_extends(old(reader).rest(), (i + 1) as nat, n as nat);
                }
                return Err(e);
            },
        }
        i = i + 1;
    }
    Ok(out)
}

fn unexpected(offset: usize, expected: u8, found: u8, context: &'static str) -> (e: V3FormatError)
    ensures
        e == (V3FormatError::UnexpectedByte { offset, expected, found, context }),
{
    V3FormatError::UnexpectedByte { offset, expected, found, context }
}

fn read_ce_head(reader: &mut ByteReader, is_utf8: bool, v35: bool) -> (res: Result<
    (u32, u32, [u8; 7], String, Vec<Command>, String, String),
    V3FormatError,
>)
    requires
        old(reader).wf(),
    ensures
        final(reader).wf(),
        final(reader).input() == old(reader).input(),
        match take_ce_head(old(reader).rest(), is_utf8, v35) {
            Some(((id, u1, u2, name, cmds, u11, desc), r)) => res matches Ok(v) && v.0 == id && v.1
                == u1 && v.2@ == u2 && v.3@ == name && commands_view(v.4@) == cmds && v.5@ == u11
                && v.6@ == desc && final(reader).rest() == r,
            None => res is Err,
        },
        common_event_fault(old(reader).rest(), old(reader).offset()) matches Some(e) ==> res matches Err(x) && x == e,
{
    let indicator_offset = reader.position();
    let indicator = reader.read_u8()?;
    if indicator != EVENT_INDICATOR {
        return Err(unexpected(indicator_offset, EVENT_INDICATOR, indicator, "common event header indicator"));
    }
    let int_id = reader.read_u32_le()?;
    let unknown1 = reader.read_u32_le()?;
    let b = reader.read_bytes(UNKNOWN2_LEN)?;
    let unknown2: [u8; 7] = [b[0], b[1], b[2], b[3], b[4], b[5], b[6]];
    proof {
        broadcast use vstd::array::lemma_array_index;

        assert(unknown2@ =~= b@);
    }
    let name = reader.read_string(is_utf8)?;
    let command_count = reader.read_u32_le()?;
    let commands = read_commands(reader, command_count as usize, is_utf8, v35)?;
    let unknown11 = reader.read_string(is_utf8)?;
    let description = reader.read_string(is_utf8)?;
    let indicator_offset = reader.position();
    let indicator = reader.read_u8()?;
    if indicator != DATA_INDICATOR {
        return Err(unexpected(indicator_offset, DATA_INDICATOR, indicator, "common event data indicator"));
    }
    Ok((int_id, unknown1, unknown2, name, commands, unknown11, description))
}

fn read_ce_lists(reader: &mut ByteReader, is_utf8: bool) -> (res: Result<
    (Vec<String>, Vec<u8>, Vec<Vec<String>>, Vec<Vec<u32>>),
    V3FormatError,
>)
    requires
        old(reader).wf(),
    ensures
        final(reader).wf(),
        final(reader).input() == old(reader).input(),
        match take_ce_lists(old(reader).rest(), is_utf8) {
            Some(((u3, u4, u5, u6), r)) => res matches Ok(v) && strings_view(v.0@) == u3 && v.1@ == u4
                && string_lists_view(v.2@) == u5 && u32_lists_view(v.3@) == u6 && final(reader).rest() == r,
            None => res is Err,
        },
{
    let n3 = reader.read_u32_le()?;
    let unknown3 = read_strings(reader, n3 as usize, is_utf8)?;
    let n4 = reader.read_u32_le()?;
    let unknown4 = vstd::slice::slice_to_vec(reader.read_bytes(n4 as usize)?);
    let n5 = reader.read_u32_le()?;
    let unknown5 = read_string_lists(reader, n5 as usize, is_utf8)?;
    let n6 = reader.read_u32_le()?;
    let unknown6 = read_u32_lists(reader, n6 as usize)?;
    Ok((unknown3, unknown4, unknown5, unknown6))
}

fn read_ce_tail(reader: &mut ByteReader, is_utf8: bool) -> (res: Result<
    (Vec<u8>, Vec<String>, String, Option<(String, u32)>),
    V3FormatError,
>)
    requires
        old(reader).wf(),
    ensures
        final(reader).wf(),
        final(reader).input() == old(reader).input(),
        match take_ce_tail(old(reader).rest(), is_utf8) {
            Some(((u7, u8s, u9, u10), r)) => res matches Ok(v) && v.1@.len() == u8s.len() && v.0@ == u7
                && strings_view(v.1@) == u8s && v.2@ == u9 && (match v.3 {
                Some((a, b)) => u10 == Some((a@, b)),
                None => u10 is None,
            }) && final(reader).rest() == r,
            None => res is Err,
        },
{
    let unknown7 = vstd::slice::slice_to_vec(reader.read_bytes(UNKNOWN7_LEN)?);
    let unknown8 = read_strings(reader, UNKNOWN8_LEN, is_utf8)?;
    let indicator_offset = reader.position();
    let indicator = reader.read_u8()?;
    if indicator != UNKNOWN9_INDICATOR {
        return Err(unexpected(indicator_offset, UNKNOWN9_INDICATOR, indicator, "common event unknown9 indicator"));
    }
    let unknown9 = reader.read_string(is_utf8)?;
    let indicator_offset = reader.position();
    let indicator = reader.read_u8()?;
    let unknown10 = if indicator == UNKNOWN10_INDICATOR {
        let unknown10 = reader.read_string(is_utf8)?;
        let unknown12 = reader.read_u32_le()?;
        let trailer_offset = reader.position();
        let trailer = reader.read_u8()?;
        if trailer != UNKNOWN10_INDICATOR {
            return Err(unexpected(trailer_offset, UNKNOWN10_INDICATOR, trailer, "common event unknown10 trailer"));
        }
        Some((unknown10, unknown12))
    } else if indicator == UNKNOWN9_INDICATOR {
        None
    } else {
        return Err(
            unexpected(
                indicator_offset,
                UNKNOWN10_INDICATOR,
                indicator,
                "common event unknown9/unknown10 indicator (expected 0x91 or 0x92)",
            ),
        );
    };
    Ok((unknown7, unknown8, unknown9, unknown10))
}

proof fn lemma_string_lists_bytes_none_extends(ls: Seq<Seq<Seq<char>>>, i: int, n: int, is_utf8: bool)
    requires
        0 <= i <= n <= ls.len(),
        string_lists_bytes(ls.take(i), is_utf8) is None,
    ensures
        string_lists_bytes(ls.take(n), is_utf8) is None,
    decreases n - i,
{
    if i < n {
        lemma_string_lists_bytes_none_extends(ls, i, n - 1, is_utf8);
        assert(ls.take(n).drop_last() =~= ls.take(n - 1));
    }
}

fn write_string_lists(writer: &mut ByteWriter, ls: &Vec<Vec<String>>, is_utf8: bool) -> (res: Result<
    (),
    V3FormatError,
>)
    ensures
        match string_lists_bytes(string_lists_view(ls@), is_utf8) {
            Some(b) => res is Ok && final(writer).written() == old(writer).written() + b,
            None => res is Err,
        },
{
    let ghost lv = string_lists_view(ls@);
    let mut i: usize = 0;
    assert(lv.take(0) =~= Seq::<Seq<Seq<char>>>::empty());
    while i < ls.len()
        invariant
            lv == string_lists_view(ls@),
            i <= ls.len(),
            string_lists_bytes(lv.take(i as int), is_utf8) is Some,
            writer.written() == old(writer).written() + string_lists_bytes(lv.take(i as int), is_utf8)->0,
        decreases ls.len() - i,
    {
        assert(lv.take(i + 1).drop_last() =~= lv.take(i as int));
        assert(lv.take(i + 1).last() == strings_view(ls@[i as int]@));
        writer.write_u32_le(len_as_u32(ls[i].len()));
        match write_strings(writer, &ls[i], is_utf8) {
            Ok(()) => {},
            Err(e) => {
                proof {
                    lemma_string_lists_bytes_none_extends(lv, i + 1, ls.len() as int, is_utf8);
                    assert(lv.take(ls.len() as int) =~= lv);
                }
                return Err(e);
            },
        }
        assert(writer.written() =~= old(writer).written() + string_lists_bytes(lv.take(i + 1), is_utf8)->0);
        i = i + 1;
    }
    assert(lv.take(ls.len() as int) =~= lv);
    Ok(())
}

fn write_u32_lists(writer: &mut ByteWriter, ls: &Vec<Vec<u32>>)
    ensures
        final(writer).written() == old(writer).written() + u32_lists_bytes(u32_lists_view(ls@)),
{
    let ghost lv = u32_lists_view(ls@);
    let mut i: usize = 0;
    assert(lv.take(0) =~= Seq::<Seq<u32>>::empty());
    while i < ls.len()
        invariant
            lv == u32_lists_view(ls@),
            i <= ls.len(),
            writer.written() == old(writer).written() + u32_lists_bytes(lv.take(i as int)),
        decreases ls.len() - i,
    {
        assert(lv.take(i + 1).drop_last() =~= lv.take(i as int));
        assert(lv.take(i + 1).last() == ls@[i as int]@);
        writer.write_u32_le(len_as_u32(ls[i].len()));
        write_u32s(writer, &ls[i]);
        assert(writer.written() =~= old(writer).written() + u32_lists_bytes(lv.take(i + 1)));
        i = i + 1;
    }
    assert(lv.take(ls.len() as int) =~= lv);
}

impl CommonEventV3 {
    /// Reads one common event (see `take_common_event`).
    pub fn parse(reader: &mut ByteReader, is_utf8: bool, v35: bool) -> (res: Result<Self, V3FormatError>)
        requires
            old(reader).wf(),
        ensures
            final(reader).wf(),
            final(reader).input() == old(reader).input(),
            match take_common_event(old(reader).rest(), is_utf8, v35) {
                Some((e, r)) => res matches Ok(v) && v@ == e && final(reader).rest() == r,
                None => res is Err,
            },
            common_event_fault(old(reader).rest(), old(reader).offset()) matches Some(e) ==> res == Err::<
                Self,
                V3FormatError,
            >(e),
    {
        reveal(take_common_event);
        let (int_id, unknown1, unknown2, name, commands, unknown11, description) = read_ce_head(
            reader,
            is_utf8,
            v35,
        )?;
        let (unknown3, unknown4, unknown5, unknown6) = read_ce_lists(reader, is_utf8)?;
        let (unknown7, unknown8, unknown9, unknown10) = read_ce_tail(reader, is_utf8)?;
        let e = CommonEventV3 {
            int_id,
            unknown1,
            unknown2,
            name,
            commands,
            unknown11,
            description,
            unknown3,
            unknown4,
            unknown5,
            unknown6,
            unknown7,
            unknown8,
            unknown9,
            unknown10,
        };
        Ok(e)
    }

    #[verifier::rlimit(50)]
    #[verifier::spinoff_prover]
    fn dump_head(&self, writer: &mut ByteWriter, is_utf8: bool, v35: bool) -> (res: Result<(), V3FormatError>)
        ensures
            match (
                string_bytes(self@.name, is_utf8),
                commands_bytes(self@.commands, is_utf8, v35),
                string_bytes(self@.unknown11, is_utf8),
                string_bytes(self@.description, is_utf8),
            ) {
                (Some(nb), Some(cb), Some(u11), Some(db)) => res is Ok && final(writer).written()
                    == old(writer).written() + ce_head_bytes(self@, nb, cb, u11, db),
                _ => res is Err,
            },
    {
        writer.write_u8(EVENT_INDICATOR);
        writer.write_u32_le(self.int_id);
        writer.write_u32_le(self.unknown1);
        writer.write_bytes(self.unknown2.as_slice());
        let ghost w0 = writer.written();
        writer.write_string(&self.name, is_utf8)?;
        let ghost w1 = writer.written();
        writer.write_u32_le(len_as_u32(self.commands.len()));
        let ghost w2 = writer.written();
        write_commands(writer, &self.commands, is_utf8, v35)?;
        let ghost w3 = writer.written();
        writer.write_string(&self.unknown11, is_utf8)?;
        let ghost w4 = writer.written();
        writer.write_string(&self.description, is_utf8)?;
        writer.write_u8(DATA_INDICATOR);
        proof {
            let e = self@;
            let nb = string_bytes(e.name, is_utf8)->0;
            let cb = commands_bytes(e.commands, is_utf8, v35)->0;
            let u11 = string_bytes(e.unknown11, is_utf8)->0;
            let db = string_bytes(e.description, is_utf8)->0;
            assert(writer.written() =~= old(writer).written() + ce_head_bytes(e, nb, cb, u11, db));
        }
        Ok(())
    }

    fn dump_lists(&self, writer: &mut ByteWriter, is_utf8: bool) -> (res: Result<(), V3FormatError>)
        ensures
            match (strings_bytes(self@.unknown3, is_utf8), string_lists_bytes(self@.unknown5, is_utf8)) {
                (Some(u3), Some(u5)) => res is Ok && final(writer).written() == old(writer).written()
                    + ce_lists_bytes(self@, u3, u5),
                _ => res is Err,
            },
    {
        writer.write_u32_le(len_as_u32(self.unknown3.len()));
        write_strings(writer, &self.unknown3, is_utf8)?;
        writer.write_u32_le(len_as_u32(self.unknown4.len()));
        writer.write_bytes(self.unknown4.as_slice());
        writer.write_u32_le(len_as_u32(self.unknown5.len()));
        write_string_lists(writer, &self.unknown5, is_utf8)?;
        writer.write_u32_le(len_as_u32(self.unknown6.len()));
        write_u32_lists(writer, &self.unknown6);
        proof {
            let e = self@;
            let u3 = strings_bytes(e.unknown3, is_utf8)->0;
            let u5 = string_lists_bytes(e.unknown5, is_utf8)->0;
            assert(writer.written() =~= old(writer).written() + ce_lists_bytes(e, u3, u5));
        }
        Ok(())
    }

    #[verifier::rlimit(50)]
    #[verifier::spinoff_prover]
    fn dump_tail(&self, writer: &mut ByteWriter, is_utf8: bool) -> (res: Result<(), V3FormatError>)
        ensures
            match ce_tail_bytes(self@, is_utf8) {
                Some(b) => res is Ok && final(writer).written() == old(writer).written() + b,
                None => res is Err,
            },
    {
        writer.write_bytes(self.unknown7.as_slice());
        write_strings(writer, &self.unknown8, is_utf8)?;
        writer.write_u8(UNKNOWN9_INDICATOR);
        let ghost w0 = writer.written();
        writer.write_string(&self.unknown9, is_utf8)?;
        let ghost w1 = writer.written();
        match &self.unknown10 {
            Some((unknown10, unknown12)) => {
                writer.write_u8(UNKNOWN10_INDICATOR);
                writer.write_string(unknown10, is_utf8)?;
                writer.write_u32_le(*unknown12);
                writer.write_u8(UNKNOWN10_INDICATOR);
            },
            None => writer.write_u8(UNKNOWN9_INDICATOR),
        }
        proof {
            assert(writer.written() =~= old(writer).written() + ce_tail_bytes(self@, is_utf8)->0);
        }
        Ok(())
    }

    /// Writes this common event — the inverse of `CommonEventV3::parse`.
    pub fn dump(&self, writer: &mut ByteWriter, is_utf8: bool, v35: bool) -> (res: Result<(), V3FormatError>)
        ensures
            match common_event_bytes(self@, is_utf8, v35) {
                Some(b) => res is Ok && final(writer).written() == old(writer).written() + b,
                None => res is Err,
            },
    {
        reveal(common_event_bytes);
        self.dump_head(writer, is_utf8, v35)?;
        let ghost w1 = writer.written();
        self.dump_lists(writer, is_utf8)?;
        let ghost w2 = writer.written();
        self.dump_tail(writer, is_utf8)?;
        proof {
            let e = self@;
            let nb = string_bytes(e.name, is_utf8)->0;
            let cb = commands_bytes(e.commands, is_utf8, v35)->0;
            let u11 = string_bytes(e.unknown11, is_utf8)->0;
            let db = string_bytes(e.description, is_utf8)->0;
            let u3 = strings_bytes(e.unknown3, is_utf8)->0;
            let u5 = string_lists_bytes(e.unknown5, is_utf8)->0;
            let tb = ce_tail_bytes(e, is_utf8)->0;
            assert(writer.written() =~= old(writer).written() + (ce_head_bytes(e, nb, cb, u11, db)
                + ce_lists_bytes(e, u3, u5) + tb));
        }
        Ok(())
    }
}

// ---------------------------------------------------------------------------
// The whole file
// ---------------------------------------------------------------------------

/// A decompressed `CommonEvent.dat`.
pub struct CommonEventsModel {
    pub magic: Seq<u8>,
    pub version: u8,
    pub events: Seq<CommonEventModel>,
    pub terminator: u8,
}

/// `n` common events.
pub open spec fn take_common_event_list(s: Seq<u8>, n: nat, is_utf8: bool, v35: bool) -> Option<
    (Seq<CommonEventModel>, Seq<u8>),
>
    decreases n,
{
    if n == 0 {
        Some((Seq::empty(), s))
    } else {
        match take_common_event_list(s, (n - 1) as nat, is_utf8, v35) {
            None => None,
            Some((vs, r)) => match take_common_event(r, is_utf8, v35) {
                None => None,
                Some((v, r2)) => Some((vs.push(v), r2)),
            },
        }
    }
}

/// The decompressed file: leading `0x00`, 9-byte magic (byte 5 `0x55`:
/// UTF-8), version (`0x93`/`0xCC`: v3.5), event count, the events, and a
/// terminator of at least `0x89`; nothing may follow.
/// The fault of a common events buffer that a read reports by name: a
/// leading byte other than 0, a terminator below `0x89` after the events,
/// or bytes after the terminator, each with its offset.
pub open spec fn common_events_fault(s: Seq<u8>) -> Option<V3FormatError> {
    match take_u8(s) {
        None => None,
        Some((lead, r0)) => if lead != 0 {
            Some(
                V3FormatError::UnexpectedByte {
                    offset: 0,
                    expected: 0,
                    found: lead,
                    context: "common events leading byte",
                },
            )
        } else {
            match take_bytes(r0, 9) {
                None => None,
                Some((magic, r1)) => match take_u8(r1) {
                    None => None,
                    Some((version, r2)) => match take_u32(r2) {
                        None => None,
                        Some((n, r3)) => match take_common_event_list(
                            r3,
                            n as nat,
                            magic[5] == 0x55,
                            is_v35_version(version),
                        ) {
                            None => None,
                            Some((_, r4)) => match take_u8(r4) {
                                None => None,
                                Some((t, r5)) => if t < TERMINATOR_MIN {
                                    Some(
                                        V3FormatError::UnexpectedByte {
                                            offset: (s.len() - r4.len()) as usize,
                                            expected: TERMINATOR_MIN,
                                            found: t,
                                            context: "common events terminator (must be >= 0x89)",
                                        },
                                    )
                                } else if r5.len() != 0 {
                                    Some(
                                        V3FormatError::TrailingData {
                                            offset: (s.len() - r5.len()) as usize,
                                            remaining: r5.len() as usize,
                                        },
                                    )
                                } else {
                                    None
                                },
                            },
                        },
                    },
                },
            }
        },
    }
}

pub open spec fn take_common_events(s: Seq<u8>) -> Option<CommonEventsModel> {
    match take_u8(s) {
        None => None,
        Some((lead, r0)) => if lead != 0 {
            None
        } else {
            match take_bytes(r0, 9) {
                None => None,
                Some((magic, r1)) => match take_u8(r1) {
                    None => None,
                    Some((version, r2)) => match take_u32(r2) {
                        None => None,
                        Some((n, r3)) => match take_common_event_list(
                            r3,
                            n as nat,
                            magic[5] == 0x55,
                            is_v35_version(version),
                        ) {
                            None => None,
                            Some((events, r4)) => match take_u8(r4) {
                                None => None,
                                Some((t, r5)) => if t < TERMINATOR_MIN || r5.len() != 0 {
                                    None
                                } else {
                                    Some(CommonEventsModel { magic, version, events, terminator: t })
                                },
                            },
                        },
                    },
                },
            }
        },
    }
}

pub open spec fn common_event_list_bytes(es: Seq<CommonEventModel>, is_utf8: bool, v35: bool) -> Option<
    Seq<u8>,
>
    decreases es.len(),
{
    if es.len() == 0 {
        Some(Seq::empty())
    } else {
        match (
            common_event_list_bytes(es.drop_last(), is_utf8, v35),
            common_event_bytes(es.last(), is_utf8, v35),
        ) {
            (Some(a), Some(b)) => Some(a + b),
            _ => None,
        }
    }
}

/// The decompressed bytes written for the file, or `None` when a string
/// cannot be encoded.
pub open spec fn common_events_bytes(m: CommonEventsModel) -> Option<Seq<u8>> {
    match common_event_list_bytes(m.events, m.magic[5] == 0x55, is_v35_version(m.version)) {
        None => None,
        Some(eb) => Some(
            seq![0u8] + m.magic + seq![m.version] + spec_u32_to_le_bytes(count_u32(m.events.len() as int))
                + eb + seq![m.terminator],
        ),
    }
}

pub open spec fn common_events_view(es: Seq<CommonEventV3>) -> Seq<CommonEventModel> {
    es.map_values(|e: CommonEventV3| e@)
}

/// A decompressed `CommonEvent.dat`.
#[derive(Debug, Clone, PartialEq)]
pub struct CommonEventsV3 {
    /// 9-byte magic; byte 5 is `0x55` for UTF-8, `0x00` for Shift-JIS.
    pub magic: [u8; 9],
    /// `0x93` or `0xCC` for v3.5.
    pub version: u8,
    pub events: Vec<CommonEventV3>,
    /// At least `0x89`.
    pub terminator: u8,
}

impl View for CommonEventsV3 {
    type V = CommonEventsModel;

    open spec fn view(&self) -> CommonEventsModel {
        CommonEventsModel {
            magic: self.magic@,
            version: self.version,
            events: common_events_view(self.events@),
            terminator: self.terminator,
        }
    }
}

proof fn lemma_take_common_event_list_none_extends(s: Seq<u8>, i: nat, n: nat, is_utf8: bool, v35: bool)
    requires
        i <= n,
        take_common_event_list(s, i, is_utf8, v35) is None,
    ensures
        take_common_event_list(s, n, is_utf8, v35) is None,
    decreases n - i,
{
    if i < n {
        lemma_take_common_event_list_none_extends(s, i, (n - 1) as nat, is_utf8, v35);
    }
}

proof fn lemma_common_event_list_bytes_none_extends(
    es: Seq<CommonEventModel>,
    i: int,
    n: int,
    is_utf8: bool,
    v35: bool,
)
    requires
        0 <= i <= n <= es.len(),
        common_event_list_bytes(es.take(i), is_utf8, v35) is None,
    ensures
        common_event_list_bytes(es.take(n), is_utf8, v35) is None,
    decreases n - i,
{
    if i < n {
        lemma_common_event_list_bytes_none_extends(es, i, n - 1, is_utf8, v35);
        assert(es.take(n).drop_last() =~= es.take(n - 1));
    }
}

impl CommonEventsV3 {
    /// Byte 5 of the magic flags UTF-8 text.
    pub fn is_utf8(&self) -> (r: bool)
        ensures
            r == (self.magic@[5] == 0x55),
    {
        self.magic[5] == 0x55
    }

    /// Versions `0x93` and `0xCC` are v3.5.
    pub fn is_v35(&self) -> (r: bool)
        ensures
            r == is_v35_version(self.version),
    {
        self.version == 0x93 || self.version == 0xCC
    }

    /// Parses the decompressed `header[0..11] ++ payload` buffer (see
    /// `take_common_events`).
    pub fn parse(bytes: &[u8]) -> (res: Result<Self, V3FormatError>)
        ensures
            match take_common_events(bytes@) {
                Some(m) => res matches Ok(v) && v@ == m,
                None => res is Err,
            },
            common_events_fault(bytes@) matches Some(e) ==> res == Err::<Self, V3FormatError>(e),
    {
        let mut reader = ByteReader::new(bytes);
        let leading_offset = reader.position();
        let leading = reader.read_u8()?;
        if leading != 0 {
            return Err(unexpected(leading_offset, 0, leading, "common events leading byte"));
        }
        let mb = reader.read_bytes(9)?;
        let magic: [u8; 9] = [mb[0], mb[1], mb[2], mb[3], mb[4], mb[5], mb[6], mb[7], mb[8]];
        proof {
            broadcast use vstd::array::lemma_array_index;

            assert(magic@ =~= mb@);
        }
        let is_utf8 = magic[5] == 0x55;
        let version = reader.read_u8()?;
        let v35 = version == 0x93 || version == 0xCC;
        let event_count = reader.read_u32_le()?;
        let ghost start = reader.rest();
        assert(take_common_events(bytes@) is Some ==> take_common_event_list(
            start,
            event_count as nat,
            is_utf8,
            v35,
        ) is Some);
        let mut events: Vec<CommonEventV3> = Vec::new();
        let mut i: u32 = 0;
        while i < event_count
            invariant
                reader.wf(),
                reader.input() == bytes@,
                i <= event_count,
                take_common_events(bytes@) is Some ==> take_common_event_list(
                    start,
                    event_count as nat,
                    is_utf8,
                    v35,
                ) is Some,
                take_common_event_list(start, i as nat, is_utf8, v35) == Some(
                    (common_events_view(events@), reader.rest()),
                ),
                common_events_fault(bytes@) is Some ==> take_common_event_list(
                    start,
                    event_count as nat,
                    is_utf8,
                    v35,
                ) is Some,
            decreases event_count - i,
        {
            match CommonEventV3::parse(&mut reader, is_utf8, v35) {
                Ok(e) => {
                    let ghost before = events@;
                    events.push(e);
                    assert(common_events_view(events@) =~= common_events_view(before).push(e@));
                },
                Err(err) => {
                    proof {
                        lemma_take_common_event_list_none_extends(
                            start,
                            (i + 1) as nat,
                            event_count as nat,
                            is_utf8,
                            v35,
                        );
                    }
                    return Err(err);
                },
            }
            i = i + 1;
        }
        let terminator_offset = reader.position();
        let terminator = reader.read_u8()?;
        if terminator < TERMINATOR_MIN {
            return Err(
                unexpected(
                    terminator_offset,
                    TERMINATOR_MIN,
                    terminator,
                    "common events terminator (must be >= 0x89)",
                ),
            );
        }
        if reader.remaining() != 0 {
            return Err(
                V3FormatError::TrailingData {
                    offset: reader.position(),
                    remaining: reader.remaining(),
                },
            );
        }
        Ok(CommonEventsV3 { magic, version, events, terminator })
    }

    /// Writes the decompressed buffer — the inverse of
    /// `CommonEventsV3::parse`.
    pub fn dump(&self) -> (res: Result<Vec<u8>, V3FormatError>)
        ensures
            match common_events_bytes(self@) {
                Some(b) => res matches Ok(v) && v@ == b,
                None => res is Err,
            },
    {
        let is_utf8 = self.is_utf8();
        let v35 = self.is_v35();
        let mut writer = ByteWriter::new();
        writer.write_u8(0);
        writer.write_bytes(self.magic.as_slice());
        writer.write_u8(self.version);
        writer.write_u32_le(len_as_u32(self.events.len()));
        let ghost w0 = writer.written();
        let ghost ev = common_events_view(self.events@);
        let mut i: usize = 0;
        assert(ev.take(0) =~= Seq::<CommonEventModel>::empty());
        while i < self.events.len()
            invariant
                ev == common_events_view(self.events@),
                is_utf8 == (self@.magic[5] == 0x55),
                v35 == is_v35_version(self@.version),
                i <= self.events.len(),
                common_event_list_bytes(ev.take(i as int), is_utf8, v35) is Some,
                writer.written() == w0 + common_event_list_bytes(ev.take(i as int), is_utf8, v35)->0,
            decreases self.events.len() - i,
        {
            assert(ev.take(i + 1).drop_last() =~= ev.take(i as int));
            assert(ev.take(i + 1).last() == self.events@[i as int]@);
            match self.events[i].dump(&mut writer, is_utf8, v35) {
                Ok(()) => {},
                Err(e) => {
                    proof {
                        lemma_common_event_list_bytes_none_extends(ev, i + 1, self.events.len() as int, is_utf8, v35);
                        assert(ev.take(self.events.len() as int) =~= ev);
                    }
                    return Err(e);
                },
            }
            assert(writer.written() =~= w0 + common_event_list_bytes(ev.take(i + 1), is_utf8, v35)->0);
            i = i + 1;
        }
        assert(ev.take(self.events.len() as int) =~= ev);
        writer.write_u8(self.terminator);
        assert(writer.written() =~= common_events_bytes(self@)->0);
        Ok(writer.into_bytes())
    }
}

// ---------------------------------------------------------------------------
// What a read gives back of a write
// ---------------------------------------------------------------------------

pub open spec fn strings_writable(ss: Seq<Seq<char>>, is_utf8: bool) -> bool {
    forall|i: int| 0 <= i < ss.len() ==> string_writable(#[trigger] ss[i], is_utf8)
}

/// Reading back written string lists gives the lists.
pub proof fn lemma_string_lists_round_trip(ls: Seq<Seq<Seq<char>>>, is_utf8: bool, rest: Seq<u8>)
    requires
        forall|i: int| 0 <= i < ls.len() ==> (#[trigger] ls[i]).len() < 0x1_0000_0000 && strings_writable(ls[i], is_utf8),
    ensures
        string_lists_bytes(ls, is_utf8) is Some,
        take_string_lists(string_lists_bytes(ls, is_utf8)->0 + rest, ls.len(), is_utf8) == Some((ls, rest)),
    decreases ls.len(),
{
    if ls.len() > 0 {
        let dl = ls.drop_last();
        let last = ls.last();
        assert(last == ls[ls.len() - 1]);
        assert forall|i: int| 0 <= i < dl.len() implies (#[trigger] dl[i]).len() < 0x1_0000_0000 && strings_writable(dl[i], is_utf8) by {
            assert(dl[i] == ls[i]);
        }
        lemma_strings_round_trip(last, is_utf8, rest);
        let sb = strings_bytes(last, is_utf8)->0;
        let n = count_u32(last.len() as int);
        assert(n == last.len());
        let tail = spec_u32_to_le_bytes(n) + (sb + rest);
        lemma_string_lists_round_trip(dl, is_utf8, tail);
        lemma_take_u32_of_written(n, sb + rest);
        assert(string_lists_bytes(ls, is_utf8)->0 + rest =~= string_lists_bytes(dl, is_utf8)->0 + tail);
        assert(dl.push(last) =~= ls);
    } else {
        assert(Seq::<u8>::empty() + rest =~= rest);
        assert(ls =~= Seq::<Seq<Seq<char>>>::empty());
    }
}

/// Reading back written integer lists gives the lists.
pub proof fn lemma_u32_lists_round_trip(ls: Seq<Seq<u32>>, rest: Seq<u8>)
    requires
        forall|i: int| 0 <= i < ls.len() ==> (#[trigger] ls[i]).len() < 0x1_0000_0000,
    ensures
        take_u32_lists(u32_lists_bytes(ls) + rest, ls.len()) == Some((ls, rest)),
    decreases ls.len(),
{
    if ls.len() > 0 {
        let dl = ls.drop_last();
        let last = ls.last();
        assert(last == ls[ls.len() - 1]);
        assert forall|i: int| 0 <= i < dl.len() implies (#[trigger] dl[i]).len() < 0x1_0000_0000 by {
            assert(dl[i] == ls[i]);
        }
        lemma_u32s_round_trip(last, rest);
        let n = count_u32(last.len() as int);
        assert(n == last.len());
        let tail = spec_u32_to_le_bytes(n) + (u32s_bytes(last) + rest);
        lemma_u32_lists_round_trip(dl, tail);
        lemma_take_u32_of_written(n, u32s_bytes(last) + rest);
        assert(u32_lists_bytes(ls) + rest =~= u32_lists_bytes(dl) + tail);
        assert(dl.push(last) =~= ls);
    } else {
        assert(Seq::<u8>::empty() + rest =~= rest);
        assert(ls =~= Seq::<Seq<u32>>::empty());
    }
}

/// A common event that can be written and read back: its fixed blocks
/// have their sizes, every count fits its word, and every string survives
/// its encoding.
pub open spec fn common_event_wf(e: CommonEventModel, is_utf8: bool, v35: bool) -> bool {
    &&& e.unknown2.len() == UNKNOWN2_LEN
    &&& string_writable(e.name, is_utf8)
    &&& e.commands.len() < 0x1_0000_0000
    &&& forall|i: int| 0 <= i < e.commands.len() ==> command_wf(#[trigger] e.commands[i], is_utf8, v35)
    &&& string_writable(e.unknown11, is_utf8)
    &&& string_writable(e.description, is_utf8)
    &&& e.unknown3.len() < 0x1_0000_0000 && strings_writable(e.unknown3, is_utf8)
    &&& e.unknown4.len() < 0x1_0000_0000
    &&& e.unknown5.len() < 0x1_0000_0000
    &&& forall|i: int| 0 <= i < e.unknown5.len() ==> (#[trigger] e.unknown5[i]).len() < 0x1_0000_0000 && strings_writable(e.unknown5[i], is_utf8)
    &&& e.unknown6.len() < 0x1_0000_0000
    &&& forall|i: int| 0 <= i < e.unknown6.len() ==> (#[trigger] e.unknown6[i]).len() < 0x1_0000_0000
    &&& e.unknown7.len() == UNKNOWN7_LEN
    &&& e.unknown8.len() == UNKNOWN8_LEN && strings_writable(e.unknown8, is_utf8)
    &&& string_writable(e.unknown9, is_utf8)
    &&& (e.unknown10 matches Some((u10, _)) ==> string_writable(u10, is_utf8))
}

pub open spec fn ce_head_then(e: CommonEventModel, nb: Seq<u8>, cb: Seq<u8>, u11: Seq<u8>, db: Seq<u8>, tail: Seq<u8>) -> Seq<u8> {
    seq![EVENT_INDICATOR] + (spec_u32_to_le_bytes(e.int_id) + (spec_u32_to_le_bytes(e.unknown1) + (e.unknown2 + (nb + (
    spec_u32_to_le_bytes(count_u32(e.commands.len() as int)) + (cb + (u11 + (db + (seq![DATA_INDICATOR]
        + tail)))))))))
}

pub open spec fn ce_lists_then(e: CommonEventModel, u3: Seq<u8>, u5: Seq<u8>, tail: Seq<u8>) -> Seq<u8> {
    spec_u32_to_le_bytes(count_u32(e.unknown3.len() as int)) + (u3 + (spec_u32_to_le_bytes(
        count_u32(e.unknown4.len() as int),
    ) + (e.unknown4 + (spec_u32_to_le_bytes(count_u32(e.unknown5.len() as int)) + (u5 + (spec_u32_to_le_bytes(
        count_u32(e.unknown6.len() as int),
    ) + (u32_lists_bytes(e.unknown6) + tail)))))))
}

#[verifier::spinoff_prover]
#[verifier::rlimit(40)]
proof fn lemma_ce_head_round_trip(e: CommonEventModel, is_utf8: bool, v35: bool, tail: Seq<u8>)
    requires
        common_event_wf(e, is_utf8, v35),
    ensures
        string_bytes(e.name, is_utf8) is Some,
        commands_bytes(e.commands, is_utf8, v35) is Some,
        string_bytes(e.unknown11, is_utf8) is Some,
        string_bytes(e.description, is_utf8) is Some,
        take_ce_head(
            ce_head_then(
                e,
                string_bytes(e.name, is_utf8)->0,
                commands_bytes(e.commands, is_utf8, v35)->0,
                string_bytes(e.unknown11, is_utf8)->0,
                string_bytes(e.description, is_utf8)->0,
                tail,
            ),
            is_utf8,
            v35,
        ) == Some(((e.int_id, e.unknown1, e.unknown2, e.name, e.commands, e.unknown11, e.description), tail)),
{
    lemma_take_string_of_written(e.name, is_utf8, Seq::empty());
    lemma_commands_round_trip(e.commands, is_utf8, v35, Seq::empty());
    lemma_take_string_of_written(e.unknown11, is_utf8, Seq::empty());
    lemma_take_string_of_written(e.description, is_utf8, Seq::empty());
    let nb = string_bytes(e.name, is_utf8)->0;
    let cb = commands_bytes(e.commands, is_utf8, v35)->0;
    let u11 = string_bytes(e.unknown11, is_utf8)->0;
    let db = string_bytes(e.description, is_utf8)->0;
    let nc = count_u32(e.commands.len() as int);
    assert(nc == e.commands.len());
    let t_di = seq![DATA_INDICATOR] + tail;
    let t_db = db + t_di;
    let t_u11 = u11 + t_db;
    let t_cb = cb + t_u11;
    let t_nc = spec_u32_to_le_bytes(nc) + t_cb;
    let t_nb = nb + t_nc;
    let t_u2 = e.unknown2 + t_nb;
    let t_u1 = spec_u32_to_le_bytes(e.unknown1) + t_u2;
    let t_id = spec_u32_to_le_bytes(e.int_id) + t_u1;
    lemma_take_u8_of_written(EVENT_INDICATOR, t_id);
    lemma_take_u32_of_written(e.int_id, t_u1);
    lemma_take_u32_of_written(e.unknown1, t_u2);
    lemma_take_bytes_of_written(e.unknown2, t_nb);
    lemma_take_string_of_written(e.name, is_utf8, t_nc);
    lemma_take_u32_of_written(nc, t_cb);
    lemma_commands_round_trip(e.commands, is_utf8, v35, t_u11);
    lemma_take_string_of_written(e.unknown11, is_utf8, t_db);
    lemma_take_string_of_written(e.description, is_utf8, t_di);
    lemma_take_u8_of_written(DATA_INDICATOR, tail);
}

#[verifier::spinoff_prover]
#[verifier::rlimit(40)]
proof fn lemma_ce_lists_round_trip(e: CommonEventModel, is_utf8: bool, v35: bool, tail: Seq<u8>)
    requires
        common_event_wf(e, is_utf8, v35),
    ensures
        strings_bytes(e.unknown3, is_utf8) is Some,
        string_lists_bytes(e.unknown5, is_utf8) is Some,
        take_ce_lists(
            ce_lists_then(
                e,
                strings_bytes(e.unknown3, is_utf8)->0,
                string_lists_bytes(e.unknown5, is_utf8)->0,
                tail,
            ),
            is_utf8,
        ) == Some(((e.unknown3, e.unknown4, e.unknown5, e.unknown6), tail)),
{
    lemma_strings_round_trip(e.unknown3, is_utf8, Seq::empty());
    lemma_string_lists_round_trip(e.unknown5, is_utf8, Seq::empty());
    let u3 = strings_bytes(e.unknown3, is_utf8)->0;
    let u5 = string_lists_bytes(e.unknown5, is_utf8)->0;
    let n3 = count_u32(e.unknown3.len() as int);
    let n4 = count_u32(e.unknown4.len() as int);
    let n5 = count_u32(e.unknown5.len() as int);
    let n6 = count_u32(e.unknown6.len() as int);
    assert(n3 == e.unknown3.len() && n4 == e.unknown4.len() && n5 == e.unknown5.len() && n6 == e.unknown6.len());
    let t_u6 = u32_lists_bytes(e.unknown6) + tail;
    let t_n6 = spec_u32_to_le_bytes(n6) + t_u6;
    let t_u5 = u5 + t_n6;
    let t_n5 = spec_u32_to_le_bytes(n5) + t_u5;
    let t_u4 = e.unknown4 + t_n5;
    let t_n4 = spec_u32_to_le_bytes(n4) + t_u4;
    let t_u3 = u3 + t_n4;
    lemma_take_u32_of_written(n3, t_u3);
    lemma_strings_round_trip(e.unknown3, is_utf8, t_n4);
    lemma_take_u32_of_written(n4, t_u4);
    lemma_take_bytes_of_written(e.unknown4, t_n5);
    lemma_take_u32_of_written(n5, t_u5);
    lemma_string_lists_round_trip(e.unknown5, is_utf8, t_n6);
    lemma_take_u32_of_written(n6, t_u6);
    lemma_u32_lists_round_trip(e.unknown6, tail);
}

/// The tail fields of a common event can be written and read back.
pub open spec fn ce_tail_wf(e: CommonEventModel, is_utf8: bool) -> bool {
    &&& e.unknown7.len() == UNKNOWN7_LEN
    &&& e.unknown8.len() == UNKNOWN8_LEN && strings_writable(e.unknown8, is_utf8)
    &&& string_writable(e.unknown9, is_utf8)
    &&& (e.unknown10 matches Some((u10, _)) ==> string_writable(u10, is_utf8))
}

/// The first part of a common event's tail reads back: its opaque bytes,
/// its 100 strings, the indicator `0x91` and `unknown9`.
#[verifier::spinoff_prover]
proof fn lemma_ce_tail_front(e: CommonEventModel, is_utf8: bool, t_end: Seq<u8>)
    requires
        ce_tail_wf(e, is_utf8),
    ensures
        strings_bytes(e.unknown8, is_utf8) is Some,
        string_bytes(e.unknown9, is_utf8) is Some,
        ({
            let u8b = strings_bytes(e.unknown8, is_utf8)->0;
            let u9 = string_bytes(e.unknown9, is_utf8)->0;
            let t_u9 = u9 + t_end;
            let t_i9 = seq![UNKNOWN9_INDICATOR] + t_u9;
            let t_u8 = u8b + t_i9;
            &&& take_bytes(e.unknown7 + t_u8, UNKNOWN7_LEN as int) == Some((e.unknown7, t_u8))
            &&& take_strings(t_u8, UNKNOWN8_LEN as nat, is_utf8) == Some((e.unknown8, t_i9))
            &&& take_u8(t_i9) == Some((UNKNOWN9_INDICATOR, t_u9))
            &&& take_string(t_u9, is_utf8) == Some((e.unknown9, t_end))
        }),
{
    lemma_strings_round_trip(e.unknown8, is_utf8, Seq::empty());
    lemma_take_string_of_written(e.unknown9, is_utf8, Seq::empty());
    let u8b = strings_bytes(e.unknown8, is_utf8)->0;
    let u9 = string_bytes(e.unknown9, is_utf8)->0;
    let t_u9 = u9 + t_end;
    let t_i9 = seq![UNKNOWN9_INDICATOR] + t_u9;
    let t_u8 = u8b + t_i9;
    lemma_take_bytes_of_written(e.unknown7, t_u8);
    lemma_strings_round_trip(e.unknown8, is_utf8, t_i9);
    lemma_take_u8_of_written(UNKNOWN9_INDICATOR, t_u9);
    lemma_take_string_of_written(e.unknown9, is_utf8, t_end);
}

/// The end of a common event's tail with `unknown10` reads back.
#[verifier::spinoff_prover]
proof fn lemma_ce_tail_end(u10: Seq<char>, u12: u32, is_utf8: bool, rest: Seq<u8>)
    requires
        string_writable(u10, is_utf8),
    ensures
        string_bytes(u10, is_utf8) is Some,
        ({
            let u10b = string_bytes(u10, is_utf8)->0;
            let t_close = seq![UNKNOWN10_INDICATOR] + rest;
            let t_u12 = spec_u32_to_le_bytes(u12) + t_close;
            let t_u10 = u10b + t_u12;
            &&& take_u8(seq![UNKNOWN10_INDICATOR] + t_u10) == Some((UNKNOWN10_INDICATOR, t_u10))
            &&& take_string(t_u10, is_utf8) == Some((u10, t_u12))
            &&& take_u32(t_u12) == Some((u12, t_close))
            &&& take_u8(t_close) == Some((UNKNOWN10_INDICATOR, rest))
        }),
{
    lemma_take_string_of_written(u10, is_utf8, Seq::empty());
    let u10b = string_bytes(u10, is_utf8)->0;
    let t_close = seq![UNKNOWN10_INDICATOR] + rest;
    let t_u12 = spec_u32_to_le_bytes(u12) + t_close;
    let t_u10 = u10b + t_u12;
    lemma_take_u8_of_written(UNKNOWN10_INDICATOR, t_u10);
    lemma_take_string_of_written(u10, is_utf8, t_u12);
    lemma_take_u32_of_written(u12, t_close);
    lemma_take_u8_of_written(UNKNOWN10_INDICATOR, rest);
}

/// Reading a tail whose front is written and whose end is `end` gives
/// the front's fields and what `end` reads as.
#[verifier::spinoff_prover]
proof fn lemma_ce_tail_take(e: CommonEventModel, is_utf8: bool, t_end: Seq<u8>)
    requires
        ce_tail_wf(e, is_utf8),
    ensures
        strings_bytes(e.unknown8, is_utf8) is Some,
        string_bytes(e.unknown9, is_utf8) is Some,
        take_ce_tail(
            e.unknown7 + (strings_bytes(e.unknown8, is_utf8)->0 + (seq![UNKNOWN9_INDICATOR] + (string_bytes(
                e.unknown9,
                is_utf8,
            )->0 + t_end))),
            is_utf8,
        ) == match take_u8(t_end) {
            None => None,
            Some((i10, r5)) => if i10 == UNKNOWN10_INDICATOR {
                match take_string(r5, is_utf8) {
                    None => None,
                    Some((u10, r6)) => match take_u32(r6) {
                        None => None,
                        Some((u12, r7)) => match take_u8(r7) {
                            None => None,
                            Some((t, r8)) => if t != UNKNOWN10_INDICATOR {
                                None
                            } else {
                                Some(((e.unknown7, e.unknown8, e.unknown9, Some((u10, u12))), r8))
                            },
                        },
                    },
                }
            } else if i10 == UNKNOWN9_INDICATOR {
                Some(((e.unknown7, e.unknown8, e.unknown9, None), r5))
            } else {
                None
            },
        },
{
    lemma_ce_tail_front(e, is_utf8, t_end);
}

#[verifier::spinoff_prover]
proof fn lemma_ce_tail_bytes_shape(e: CommonEventModel, is_utf8: bool, rest: Seq<u8>, t_end: Seq<u8>)
    requires
        ce_tail_wf(e, is_utf8),
        strings_bytes(e.unknown8, is_utf8) is Some,
        string_bytes(e.unknown9, is_utf8) is Some,
        ce_tail_bytes(e, is_utf8) is Some,
        ({
            let u8b = strings_bytes(e.unknown8, is_utf8)->0;
            let u9 = string_bytes(e.unknown9, is_utf8)->0;
            ce_tail_bytes(e, is_utf8)->0 + rest == e.unknown7 + u8b + seq![UNKNOWN9_INDICATOR] + u9 + t_end
        }),
    ensures
        ce_tail_bytes(e, is_utf8)->0 + rest == e.unknown7 + (strings_bytes(e.unknown8, is_utf8)->0 + (seq![
            UNKNOWN9_INDICATOR,
        ] + (string_bytes(e.unknown9, is_utf8)->0 + t_end))),
{
    let u8b = strings_bytes(e.unknown8, is_utf8)->0;
    let u9 = string_bytes(e.unknown9, is_utf8)->0;
    assert(e.unknown7 + u8b + seq![UNKNOWN9_INDICATOR] + u9 + t_end =~= e.unknown7 + (u8b + (seq![
        UNKNOWN9_INDICATOR,
    ] + (u9 + t_end))));
}

#[verifier::spinoff_prover]
proof fn lemma_ce_tail_round_trip_plain(e: CommonEventModel, is_utf8: bool, rest: Seq<u8>)
    requires
        ce_tail_wf(e, is_utf8),
        e.unknown10 is None,
    ensures
        ce_tail_bytes(e, is_utf8) is Some,
        take_ce_tail(ce_tail_bytes(e, is_utf8)->0 + rest, is_utf8) == Some(
            ((e.unknown7, e.unknown8, e.unknown9, e.unknown10), rest),
        ),
{
    lemma_strings_round_trip(e.unknown8, is_utf8, Seq::empty());
    lemma_take_string_of_written(e.unknown9, is_utf8, Seq::empty());
    let u8b = strings_bytes(e.unknown8, is_utf8)->0;
    let u9 = string_bytes(e.unknown9, is_utf8)->0;
    let t_end = seq![UNKNOWN9_INDICATOR] + rest;
    lemma_ce_tail_take(e, is_utf8, t_end);
    lemma_take_u8_of_written(UNKNOWN9_INDICATOR, rest);
    let tb = e.unknown7 + u8b + seq![UNKNOWN9_INDICATOR] + u9 + seq![UNKNOWN9_INDICATOR];
    assert(ce_tail_bytes(e, is_utf8) == Some(tb));
    assert(tb + rest =~= e.unknown7 + u8b + seq![UNKNOWN9_INDICATOR] + u9 + t_end);
    lemma_ce_tail_bytes_shape(e, is_utf8, rest, t_end);
}

#[verifier::spinoff_prover]
#[verifier::rlimit(40)]
proof fn lemma_ce_tail_round_trip_extended(e: CommonEventModel, is_utf8: bool, rest: Seq<u8>)
    requires
        ce_tail_wf(e, is_utf8),
        e.unknown10 is Some,
    ensures
        ce_tail_bytes(e, is_utf8) is Some,
        take_ce_tail(ce_tail_bytes(e, is_utf8)->0 + rest, is_utf8) == Some(
            ((e.unknown7, e.unknown8, e.unknown9, e.unknown10), rest),
        ),
{
    lemma_strings_round_trip(e.unknown8, is_utf8, Seq::empty());
    lemma_take_string_of_written(e.unknown9, is_utf8, Seq::empty());
    let u8b = strings_bytes(e.unknown8, is_utf8)->0;
    let u9 = string_bytes(e.unknown9, is_utf8)->0;
    let (u10, u12) = e.unknown10->0;
    lemma_ce_tail_end(u10, u12, is_utf8, rest);
    let u10b = string_bytes(u10, is_utf8)->0;
    let t_end = seq![UNKNOWN10_INDICATOR] + (u10b + (spec_u32_to_le_bytes(u12) + (seq![UNKNOWN10_INDICATOR]
        + rest)));
    lemma_ce_tail_take(e, is_utf8, t_end);
    let eb = seq![UNKNOWN10_INDICATOR] + u10b + spec_u32_to_le_bytes(u12) + seq![UNKNOWN10_INDICATOR];
    let front = e.unknown7 + u8b + seq![UNKNOWN9_INDICATOR] + u9;
    let tb = front + eb;
    assert(ce_tail_bytes(e, is_utf8) == Some(tb));
    assert(eb + rest =~= t_end);
    assert(tb + rest == front + t_end) by {
        assert(tb + rest =~= front + (eb + rest));
    }
    lemma_ce_tail_bytes_shape(e, is_utf8, rest, t_end);
}

proof fn lemma_ce_tail_round_trip(e: CommonEventModel, is_utf8: bool, rest: Seq<u8>)
    requires
        ce_tail_wf(e, is_utf8),
    ensures
        ce_tail_bytes(e, is_utf8) is Some,
        take_ce_tail(ce_tail_bytes(e, is_utf8)->0 + rest, is_utf8) == Some(
            ((e.unknown7, e.unknown8, e.unknown9, e.unknown10), rest),
        ),
{
    if e.unknown10 is None {
        lemma_ce_tail_round_trip_plain(e, is_utf8, rest);
    } else {
        lemma_ce_tail_round_trip_extended(e, is_utf8, rest);
    }
}

#[verifier::spinoff_prover]
#[verifier::rlimit(60)]
proof fn lemma_ce_bytes_shape(e: CommonEventModel, nb: Seq<u8>, cb: Seq<u8>, u11: Seq<u8>, db: Seq<u8>, u3: Seq<u8>, u5: Seq<u8>, tb: Seq<u8>, rest: Seq<u8>)
    ensures
        ce_head_bytes(e, nb, cb, u11, db) + ce_lists_bytes(e, u3, u5) + tb + rest == ce_head_then(
            e,
            nb,
            cb,
            u11,
            db,
            ce_lists_then(e, u3, u5, tb + rest),
        ),
{
    let lt = ce_lists_then(e, u3, u5, tb + rest);
    assert(ce_lists_bytes(e, u3, u5) + (tb + rest) =~= lt);
    assert(ce_head_bytes(e, nb, cb, u11, db) + lt =~= ce_head_then(e, nb, cb, u11, db, lt));
    assert(ce_head_bytes(e, nb, cb, u11, db) + ce_lists_bytes(e, u3, u5) + tb + rest =~= ce_head_bytes(
        e,
        nb,
        cb,
        u11,
        db,
    ) + (ce_lists_bytes(e, u3, u5) + (tb + rest)));
}

/// Reading back a written common event gives the event.
#[verifier::spinoff_prover]
#[verifier::rlimit(40)]
pub proof fn lemma_common_event_round_trip(e: CommonEventModel, is_utf8: bool, v35: bool, rest: Seq<u8>)
    requires
        common_event_wf(e, is_utf8, v35),
    ensures
        common_event_bytes(e, is_utf8, v35) is Some,
        take_common_event(common_event_bytes(e, is_utf8, v35)->0 + rest, is_utf8, v35) == Some((e, rest)),
{
    reveal(common_event_bytes);
    reveal(take_common_event);
    lemma_ce_tail_round_trip(e, is_utf8, rest);
    lemma_ce_lists_round_trip(e, is_utf8, v35, ce_tail_bytes(e, is_utf8)->0 + rest);
    let nb = string_bytes(e.name, is_utf8)->0;
    let cb = commands_bytes(e.commands, is_utf8, v35)->0;
    let u11 = string_bytes(e.unknown11, is_utf8)->0;
    let db = string_bytes(e.description, is_utf8)->0;
    let u3 = strings_bytes(e.unknown3, is_utf8)->0;
    let u5 = string_lists_bytes(e.unknown5, is_utf8)->0;
    let tb = ce_tail_bytes(e, is_utf8)->0;
    let lt = ce_lists_then(e, u3, u5, tb + rest);
    lemma_ce_head_round_trip(e, is_utf8, v35, lt);
    lemma_ce_bytes_shape(e, nb, cb, u11, db, u3, u5, tb, rest);
}

/// Reading back a written list of common events gives the list.
pub proof fn lemma_common_event_list_round_trip(es: Seq<CommonEventModel>, is_utf8: bool, v35: bool, rest: Seq<u8>)
    requires
        forall|i: int| 0 <= i < es.len() ==> common_event_wf(#[trigger] es[i], is_utf8, v35),
    ensures
        common_event_list_bytes(es, is_utf8, v35) is Some,
        take_common_event_list(common_event_list_bytes(es, is_utf8, v35)->0 + rest, es.len(), is_utf8, v35)
            == Some((es, rest)),
    decreases es.len(),
{
    if es.len() > 0 {
        let dl = es.drop_last();
        assert forall|i: int| 0 <= i < dl.len() implies common_event_wf(#[trigger] dl[i], is_utf8, v35) by {
            assert(dl[i] == es[i]);
        }
        assert(common_event_wf(es[es.len() - 1], is_utf8, v35));
        lemma_common_event_round_trip(es.last(), is_utf8, v35, rest);
        let tail = common_event_bytes(es.last(), is_utf8, v35)->0 + rest;
        lemma_common_event_list_round_trip(dl, is_utf8, v35, tail);
        assert(common_event_list_bytes(es, is_utf8, v35)->0 + rest =~= common_event_list_bytes(dl, is_utf8, v35)->0
            + tail);
        assert(dl.push(es.last()) =~= es);
    } else {
        assert(Seq::<u8>::empty() + rest =~= rest);
        assert(es =~= Seq::<CommonEventModel>::empty());
    }
}

/// A `CommonEvent.dat` that can be written and read back: a 9-byte magic,
/// a terminator of at least `0x89`, and writable events whose number fits
/// in 32 bits.
pub open spec fn common_events_wf(m: CommonEventsModel) -> bool {
    &&& m.magic.len() == 9
    &&& m.terminator >= TERMINATOR_MIN
    &&& m.events.len() < 0x1_0000_0000
    &&& forall|i: int| 0 <= i < m.events.len() ==> common_event_wf(
        #[trigger] m.events[i],
        m.magic[5] == 0x55,
        is_v35_version(m.version),
    )
}

/// Reading back a written `CommonEvent.dat` gives the file.
#[verifier::spinoff_prover]
#[verifier::rlimit(40)]
pub proof fn lemma_common_events_round_trip(m: CommonEventsModel)
    requires
        common_events_wf(m),
    ensures
        common_events_bytes(m) is Some,
        take_common_events(common_events_bytes(m)->0) == Some(m),
{
    let is_utf8 = m.magic[5] == 0x55;
    let v35 = is_v35_version(m.version);
    let end = seq![m.terminator];
    lemma_common_event_list_round_trip(m.events, is_utf8, v35, end);
    let eb = common_event_list_bytes(m.events, is_utf8, v35)->0;
    let n = count_u32(m.events.len() as int);
    assert(n == m.events.len());
    let t_events = eb + end;
    let t_n = spec_u32_to_le_bytes(n) + t_events;
    let t_v = seq![m.version] + t_n;
    let t_magic = m.magic + t_v;
    let all = seq![0u8] + t_magic;
    assert(common_events_bytes(m)->0 =~= all);
    lemma_take_u8_of_written(0u8, t_magic);
    lemma_take_bytes_of_written(m.magic, t_v);
    lemma_take_u8_of_written(m.version, t_n);
    lemma_take_u32_of_written(n, t_events);
    lemma_take_u8_of_written(m.terminator, Seq::empty());
    assert(end =~= seq![m.terminator] + Seq::<u8>::empty());
}

} // verus!

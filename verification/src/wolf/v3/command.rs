//! Generic flat command frame for WOLF RPG Editor v3.x event command lists.
//!
//! Every command — loops, branches and choices included — is read with the
//! same frame; nesting is expressed by the `indent` field, not by recursion.

use vstd::bytes::*;
use vstd::prelude::*;

use super::coder::{
    lemma_take_bytes_of_written, lemma_take_string_of_written, lemma_take_u32_of_written,
    lemma_take_u8_of_written, string_bytes, string_writable, take_bytes, take_string, take_u32,
    take_u8, ByteReader, ByteWriter,
};
use super::V3FormatError;
use crate::wolf::encoding::{encoded_text, text_round_trips};

verus! {

/// `CommandType::Message` — `ShowMessage`, text in `string_args[0]`.
pub const CID_MESSAGE: u32 = 101;

/// `CommandType::Choices` — `ShowChoice`, choice texts in `string_args`.
pub const CID_CHOICES: u32 = 102;

pub const TERMINATOR_NORMAL: u8 = 0x00;

pub const TERMINATOR_MOVE: u8 = 0x01;

// ---------------------------------------------------------------------------
// Wire model
// ---------------------------------------------------------------------------

/// A sequence of `n` little-endian `u32`s.
pub open spec fn take_u32s(s: Seq<u8>, n: nat) -> Option<(Seq<u32>, Seq<u8>)>
    decreases n,
{
    if n == 0 {
        Some((Seq::empty(), s))
    } else {
        match take_u32s(s, (n - 1) as nat) {
            None => None,
            Some((vs, r)) => match take_u32(r) {
                None => None,
                Some((v, r2)) => Some((vs.push(v), r2)),
            },
        }
    }
}

pub open spec fn u32s_bytes(vs: Seq<u32>) -> Seq<u8>
    decreases vs.len(),
{
    if vs.len() == 0 {
        Seq::empty()
    } else {
        u32s_bytes(vs.drop_last()) + spec_u32_to_le_bytes(vs.last())
    }
}

/// A sequence of `n` strings.
pub open spec fn take_strings(s: Seq<u8>, n: nat, is_utf8: bool) -> Option<(Seq<Seq<char>>, Seq<u8>)>
    decreases n,
{
    if n == 0 {
        Some((Seq::empty(), s))
    } else {
        match take_strings(s, (n - 1) as nat, is_utf8) {
            None => None,
            Some((vs, r)) => match take_string(r, is_utf8) {
                None => None,
                Some((v, r2)) => Some((vs.push(v), r2)),
            },
        }
    }
}

/// The bytes of a sequence of strings, or `None` when one cannot be encoded.
pub open spec fn strings_bytes(ss: Seq<Seq<char>>, is_utf8: bool) -> Option<Seq<u8>>
    decreases ss.len(),
{
    if ss.len() == 0 {
        Some(Seq::empty())
    } else {
        match (strings_bytes(ss.drop_last(), is_utf8), string_bytes(ss.last(), is_utf8)) {
            (Some(a), Some(b)) => Some(a + b),
            _ => None,
        }
    }
}

/// A count written as one byte: the low 8 bits of `n`.
pub open spec fn count_u8(n: int) -> u8 {
    (n % 256) as u8
}

/// A count written as a `u32`: the low 32 bits of `n`.
pub open spec fn count_u32(n: int) -> u32 {
    (n % 0x1_0000_0000) as u32
}

/// One step of a movement route.
pub struct RouteCommandModel {
    pub id: u8,
    pub args: Seq<u32>,
}

pub open spec fn take_route_command(s: Seq<u8>) -> Option<(RouteCommandModel, Seq<u8>)> {
    match take_u8(s) {
        None => None,
        Some((id, r1)) => match take_u8(r1) {
            None => None,
            Some((n, r2)) => match take_u32s(r2, n as nat) {
                None => None,
                Some((args, r3)) => match take_u8(r3) {
                    None => None,
                    Some((m0, r4)) => match take_u8(r4) {
                        None => None,
                        Some((m1, r5)) => if m0 == 0x01 && m1 == 0x00 {
                            Some((RouteCommandModel { id, args }, r5))
                        } else {
                            None
                        },
                    },
                },
            },
        },
    }
}

pub open spec fn route_command_bytes(rc: RouteCommandModel) -> Seq<u8> {
    seq![rc.id, count_u8(rc.args.len() as int)] + u32s_bytes(rc.args) + seq![0x01u8, 0x00u8]
}

pub open spec fn take_route(s: Seq<u8>, n: nat) -> Option<(Seq<RouteCommandModel>, Seq<u8>)>
    decreases n,
{
    if n == 0 {
        Some((Seq::empty(), s))
    } else {
        match take_route(s, (n - 1) as nat) {
            None => None,
            Some((vs, r)) => match take_route_command(r) {
                None => None,
                Some((v, r2)) => Some((vs.push(v), r2)),
            },
        }
    }
}

pub open spec fn route_bytes(rs: Seq<RouteCommandModel>) -> Seq<u8>
    decreases rs.len(),
{
    if rs.len() == 0 {
        Seq::empty()
    } else {
        route_bytes(rs.drop_last()) + route_command_bytes(rs.last())
    }
}

/// Extra data of a `CommandType::Move` command.
pub struct MoveDataModel {
    pub unknown: Seq<u8>,
    pub flags: u8,
    pub route: Seq<RouteCommandModel>,
}

pub open spec fn take_move_data(s: Seq<u8>) -> Option<(MoveDataModel, Seq<u8>)> {
    match take_bytes(s, 5) {
        None => None,
        Some((unknown, r1)) => match take_u8(r1) {
            None => None,
            Some((flags, r2)) => match take_u32(r2) {
                None => None,
                Some((n, r3)) => match take_route(r3, n as nat) {
                    None => None,
                    Some((route, r4)) => Some((MoveDataModel { unknown, flags, route }, r4)),
                },
            },
        },
    }
}

pub open spec fn move_data_bytes(m: MoveDataModel) -> Seq<u8> {
    m.unknown + seq![m.flags] + spec_u32_to_le_bytes(count_u32(m.route.len() as int)) + route_bytes(
        m.route,
    )
}

/// One event command.
pub struct CommandModel {
    pub cid: u32,
    pub args: Seq<u32>,
    pub indent: u8,
    pub string_args: Seq<Seq<char>>,
    pub move_data: Option<MoveDataModel>,
    pub v35_unknown: Seq<u8>,
}

/// What follows a command's terminator byte.
pub open spec fn take_command_trailer(s: Seq<u8>, terminator: u8) -> Option<(Option<MoveDataModel>, Seq<u8>)> {
    if terminator == TERMINATOR_NORMAL {
        Some((None, s))
    } else if terminator == TERMINATOR_MOVE {
        match take_move_data(s) {
            None => None,
            Some((m, r)) => Some((Some(m), r)),
        }
    } else {
        None
    }
}

/// The v3.5+ opaque trailer: a size byte and that many bytes; empty before v3.5.
pub open spec fn take_v35(s: Seq<u8>, v35: bool) -> Option<(Seq<u8>, Seq<u8>)> {
    if v35 {
        match take_u8(s) {
            None => None,
            Some((n, r)) => take_bytes(r, n as int),
        }
    } else {
        Some((Seq::empty(), s))
    }
}

/// A command's fixed head: args-count byte (never 0), command id, arguments,
/// indent.
pub open spec fn take_command_head(s: Seq<u8>) -> Option<((u32, Seq<u32>, u8), Seq<u8>)> {
    match take_u8(s) {
        None => None,
        Some((ac, r1)) => if ac == 0 {
            None
        } else {
            match take_u32(r1) {
                None => None,
                Some((cid, r2)) => match take_u32s(r2, (ac - 1) as nat) {
                    None => None,
                    Some((args, r3)) => match take_u8(r3) {
                        None => None,
                        Some((indent, r4)) => Some(((cid, args, indent), r4)),
                    },
                },
            }
        },
    }
}

/// A command's tail: string arguments, terminator, move data, v3.5 trailer.
pub open spec fn take_command_tail(s: Seq<u8>, is_utf8: bool, v35: bool) -> Option<
    ((Seq<Seq<char>>, Option<MoveDataModel>, Seq<u8>), Seq<u8>),
> {
    match take_u8(s) {
        None => None,
        Some((sc, r5)) => match take_strings(r5, sc as nat, is_utf8) {
            None => None,
            Some((string_args, r6)) => match take_u8(r6) {
                None => None,
                Some((t, r7)) => match take_command_trailer(r7, t) {
                    None => None,
                    Some((move_data, r8)) => match take_v35(r8, v35) {
                        None => None,
                        Some((v35_unknown, r9)) => Some(((string_args, move_data, v35_unknown), r9)),
                    },
                },
            },
        },
    }
}

/// The fault of a command frame at offset `at` that a read reports by
/// name: an args-count byte of 0, or a terminator byte other than 0 or 1
/// after the strings, with its offset.
pub open spec fn command_fault(s: Seq<u8>, at: int, is_utf8: bool) -> Option<V3FormatError> {
    if s.len() >= 1 && s[0] == 0 {
        Some(V3FormatError::InvalidArgsCount { offset: at as usize, found: 0 })
    } else {
        match take_command_head(s) {
            Some((_, r)) => match take_u8(r) {
                Some((sc, r5)) => match take_strings(r5, sc as nat, is_utf8) {
                    Some((_, r6)) => if r6.len() >= 1 && r6[0] != TERMINATOR_NORMAL && r6[0] != TERMINATOR_MOVE {
                        Some(
                            V3FormatError::InvalidTerminator {
                                offset: (at + s.len() - r6.len()) as usize,
                                found: r6[0],
                            },
                        )
                    } else {
                        None
                    },
                    None => None,
                },
                None => None,
            },
            None => None,
        }
    }
}

pub open spec fn take_command(s: Seq<u8>, is_utf8: bool, v35: bool) -> Option<(CommandModel, Seq<u8>)> {
    match take_command_head(s) {
        None => None,
        Some(((cid, args, indent), r)) => match take_command_tail(r, is_utf8, v35) {
            None => None,
            Some(((string_args, move_data, v35_unknown), r2)) => Some(
                (CommandModel { cid, args, indent, string_args, move_data, v35_unknown }, r2),
            ),
        },
    }
}

pub open spec fn command_trailer_bytes(m: Option<MoveDataModel>) -> Seq<u8> {
    match m {
        None => seq![TERMINATOR_NORMAL],
        Some(md) => seq![TERMINATOR_MOVE] + move_data_bytes(md),
    }
}

pub open spec fn v35_bytes(u: Seq<u8>, v35: bool) -> Seq<u8> {
    if v35 {
        seq![count_u8(u.len() as int)] + u
    } else {
        Seq::empty()
    }
}

/// The bytes written for a command, or `None` when one of its strings
/// cannot be encoded.
pub open spec fn command_bytes(c: CommandModel, is_utf8: bool, v35: bool) -> Option<Seq<u8>> {
    match strings_bytes(c.string_args, is_utf8) {
        None => None,
        Some(sb) => Some(
            seq![count_u8(c.args.len() + 1int)] + spec_u32_to_le_bytes(c.cid) + u32s_bytes(c.args)
                + seq![c.indent, count_u8(c.string_args.len() as int)] + sb
                + command_trailer_bytes(c.move_data) + v35_bytes(c.v35_unknown, v35),
        ),
    }
}

// ---------------------------------------------------------------------------
// Exec types
// ---------------------------------------------------------------------------

/// One step of a movement route (a `Move` command's route, or a page's
/// "not running" route).
#[derive(Debug, Clone, PartialEq)]
pub struct RouteCommand {
    pub id: u8,
    pub args: Vec<u32>,
}

impl View for RouteCommand {
    type V = RouteCommandModel;

    open spec fn view(&self) -> RouteCommandModel {
        RouteCommandModel { id: self.id, args: self.args@ }
    }
}

/// Extra data embedded after a `Move` command (terminator `0x01`).
#[derive(Debug, Clone, PartialEq)]
pub struct MoveData {
    pub unknown: [u8; 5],
    pub flags: u8,
    pub route: Vec<RouteCommand>,
}

pub open spec fn route_view(route: Seq<RouteCommand>) -> Seq<RouteCommandModel> {
    route.map_values(|r: RouteCommand| r@)
}

impl View for MoveData {
    type V = MoveDataModel;

    open spec fn view(&self) -> MoveDataModel {
        MoveDataModel { unknown: self.unknown@, flags: self.flags, route: route_view(self.route@) }
    }
}

pub open spec fn strings_view(ss: Seq<String>) -> Seq<Seq<char>> {
    ss.map_values(|s: String| s@)
}

/// One event command in the generic flat layout.
#[derive(Debug, Clone, PartialEq)]
pub struct Command {
    pub cid: u32,
    pub args: Vec<u32>,
    pub indent: u8,
    pub string_args: Vec<String>,
    /// `Some` only for `Move` commands (terminator `0x01`).
    pub move_data: Option<MoveData>,
    /// Opaque v3.5+ trailer, preserved byte for byte; empty before v3.5.
    pub v35_unknown: Vec<u8>,
}

impl View for Command {
    type V = CommandModel;

    open spec fn view(&self) -> CommandModel {
        CommandModel {
            cid: self.cid,
            args: self.args@,
            indent: self.indent,
            string_args: strings_view(self.string_args@),
            move_data: match self.move_data {
                Some(m) => Some(m@),
                None => None,
            },
            v35_unknown: self.v35_unknown@,
        }
    }
}

// ---------------------------------------------------------------------------
// Exec readers and writers for sequences
// ---------------------------------------------------------------------------

pub fn read_u32s(reader: &mut ByteReader, n: usize) -> (res: Result<Vec<u32>, V3FormatError>)
    requires
        old(reader).wf(),
    ensures
        final(reader).wf(),
        final(reader).input() == old(reader).input(),
        match take_u32s(old(reader).rest(), n as nat) {
            Some((vs, r)) => res matches Ok(v) && v@ == vs && final(reader).rest() == r,
            None => res is Err,
        },
{
    let mut out: Vec<u32> = Vec::new();
    let mut i: usize = 0;
    while i < n
        invariant
            reader.wf(),
            reader.input() == old(reader).input(),
            i <= n,
            take_u32s(old(reader).rest(), i as nat) == Some((out@, reader.rest())),
        decreases n - i,
    {
        let v = reader.read_u32_le();
        match v {
            Ok(v) => {
                out.push(v);
            },
            Err(e) => {
                proof {
                    lemma_take_u32s_none_extends(old(reader).rest(), (i + 1) as nat, n as nat);
                }
                return Err(e);
            },
        }
        i = i + 1;
    }
    Ok(out)
}

proof fn lemma_take_u32s_none_extends(s: Seq<u8>, i: nat, n: nat)
    requires
        i <= n,
        take_u32s(s, i) is None,
    ensures
        take_u32s(s, n) is None,
    decreases n - i,
{
    if i < n {
        lemma_take_u32s_none_extends(s, i, (n - 1) as nat);
    }
}

pub fn read_strings(reader: &mut ByteReader, n: usize, is_utf8: bool) -> (res: Result<Vec<String>, V3FormatError>)
    requires
        old(reader).wf(),
    ensures
        final(reader).wf(),
        final(reader).input() == old(reader).input(),
        match take_strings(old(reader).rest(), n as nat, is_utf8) {
            Some((vs, r)) => res matches Ok(v) && strings_view(v@) == vs && final(reader).rest() == r,
            None => res is Err,
        },
{
    let mut out: Vec<String> = Vec::new();
    let mut i: usize = 0;
    while i < n
        invariant
            reader.wf(),
            reader.input() == old(reader).input(),
            i <= n,
            take_strings(old(reader).rest(), i as nat, is_utf8) == Some((strings_view(out@), reader.rest())),
        decreases n - i,
    {
        match reader.read_string(is_utf8) {
            Ok(s) => {
                let ghost before = out@;
                out.push(s);
                assert(strings_view(out@) =~= strings_view(before).push(s@));
            },
            Err(e) => {
                proof {
                    lemma_take_strings_none_extends(old(reader).rest(), (i + 1) as nat, n as nat, is_utf8);
                }
                return Err(e);
            },
        }
        i = i + 1;
    }
    Ok(out)
}

proof fn lemma_take_strings_none_extends(s: Seq<u8>, i: nat, n: nat, is_utf8: bool)
    requires
        i <= n,
        take_strings(s, i, is_utf8) is None,
    ensures
        take_strings(s, n, is_utf8) is None,
    decreases n - i,
{
    if i < n {
        lemma_take_strings_none_extends(s, i, (n - 1) as nat, is_utf8);
    }
}

pub fn read_route(reader: &mut ByteReader, n: usize) -> (res: Result<Vec<RouteCommand>, V3FormatError>)
    requires
        old(reader).wf(),
    ensures
        final(reader).wf(),
        final(reader).input() == old(reader).input(),
        match take_route(old(reader).rest(), n as nat) {
            Some((vs, r)) => res matches Ok(v) && route_view(v@) == vs && final(reader).rest() == r,
            None => res is Err,
        },
{
    let mut out: Vec<RouteCommand> = Vec::new();
    let mut i: usize = 0;
    while i < n
        invariant
            reader.wf(),
            reader.input() == old(reader).input(),
            i <= n,
            take_route(old(reader).rest(), i as nat) == Some((route_view(out@), reader.rest())),
        decreases n - i,
    {
        match RouteCommand::parse(reader) {
            Ok(rc) => {
                let ghost before = out@;
                out.push(rc);
                assert(route_view(out@) =~= route_view(before).push(rc@));
            },
            Err(e) => {
                proof {
                    lemma_take_route_none_extends(old(reader).rest(), (i + 1) as nat, n as nat);
                }
                return Err(e);
            },
        }
        i = i + 1;
    }
    Ok(out)
}

proof fn lemma_take_route_none_extends(s: Seq<u8>, i: nat, n: nat)
    requires
        i <= n,
        take_route(s, i) is None,
    ensures
        take_route(s, n) is None,
    decreases n - i,
{
    if i < n {
        lemma_take_route_none_extends(s, i, (n - 1) as nat);
    }
}

pub fn write_u32s(writer: &mut ByteWriter, vs: &Vec<u32>)
    ensures
        final(writer).written() == old(writer).written() + u32s_bytes(vs@),
{
    let mut i: usize = 0;
    while i < vs.len()
        invariant
            i <= vs.len(),
            writer.written() == old(writer).written() + u32s_bytes(vs@.take(i as int)),
        decreases vs.len() - i,
    {
        writer.write_u32_le(vs[i]);
        assert(vs@.take(i + 1).drop_last() =~= vs@.take(i as int));
        assert(writer.written() =~= old(writer).written() + u32s_bytes(vs@.take(i + 1)));
        i = i + 1;
    }
    assert(vs@.take(vs.len() as int) =~= vs@);
}

pub fn write_strings(writer: &mut ByteWriter, ss: &Vec<String>, is_utf8: bool) -> (res: Result<(), V3FormatError>)
    ensures
        match strings_bytes(strings_view(ss@), is_utf8) {
            Some(b) => res is Ok && final(writer).written() == old(writer).written() + b,
            None => res is Err,
        },
{
    let mut i: usize = 0;
    while i < ss.len()
        invariant
            i <= ss.len(),
            strings_bytes(strings_view(ss@.take(i as int)), is_utf8) matches Some(b)
                && writer.written() == old(writer).written() + b,
        decreases ss.len() - i,
    {
        let ghost prev = writer.written();
        let r = writer.write_string(ss[i].as_str(), is_utf8);
        assert(strings_view(ss@.take(i + 1)).drop_last() =~= strings_view(ss@.take(i as int)));
        assert(strings_view(ss@.take(i + 1)).last() == ss@[i as int]@);
        if let Err(e) = r {
            proof {
                lemma_strings_bytes_none_extends(strings_view(ss@), (i + 1) as int, ss.len() as int, is_utf8);
                assert(strings_view(ss@).take(ss.len() as int) =~= strings_view(ss@));
                assert(strings_view(ss@).take(i + 1) =~= strings_view(ss@.take(i + 1)));
            }
            return Err(e);
        }
        i = i + 1;
    }
    assert(ss@.take(ss.len() as int) =~= ss@);
    Ok(())
}

proof fn lemma_strings_bytes_none_extends(ss: Seq<Seq<char>>, i: int, n: int, is_utf8: bool)
    requires
        0 <= i <= n <= ss.len(),
        strings_bytes(ss.take(i), is_utf8) is None,
    ensures
        strings_bytes(ss.take(n), is_utf8) is None,
    decreases n - i,
{
    if i < n {
        lemma_strings_bytes_none_extends(ss, i, n - 1, is_utf8);
        assert(ss.take(n).drop_last() =~= ss.take(n - 1));
    }
}

pub fn write_route(writer: &mut ByteWriter, rs: &Vec<RouteCommand>)
    ensures
        final(writer).written() == old(writer).written() + route_bytes(route_view(rs@)),
{
    let mut i: usize = 0;
    while i < rs.len()
        invariant
            i <= rs.len(),
            writer.written() == old(writer).written() + route_bytes(route_view(rs@.take(i as int))),
        decreases rs.len() - i,
    {
        rs[i].dump(writer);
        assert(route_view(rs@.take(i + 1)).drop_last() =~= route_view(rs@.take(i as int)));
        assert(writer.written() =~= old(writer).written() + route_bytes(route_view(rs@.take(i + 1))));
        i = i + 1;
    }
    assert(rs@.take(rs.len() as int) =~= rs@);
}

pub fn len_as_u8(n: usize) -> (b: u8)
    ensures
        b == count_u8(n as int),
{
    (n % 256) as u8
}

pub fn len_as_u32(n: usize) -> (b: u32)
    ensures
        b == count_u32(n as int),
{
    (n as u64 % 0x1_0000_0000) as u32
}

impl RouteCommand {
    pub fn parse(reader: &mut ByteReader) -> (res: Result<Self, V3FormatError>)
        requires
            old(reader).wf(),
        ensures
            final(reader).wf(),
            final(reader).input() == old(reader).input(),
            match take_route_command(old(reader).rest()) {
                Some((rc, r)) => res matches Ok(v) && v@ == rc && final(reader).rest() == r,
                None => res is Err,
            },
    {
        let id = reader.read_u8()?;
        let arg_count = reader.read_u8()?;
        let args = read_u32s(reader, arg_count as usize)?;
        let magic_offset = reader.position();
        let m0 = reader.read_u8()?;
        let m1 = reader.read_u8()?;
        if m0 != 0x01 || m1 != 0x00 {
            return Err(V3FormatError::InvalidRouteMagic {
                offset: magic_offset,
                expected: [0x01, 0x00],
                found: [m0, m1],
            });
        }
        Ok(RouteCommand { id, args })
    }

    pub fn dump(&self, writer: &mut ByteWriter)
        ensures
            final(writer).written() == old(writer).written() + route_command_bytes(self@),
    {
        writer.write_u8(self.id);
        writer.write_u8(len_as_u8(self.args.len()));
        write_u32s(writer, &self.args);
        writer.write_u8(0x01);
        writer.write_u8(0x00);
        assert(writer.written() =~= old(writer).written() + route_command_bytes(self@));
    }
}

pub fn len_plus_one_as_u8(n: usize) -> (b: u8)
    ensures
        b == count_u8(n + 1int),
{
    let lo = (n % 256) as u8;
    if lo == 255 {
        0
    } else {
        lo + 1
    }
}

impl MoveData {
    pub fn parse(reader: &mut ByteReader) -> (res: Result<Self, V3FormatError>)
        requires
            old(reader).wf(),
        ensures
            final(reader).wf(),
            final(reader).input() == old(reader).input(),
            match take_move_data(old(reader).rest()) {
                Some((m, r)) => res matches Ok(v) && v@ == m && final(reader).rest() == r,
                None => res is Err,
            },
    {
        broadcast use vstd::array::lemma_array_index;

        let b = reader.read_bytes(5)?;
        let unknown: [u8; 5] = [b[0], b[1], b[2], b[3], b[4]];
        assert(unknown@ =~= b@);
        let flags = reader.read_u8()?;
        let route_count = reader.read_u32_le()?;
        let route = read_route(reader, route_count as usize)?;
        Ok(MoveData { unknown, flags, route })
    }

    pub fn dump(&self, writer: &mut ByteWriter)
        ensures
            final(writer).written() == old(writer).written() + move_data_bytes(self@),
    {
        writer.write_bytes(self.unknown.as_slice());
        writer.write_u8(self.flags);
        writer.write_u32_le(len_as_u32(self.route.len()));
        write_route(writer, &self.route);
        assert(writer.written() =~= old(writer).written() + move_data_bytes(self@));
    }
}

impl Command {
    /// Parses one command frame. `is_utf8` selects the string encoding;
    /// `v35` selects whether the v3.5+ trailer follows.
    pub fn parse(reader: &mut ByteReader, is_utf8: bool, v35: bool) -> (res: Result<Self, V3FormatError>)
        requires
            old(reader).wf(),
        ensures
            final(reader).wf(),
            final(reader).input() == old(reader).input(),
            match take_command(old(reader).rest(), is_utf8, v35) {
                Some((c, r)) => res matches Ok(v) && v@ == c && final(reader).rest() == r,
                None => res is Err,
            },
            command_fault(old(reader).rest(), old(reader).offset(), is_utf8) matches Some(e) ==> res == Err::<
                Self,
                V3FormatError,
            >(e),
    {
        let args_count_offset = reader.position();
        let ac = reader.read_u8()?;
        if ac == 0 {
            return Err(V3FormatError::InvalidArgsCount { offset: args_count_offset, found: ac });
        }
        let cid = reader.read_u32_le()?;
        let args = read_u32s(reader, (ac - 1) as usize)?;
        let indent = reader.read_u8()?;
        let sc = reader.read_u8()?;
        let string_args = read_strings(reader, sc as usize, is_utf8)?;
        let terminator_offset = reader.position();
        let t = reader.read_u8()?;
        let move_data = if t == TERMINATOR_NORMAL {
            None
        } else if t == TERMINATOR_MOVE {
            Some(MoveData::parse(reader)?)
        } else {
            return Err(V3FormatError::InvalidTerminator { offset: terminator_offset, found: t });
        };
        let v35_unknown = if v35 {
            let size = reader.read_u8()?;
            let b = reader.read_bytes(size as usize)?;
            vstd::slice::slice_to_vec(b)
        } else {
            Vec::new()
        };
        Ok(Command { cid, args, indent, string_args, move_data, v35_unknown })
    }

    /// Writes this command frame — the inverse of `Command::parse`.
    #[verifier::spinoff_prover]
    #[verifier::rlimit(40)]
    pub fn dump(&self, writer: &mut ByteWriter, is_utf8: bool, v35: bool) -> (res: Result<(), V3FormatError>)
        ensures
            match command_bytes(self@, is_utf8, v35) {
                Some(b) => res is Ok && final(writer).written() == old(writer).written() + b,
                None => res is Err,
            },
    {
        writer.write_u8(len_plus_one_as_u8(self.args.len()));
        writer.write_u32_le(self.cid);
        write_u32s(writer, &self.args);
        writer.write_u8(self.indent);
        writer.write_u8(len_as_u8(self.string_args.len()));
        let ghost head = seq![count_u8(self@.args.len() + 1int)] + spec_u32_to_le_bytes(self.cid)
            + u32s_bytes(self@.args) + seq![self.indent, count_u8(self@.string_args.len() as int)];
        assert(writer.written() =~= old(writer).written() + head);
        let ghost before_strings = writer.written();
        write_strings(writer, &self.string_args, is_utf8)?;
        let ghost after_strings = writer.written();
        match &self.move_data {
            None => writer.write_u8(TERMINATOR_NORMAL),
            Some(m) => {
                writer.write_u8(TERMINATOR_MOVE);
                m.dump(writer);
            },
        }
        assert(writer.written() =~= after_strings + command_trailer_bytes(self@.move_data));
        let ghost after_trailer = writer.written();
        if v35 {
            writer.write_u8(len_as_u8(self.v35_unknown.len()));
            writer.write_bytes(self.v35_unknown.as_slice());
        }
        assert(writer.written() =~= after_trailer + v35_bytes(self@.v35_unknown, v35));
        proof {
            let sb = strings_bytes(self@.string_args, is_utf8)->0;
            assert(after_strings == before_strings + sb);
            assert(writer.written() =~= old(writer).written() + (head + sb + command_trailer_bytes(
                self@.move_data,
            ) + v35_bytes(self@.v35_unknown, v35)));
        }
        Ok(())
    }
}

// ---------------------------------------------------------------------------
// Command lists
// ---------------------------------------------------------------------------

/// A sequence of `n` commands.
pub open spec fn take_commands(s: Seq<u8>, n: nat, is_utf8: bool, v35: bool) -> Option<
    (Seq<CommandModel>, Seq<u8>),
>
    decreases n,
{
    if n == 0 {
        Some((Seq::empty(), s))
    } else {
        match take_commands(s, (n - 1) as nat, is_utf8, v35) {
            None => None,
            Some((vs, r)) => match take_command(r, is_utf8, v35) {
                None => None,
                Some((v, r2)) => Some((vs.push(v), r2)),
            },
        }
    }
}

/// The bytes of a command list, or `None` when a string cannot be encoded.
pub open spec fn commands_bytes(cs: Seq<CommandModel>, is_utf8: bool, v35: bool) -> Option<Seq<u8>>
    decreases cs.len(),
{
    if cs.len() == 0 {
        Some(Seq::empty())
    } else {
        match (commands_bytes(cs.drop_last(), is_utf8, v35), command_bytes(cs.last(), is_utf8, v35)) {
            (Some(a), Some(b)) => Some(a + b),
            _ => None,
        }
    }
}

pub open spec fn commands_view(cs: Seq<Command>) -> Seq<CommandModel> {
    cs.map_values(|c: Command| c@)
}

proof fn lemma_take_commands_none_extends(s: Seq<u8>, i: nat, n: nat, is_utf8: bool, v35: bool)
    requires
        i <= n,
        take_commands(s, i, is_utf8, v35) is None,
    ensures
        take_commands(s, n, is_utf8, v35) is None,
    decreases n - i,
{
    if i < n {
        lemma_take_commands_none_extends(s, i, (n - 1) as nat, is_utf8, v35);
    }
}

/// Reads `n` commands.
pub fn read_commands(reader: &mut ByteReader, n: usize, is_utf8: bool, v35: bool) -> (res: Result<
    Vec<Command>,
    V3FormatError,
>)
    requires
        old(reader).wf(),
    ensures
        final(reader).wf(),
        final(reader).input() == old(reader).input(),
        match take_commands(old(reader).rest(), n as nat, is_utf8, v35) {
            Some((vs, r)) => res matches Ok(v) && commands_view(v@) == vs && final(reader).rest() == r,
            None => res is Err,
        },
{
    let mut out: Vec<Command> = Vec::new();
    let mut i: usize = 0;
    while i < n
        invariant
            reader.wf(),
            reader.input() == old(reader).input(),
            i <= n,
            take_commands(old(reader).rest(), i as nat, is_utf8, v35) == Some(
                (commands_view(out@), reader.rest()),
            ),
        decreases n - i,
    {
        match Command::parse(reader, is_utf8, v35) {
            Ok(c) => {
                let ghost before = out@;
                out.push(c);
                assert(commands_view(out@) =~= commands_view(before).push(c@));
            },
            Err(e) => {
                proof {
                    lemma_take_commands_none_extends(old(reader).rest(), (i + 1) as nat, n as nat, is_utf8, v35);
                }
                return Err(e);
            },
        }
        i = i + 1;
    }
    Ok(out)
}

proof fn lemma_commands_bytes_none_extends(cs: Seq<CommandModel>, i: int, n: int, is_utf8: bool, v35: bool)
    requires
        0 <= i <= n <= cs.len(),
        commands_bytes(cs.take(i), is_utf8, v35) is None,
    ensures
        commands_bytes(cs.take(n), is_utf8, v35) is None,
    decreases n - i,
{
    if i < n {
        lemma_commands_bytes_none_extends(cs, i, n - 1, is_utf8, v35);
        assert(cs.take(n).drop_last() =~= cs.take(n - 1));
    }
}

/// Writes a command list; fails when a string cannot be encoded.
pub fn write_commands(writer: &mut ByteWriter, cs: &Vec<Command>, is_utf8: bool, v35: bool) -> (res:
    Result<(), V3FormatError>)
    ensures
        match commands_bytes(commands_view(cs@), is_utf8, v35) {
            Some(b) => res is Ok && final(writer).written() == old(writer).written() + b,
            None => res is Err,
        },
{
    let ghost cv = commands_view(cs@);
    let mut i: usize = 0;
    assert(cv.take(0) =~= Seq::<CommandModel>::empty());
    while i < cs.len()
        invariant
            cv == commands_view(cs@),
            i <= cs.len(),
            commands_bytes(cv.take(i as int), is_utf8, v35) is Some,
            writer.written() == old(writer).written() + commands_bytes(cv.take(i as int), is_utf8, v35)->0,
        decreases cs.len() - i,
    {
        let ghost before = writer.written();
        assert(cv.take(i + 1).drop_last() =~= cv.take(i as int));
        assert(cv.take(i + 1).last() == cs@[i as int]@);
        match cs[i].dump(writer, is_utf8, v35) {
            Ok(()) => {},
            Err(e) => {
                proof {
                    lemma_commands_bytes_none_extends(cv, i + 1, cs.len() as int, is_utf8, v35);
                    assert(cv.take(cs.len() as int) =~= cv);
                }
                return Err(e);
            },
        }
        assert(writer.written() =~= old(writer).written() + commands_bytes(cv.take(i + 1), is_utf8, v35)->0);
        i = i + 1;
    }
    assert(cv.take(cs.len() as int) =~= cv);
    Ok(())
}

} // verus!

verus! {

// ---------------------------------------------------------------------------
// Round trip: reading a written command gives back the command
// ---------------------------------------------------------------------------

pub open spec fn route_command_wf(rc: RouteCommandModel) -> bool {
    rc.args.len() < 256
}

pub open spec fn move_data_wf(m: MoveDataModel) -> bool {
    &&& m.unknown.len() == 5
    &&& m.route.len() < 0x1_0000_0000
    &&& forall|i: int| 0 <= i < m.route.len() ==> route_command_wf(#[trigger] m.route[i])
}

/// A command whose every count fits the byte or word it is written in, whose
/// strings can be written and read back, and whose v3.5 trailer matches the
/// file's mode.
pub open spec fn command_wf(c: CommandModel, is_utf8: bool, v35: bool) -> bool {
    &&& c.args.len() + 1 < 256
    &&& c.string_args.len() < 256
    &&& forall|i: int| 0 <= i < c.string_args.len() ==> string_writable(#[trigger] c.string_args[i], is_utf8)
    &&& (c.move_data matches Some(m) ==> move_data_wf(m))
    &&& if v35 {
        c.v35_unknown.len() < 256
    } else {
        c.v35_unknown.len() == 0
    }
}

pub proof fn lemma_u32s_round_trip(vs: Seq<u32>, rest: Seq<u8>)
    ensures
        take_u32s(u32s_bytes(vs) + rest, vs.len()) == Some((vs, rest)),
    decreases vs.len(),
{
    if vs.len() > 0 {
        let dl = vs.drop_last();
        let tail = spec_u32_to_le_bytes(vs.last()) + rest;
        assert(u32s_bytes(vs) + rest =~= u32s_bytes(dl) + tail);
        lemma_u32s_round_trip(dl, tail);
        lemma_take_u32_of_written(vs.last(), rest);
        assert(dl.push(vs.last()) =~= vs);
    } else {
        assert(u32s_bytes(vs) + rest =~= rest);
        assert(vs =~= Seq::<u32>::empty());
    }
}

pub proof fn lemma_strings_round_trip(ss: Seq<Seq<char>>, is_utf8: bool, rest: Seq<u8>)
    requires
        forall|i: int| 0 <= i < ss.len() ==> string_writable(#[trigger] ss[i], is_utf8),
    ensures
        strings_bytes(ss, is_utf8) is Some,
        take_strings(strings_bytes(ss, is_utf8)->0 + rest, ss.len(), is_utf8) == Some((ss, rest)),
    decreases ss.len(),
{
    if ss.len() > 0 {
        let dl = ss.drop_last();
        assert forall|i: int| 0 <= i < dl.len() implies string_writable(#[trigger] dl[i], is_utf8) by {
            assert(dl[i] == ss[i]);
        }
        assert(string_writable(ss[ss.len() - 1], is_utf8));
        lemma_take_string_of_written(ss.last(), is_utf8, rest);
        let tail = string_bytes(ss.last(), is_utf8)->0 + rest;
        lemma_strings_round_trip(dl, is_utf8, tail);
        assert(strings_bytes(ss, is_utf8)->0 + rest =~= strings_bytes(dl, is_utf8)->0 + tail);
        assert(dl.push(ss.last()) =~= ss);
    } else {
        assert(Seq::<u8>::empty() + rest =~= rest);
        assert(ss =~= Seq::<Seq<char>>::empty());
    }
}

pub proof fn lemma_route_command_round_trip(rc: RouteCommandModel, rest: Seq<u8>)
    requires
        route_command_wf(rc),
    ensures
        take_route_command(route_command_bytes(rc) + rest) == Some((rc, rest)),
{
    let n = count_u8(rc.args.len() as int);
    assert(n == rc.args.len());
    let t3 = seq![0x01u8, 0x00u8] + rest;
    let t2 = u32s_bytes(rc.args) + t3;
    let t1 = seq![n] + t2;
    assert(route_command_bytes(rc) + rest =~= seq![rc.id] + t1);
    lemma_take_u8_of_written(rc.id, t1);
    lemma_take_u8_of_written(n, t2);
    lemma_u32s_round_trip(rc.args, t3);
    assert(t3 =~= seq![0x01u8] + (seq![0x00u8] + rest));
    lemma_take_u8_of_written(0x01u8, seq![0x00u8] + rest);
    lemma_take_u8_of_written(0x00u8, rest);
}

pub proof fn lemma_route_round_trip(rs: Seq<RouteCommandModel>, rest: Seq<u8>)
    requires
        forall|i: int| 0 <= i < rs.len() ==> route_command_wf(#[trigger] rs[i]),
    ensures
        take_route(route_bytes(rs) + rest, rs.len()) == Some((rs, rest)),
    decreases rs.len(),
{
    if rs.len() > 0 {
        let dl = rs.drop_last();
        assert forall|i: int| 0 <= i < dl.len() implies route_command_wf(#[trigger] dl[i]) by {
            assert(dl[i] == rs[i]);
        }
        assert(route_command_wf(rs[rs.len() - 1]));
        let tail = route_command_bytes(rs.last()) + rest;
        assert(route_bytes(rs) + rest =~= route_bytes(dl) + tail);
        lemma_route_round_trip(dl, tail);
        lemma_route_command_round_trip(rs.last(), rest);
        assert(dl.push(rs.last()) =~= rs);
    } else {
        assert(route_bytes(rs) + rest =~= rest);
        assert(rs =~= Seq::<RouteCommandModel>::empty());
    }
}

pub proof fn lemma_move_data_round_trip(m: MoveDataModel, rest: Seq<u8>)
    requires
        move_data_wf(m),
    ensures
        take_move_data(move_data_bytes(m) + rest) == Some((m, rest)),
{
    let n = count_u32(m.route.len() as int);
    assert(n == m.route.len());
    let t3 = route_bytes(m.route) + rest;
    let t2 = spec_u32_to_le_bytes(n) + t3;
    let t1 = seq![m.flags] + t2;
    assert(move_data_bytes(m) + rest =~= m.unknown + t1);
    lemma_take_bytes_of_written(m.unknown, t1);
    lemma_take_u8_of_written(m.flags, t2);
    lemma_take_u32_of_written(n, t3);
    lemma_route_round_trip(m.route, rest);
}

/// Reading a written command gives back the command, for every well-formed
/// command and whatever follows it.
proof fn lemma_command_head_round_trip(c: CommandModel, tail: Seq<u8>)
    requires
        c.args.len() + 1 < 256,
    ensures
        take_command_head(
            seq![count_u8(c.args.len() + 1int)] + spec_u32_to_le_bytes(c.cid) + u32s_bytes(c.args)
                + seq![c.indent] + tail,
        ) == Some(((c.cid, c.args, c.indent), tail)),
{
    let ac = count_u8(c.args.len() + 1int);
    assert(ac == c.args.len() + 1);
    let t_indent = seq![c.indent] + tail;
    let t_args = u32s_bytes(c.args) + t_indent;
    let t_cid = spec_u32_to_le_bytes(c.cid) + t_args;
    assert(seq![ac] + spec_u32_to_le_bytes(c.cid) + u32s_bytes(c.args) + seq![c.indent] + tail
        =~= seq![ac] + t_cid);
    lemma_take_u8_of_written(ac, t_cid);
    lemma_take_u32_of_written(c.cid, t_args);
    lemma_u32s_round_trip(c.args, t_indent);
    lemma_take_u8_of_written(c.indent, tail);
}

proof fn lemma_trailer_round_trip(m: Option<MoveDataModel>, rest: Seq<u8>)
    requires
        m matches Some(md) ==> move_data_wf(md),
    ensures
        take_u8(command_trailer_bytes(m) + rest) matches Some((t, r)) && take_command_trailer(r, t)
            == Some((m, rest)),
{
    match m {
        None => {
            assert(command_trailer_bytes(m) + rest =~= seq![TERMINATOR_NORMAL] + rest);
            lemma_take_u8_of_written(TERMINATOR_NORMAL, rest);
        },
        Some(md) => {
            assert(command_trailer_bytes(m) + rest =~= seq![TERMINATOR_MOVE] + (move_data_bytes(md)
                + rest));
            lemma_take_u8_of_written(TERMINATOR_MOVE, move_data_bytes(md) + rest);
            lemma_move_data_round_trip(md, rest);
        },
    }
}

proof fn lemma_v35_round_trip(u: Seq<u8>, v35: bool, rest: Seq<u8>)
    requires
        if v35 {
            u.len() < 256
        } else {
            u.len() == 0
        },
    ensures
        take_v35(v35_bytes(u, v35) + rest, v35) == Some((u, rest)),
{
    if v35 {
        let n = count_u8(u.len() as int);
        assert(n == u.len());
        assert(v35_bytes(u, v35) + rest =~= seq![n] + (u + rest));
        lemma_take_u8_of_written(n, u + rest);
        lemma_take_bytes_of_written(u, rest);
    } else {
        assert(v35_bytes(u, v35) + rest =~= rest);
        assert(u =~= Seq::<u8>::empty());
    }
}

proof fn lemma_command_tail_round_trip(c: CommandModel, is_utf8: bool, v35: bool, rest: Seq<u8>)
    requires
        command_wf(c, is_utf8, v35),
    ensures
        strings_bytes(c.string_args, is_utf8) is Some,
        take_command_tail(
            seq![count_u8(c.string_args.len() as int)] + (strings_bytes(c.string_args, is_utf8)->0
                + (command_trailer_bytes(c.move_data) + (v35_bytes(c.v35_unknown, v35) + rest))),
            is_utf8,
            v35,
        ) == Some(((c.string_args, c.move_data, c.v35_unknown), rest)),
{
    lemma_strings_round_trip(c.string_args, is_utf8, Seq::empty());
    let sc = count_u8(c.string_args.len() as int);
    assert(sc == c.string_args.len());
    let t_v35 = v35_bytes(c.v35_unknown, v35) + rest;
    let t_trailer = command_trailer_bytes(c.move_data) + t_v35;
    let t_strings = strings_bytes(c.string_args, is_utf8)->0 + t_trailer;
    lemma_take_u8_of_written(sc, t_strings);
    lemma_strings_round_trip(c.string_args, is_utf8, t_trailer);
    lemma_trailer_round_trip(c.move_data, t_v35);
    lemma_v35_round_trip(c.v35_unknown, v35, rest);
}

proof fn lemma_command_bytes_split(c: CommandModel, is_utf8: bool, v35: bool, rest: Seq<u8>)
    requires
        strings_bytes(c.string_args, is_utf8) is Some,
    ensures
        command_bytes(c, is_utf8, v35)->0 + rest == seq![count_u8(c.args.len() + 1int)]
            + spec_u32_to_le_bytes(c.cid) + u32s_bytes(c.args) + seq![c.indent] + (seq![
            count_u8(c.string_args.len() as int)] + (strings_bytes(c.string_args, is_utf8)->0 + (
        command_trailer_bytes(c.move_data) + (v35_bytes(c.v35_unknown, v35) + rest)))),
{
    let sb = strings_bytes(c.string_args, is_utf8)->0;
    let tb = command_trailer_bytes(c.move_data);
    let vb = v35_bytes(c.v35_unknown, v35);
    let head = seq![count_u8(c.args.len() + 1int)] + spec_u32_to_le_bytes(c.cid) + u32s_bytes(c.args);
    let cb = command_bytes(c, is_utf8, v35)->0;
    assert(cb == head + seq![c.indent, count_u8(c.string_args.len() as int)] + sb + tb + vb);
    assert(cb + rest =~= head + seq![c.indent] + (seq![count_u8(c.string_args.len() as int)] + (sb
        + (tb + (vb + rest)))));
}

/// Reading a written command gives back the command, for every well-formed
/// command and whatever follows it.
pub proof fn lemma_command_round_trip(c: CommandModel, is_utf8: bool, v35: bool, rest: Seq<u8>)
    requires
        command_wf(c, is_utf8, v35),
    ensures
        command_bytes(c, is_utf8, v35) is Some,
        take_command(command_bytes(c, is_utf8, v35)->0 + rest, is_utf8, v35) == Some((c, rest)),
{
    lemma_command_tail_round_trip(c, is_utf8, v35, rest);
    let tail = seq![count_u8(c.string_args.len() as int)] + (strings_bytes(c.string_args, is_utf8)->0
        + (command_trailer_bytes(c.move_data) + (v35_bytes(c.v35_unknown, v35) + rest)));
    lemma_command_head_round_trip(c, tail);
    lemma_command_bytes_split(c, is_utf8, v35, rest);
}

/// Reading back a written command list gives the list.
pub proof fn lemma_commands_round_trip(cs: Seq<CommandModel>, is_utf8: bool, v35: bool, rest: Seq<u8>)
    requires
        forall|i: int| 0 <= i < cs.len() ==> command_wf(#[trigger] cs[i], is_utf8, v35),
    ensures
        commands_bytes(cs, is_utf8, v35) is Some,
        take_commands(commands_bytes(cs, is_utf8, v35)->0 + rest, cs.len(), is_utf8, v35) == Some((cs, rest)),
    decreases cs.len(),
{
    if cs.len() > 0 {
        let dl = cs.drop_last();
        assert forall|i: int| 0 <= i < dl.len() implies command_wf(#[trigger] dl[i], is_utf8, v35) by {
            assert(dl[i] == cs[i]);
        }
        assert(command_wf(cs[cs.len() - 1], is_utf8, v35));
        lemma_command_round_trip(cs.last(), is_utf8, v35, rest);
        let tail = command_bytes(cs.last(), is_utf8, v35)->0 + rest;
        lemma_commands_round_trip(dl, is_utf8, v35, tail);
        assert(commands_bytes(cs, is_utf8, v35)->0 + rest =~= commands_bytes(dl, is_utf8, v35)->0 + tail);
        assert(dl.push(cs.last()) =~= cs);
    } else {
        assert(Seq::<u8>::empty() + rest =~= rest);
        assert(cs =~= Seq::<CommandModel>::empty());
    }
}

// ---------------------------------------------------------------------------
// Every read consumes input
// ---------------------------------------------------------------------------

pub proof fn lemma_take_u32s_shrinks(s: Seq<u8>, n: nat)
    ensures
        take_u32s(s, n) matches Some((_, r)) ==> r.len() <= s.len(),
    decreases n,
{
    if n > 0 {
        lemma_take_u32s_shrinks(s, (n - 1) as nat);
    }
}

pub proof fn lemma_take_strings_shrinks(s: Seq<u8>, n: nat, is_utf8: bool)
    ensures
        take_strings(s, n, is_utf8) matches Some((_, r)) ==> r.len() <= s.len(),
    decreases n,
{
    if n > 0 {
        lemma_take_strings_shrinks(s, (n - 1) as nat, is_utf8);
    }
}

pub proof fn lemma_take_route_shrinks(s: Seq<u8>, n: nat)
    ensures
        take_route(s, n) matches Some((_, r)) ==> r.len() <= s.len(),
    decreases n,
{
    if n > 0 {
        lemma_take_route_shrinks(s, (n - 1) as nat);
        if let Some((_, r)) = take_route(s, (n - 1) as nat) {
            if let Some((_, r1)) = take_u8(r) {
                if let Some((cnt, r2)) = take_u8(r1) {
                    lemma_take_u32s_shrinks(r2, cnt as nat);
                }
            }
        }
    }
}

pub proof fn lemma_take_command_shrinks(s: Seq<u8>, is_utf8: bool, v35: bool)
    ensures
        take_command(s, is_utf8, v35) matches Some((_, r)) ==> r.len() < s.len(),
{
    if let Some((_, r)) = take_command_head(s) {
        if let Some((ac, r1)) = take_u8(s) {
            if let Some((_, r2)) = take_u32(r1) {
                lemma_take_u32s_shrinks(r2, (ac - 1) as nat);
            }
        }
        if let Some((sc, r5)) = take_u8(r) {
            lemma_take_strings_shrinks(r5, sc as nat, is_utf8);
            if let Some((_, r6)) = take_strings(r5, sc as nat, is_utf8) {
                if let Some((t, r7)) = take_u8(r6) {
                    if t == TERMINATOR_MOVE {
                        if let Some((_, m1)) = take_bytes(r7, 5) {
                            if let Some((_, m2)) = take_u8(m1) {
                                if let Some((cnt, m3)) = take_u32(m2) {
                                    lemma_take_route_shrinks(m3, cnt as nat);
                                }
                            }
                        }
                    }
                }
            }
        }
    }
}

pub proof fn lemma_take_commands_shrinks(s: Seq<u8>, n: nat, is_utf8: bool, v35: bool)
    ensures
        take_commands(s, n, is_utf8, v35) matches Some((_, r)) ==> r.len() <= s.len(),
    decreases n,
{
    if n > 0 {
        lemma_take_commands_shrinks(s, (n - 1) as nat, is_utf8, v35);
        if let Some((_, r)) = take_commands(s, (n - 1) as nat, is_utf8, v35) {
            lemma_take_command_shrinks(r, is_utf8, v35);
        }
    }
}

// ---------------------------------------------------------------------------
// What a read leaves is the end of its input
// ---------------------------------------------------------------------------

/// `r` is what is left of `s` after its first bytes.
pub open spec fn is_suffix(r: Seq<u8>, s: Seq<u8>) -> bool {
    r.len() <= s.len() && r == s.skip(s.len() - r.len())
}

pub proof fn lemma_suffix_trans(a: Seq<u8>, b: Seq<u8>, c: Seq<u8>)
    requires
        is_suffix(a, b),
        is_suffix(b, c),
    ensures
        is_suffix(a, c),
{
    assert(a =~= c.skip(c.len() - a.len()));
}

pub proof fn lemma_skip_suffix(s: Seq<u8>, k: int)
    requires
        0 <= k <= s.len(),
    ensures
        is_suffix(s.skip(k), s),
{
    assert(s.skip(k) =~= s.skip(s.len() - s.skip(k).len()));
}

pub proof fn lemma_suffix_refl(s: Seq<u8>)
    ensures
        is_suffix(s, s),
{
    assert(s =~= s.skip(0));
}

pub proof fn lemma_take_u8_suffix(s: Seq<u8>)
    ensures
        take_u8(s) matches Some((_, r)) ==> is_suffix(r, s),
{
    if s.len() >= 1 {
        lemma_skip_suffix(s, 1);
    }
}

pub proof fn lemma_take_u32_suffix(s: Seq<u8>)
    ensures
        take_u32(s) matches Some((_, r)) ==> is_suffix(r, s),
{
    if s.len() >= 4 {
        lemma_skip_suffix(s, 4);
    }
}

pub proof fn lemma_take_bytes_suffix(s: Seq<u8>, n: int)
    ensures
        take_bytes(s, n) matches Some((_, r)) ==> is_suffix(r, s),
{
    if 0 <= n <= s.len() {
        lemma_skip_suffix(s, n);
    }
}

pub proof fn lemma_take_string_suffix(s: Seq<u8>, is_utf8: bool)
    ensures
        take_string(s, is_utf8) matches Some((_, r)) ==> is_suffix(r, s),
{
    if let Some((_, r)) = take_string(s, is_utf8) {
        let (size, r1) = take_u32(s)->0;
        lemma_take_u32_suffix(s);
        lemma_take_bytes_suffix(r1, size as int);
        lemma_suffix_trans(r, r1, s);
    }
}

pub proof fn lemma_take_u32s_suffix(s: Seq<u8>, n: nat)
    ensures
        take_u32s(s, n) matches Some((_, r)) ==> is_suffix(r, s),
    decreases n,
{
    if n == 0 {
        lemma_suffix_refl(s);
    } else {
        lemma_take_u32s_suffix(s, (n - 1) as nat);
        if let Some((_, r0)) = take_u32s(s, (n - 1) as nat) {
            lemma_take_u32_suffix(r0);
            if let Some((_, r)) = take_u32(r0) {
                lemma_suffix_trans(r, r0, s);
            }
        }
    }
}

pub proof fn lemma_take_strings_suffix(s: Seq<u8>, n: nat, is_utf8: bool)
    ensures
        take_strings(s, n, is_utf8) matches Some((_, r)) ==> is_suffix(r, s),
    decreases n,
{
    if n == 0 {
        lemma_suffix_refl(s);
    } else {
        lemma_take_strings_suffix(s, (n - 1) as nat, is_utf8);
        if let Some((_, r0)) = take_strings(s, (n - 1) as nat, is_utf8) {
            lemma_take_string_suffix(r0, is_utf8);
            if let Some((_, r)) = take_string(r0, is_utf8) {
                lemma_suffix_trans(r, r0, s);
            }
        }
    }
}

pub proof fn lemma_take_route_suffix(s: Seq<u8>, n: nat)
    ensures
        take_route(s, n) matches Some((_, r)) ==> is_suffix(r, s),
    decreases n,
{
    if n == 0 {
        lemma_suffix_refl(s);
    } else {
        lemma_take_route_suffix(s, (n - 1) as nat);
        if let Some((_, r0)) = take_route(s, (n - 1) as nat) {
            if let Some((_, r)) = take_route_command(r0) {
                let (_, a1) = take_u8(r0)->0;
                let (cnt, a2) = take_u8(a1)->0;
                let (_, a3) = take_u32s(a2, cnt as nat)->0;
                let (_, a4) = take_u8(a3)->0;
                lemma_take_u8_suffix(r0);
                lemma_take_u8_suffix(a1);
                lemma_take_u32s_suffix(a2, cnt as nat);
                lemma_take_u8_suffix(a3);
                lemma_take_u8_suffix(a4);
                lemma_suffix_trans(a2, a1, r0);
                lemma_suffix_trans(a3, a2, r0);
                lemma_suffix_trans(a4, a3, r0);
                lemma_suffix_trans(r, a4, r0);
                lemma_suffix_trans(r, r0, s);
            }
        }
    }
}

pub proof fn lemma_take_move_data_suffix(s: Seq<u8>)
    ensures
        take_move_data(s) matches Some((_, r)) ==> is_suffix(r, s),
{
    if let Some((_, r)) = take_move_data(s) {
        let (_, r1) = take_bytes(s, 5)->0;
        let (_, r2) = take_u8(r1)->0;
        let (n, r3) = take_u32(r2)->0;
        lemma_take_bytes_suffix(s, 5);
        lemma_take_u8_suffix(r1);
        lemma_take_u32_suffix(r2);
        lemma_take_route_suffix(r3, n as nat);
        lemma_suffix_trans(r2, r1, s);
        lemma_suffix_trans(r3, r2, s);
        lemma_suffix_trans(r, r3, s);
    }
}

pub proof fn lemma_take_command_suffix(s: Seq<u8>, is_utf8: bool, v35: bool)
    ensures
        take_command(s, is_utf8, v35) matches Some((_, r)) ==> is_suffix(r, s),
{
    if let Some((_, r)) = take_command(s, is_utf8, v35) {
        let (ac, h1) = take_u8(s)->0;
        let (_, h2) = take_u32(h1)->0;
        let (_, h3) = take_u32s(h2, (ac - 1) as nat)->0;
        let (_, h4) = take_u8(h3)->0;
        lemma_take_u8_suffix(s);
        lemma_take_u32_suffix(h1);
        lemma_take_u32s_suffix(h2, (ac - 1) as nat);
        lemma_take_u8_suffix(h3);
        lemma_suffix_trans(h2, h1, s);
        lemma_suffix_trans(h3, h2, s);
        lemma_suffix_trans(h4, h3, s);
        let (sc, r5) = take_u8(h4)->0;
        let (_, r6) = take_strings(r5, sc as nat, is_utf8)->0;
        let (t, r7) = take_u8(r6)->0;
        let (_, r8) = take_command_trailer(r7, t)->0;
        lemma_take_u8_suffix(h4);
        lemma_take_strings_suffix(r5, sc as nat, is_utf8);
        lemma_take_u8_suffix(r6);
        lemma_suffix_trans(r5, h4, s);
        lemma_suffix_trans(r6, r5, s);
        lemma_suffix_trans(r7, r6, s);
        if t == TERMINATOR_MOVE {
            lemma_take_move_data_suffix(r7);
        } else {
            lemma_suffix_refl(r7);
        }
        lemma_suffix_trans(r8, r7, s);
        if v35 {
            let (n, r9) = take_u8(r8)->0;
            lemma_take_u8_suffix(r8);
            lemma_take_bytes_suffix(r9, n as int);
            lemma_suffix_trans(r9, r8, s);
            lemma_suffix_trans(r, r9, s);
        } else {
            assert(r == r8);
        }
    }
}

pub proof fn lemma_take_commands_suffix(s: Seq<u8>, n: nat, is_utf8: bool, v35: bool)
    ensures
        take_commands(s, n, is_utf8, v35) matches Some((_, r)) ==> is_suffix(r, s),
    decreases n,
{
    if n == 0 {
        lemma_suffix_refl(s);
    } else {
        lemma_take_commands_suffix(s, (n - 1) as nat, is_utf8, v35);
        if let Some((_, r0)) = take_commands(s, (n - 1) as nat, is_utf8, v35) {
            lemma_take_command_suffix(r0, is_utf8, v35);
            if let Some((_, r)) = take_command(r0, is_utf8, v35) {
                lemma_suffix_trans(r, r0, s);
            }
        }
    }
}

} // verus!

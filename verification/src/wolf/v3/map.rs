//! `.mps` map structures for WOLF RPG Editor v3.x: pages, events and the
//! map itself, read from and written to the decompressed
//! `header[0..25] ++ payload` buffer.

use vstd::bytes::*;
use vstd::prelude::*;

use super::coder::{
    lemma_take_bytes_of_written, lemma_take_string_of_written, lemma_take_u32_of_written,
    lemma_take_u8_of_written, string_bytes, string_writable, take_bytes, take_string, take_u32, take_u8,
    ByteReader, ByteWriter,
};
use super::command::{
    is_suffix, lemma_suffix_refl, lemma_suffix_trans, lemma_take_bytes_suffix, lemma_take_commands_suffix,
    lemma_take_route_suffix, lemma_take_string_suffix, lemma_take_u32_suffix, lemma_take_u8_suffix,
    commands_bytes, commands_view, count_u32, lemma_take_commands_shrinks, lemma_take_route_shrinks,
    command_wf, lemma_commands_round_trip, lemma_route_round_trip, route_command_wf,
    len_as_u32, read_commands, read_route, route_bytes, route_view, take_commands, take_route,
    write_commands, write_route, Command, CommandModel, RouteCommand, RouteCommandModel,
};
use super::V3FormatError;

verus! {

/// Size of a page's opaque condition block.
pub const CONDITIONS_LEN: usize = 37;

/// Size of a page's opaque movement block.
pub const MOVEMENT_LEN: usize = 4;

/// Byte closing every page.
pub const PAGE_TERMINATOR: u8 = 0x7A;

/// Byte before each page of an event.
pub const PAGE_INDICATOR: u8 = 0x79;

/// Byte closing an event's page list.
pub const EVENT_TERMINATOR: u8 = 0x70;

/// Byte before each event of a map.
pub const EVENT_INDICATOR: u8 = 0x6F;

/// Byte closing a map's event list.
pub const MAP_TERMINATOR: u8 = 0x66;

/// Map versions from this one on are v3.5+ (commands carry a trailer, the
/// header carries `unknown4` and the layer count).
pub const VERSION_V35: u32 = 0x67;

/// "No tile data" marker of UTF-8 maps.
pub const NO_TILES_MARKER: u32 = 0xFFFF_FFFF;

pub open spec fn event_magic1() -> Seq<u8> {
    seq![0x39u8, 0x30u8, 0x00u8, 0x00u8]
}

pub open spec fn event_magic2() -> Seq<u8> {
    seq![0x00u8, 0x00u8, 0x00u8, 0x00u8]
}

// ---------------------------------------------------------------------------
// Pages
// ---------------------------------------------------------------------------

/// One event page.
pub struct PageModel {
    pub unknown1: u32,
    pub graphic_name: Seq<char>,
    pub graphic_direction: u8,
    pub graphic_frame: u8,
    pub graphic_opacity: u8,
    pub graphic_render_mode: u8,
    pub conditions: Seq<u8>,
    pub movement: Seq<u8>,
    pub flags: u8,
    pub route_flags: u8,
    pub route: Seq<RouteCommandModel>,
    pub commands: Seq<CommandModel>,
    pub features: u32,
    pub shadow_graphic_num: u8,
    pub collision_width: u8,
    pub collision_height: u8,
    pub page_transfer: Option<u8>,
}

/// A page's graphic: `unknown1`, graphic name, direction, frame, opacity,
/// render mode.
pub open spec fn take_page_graphic(s: Seq<u8>, is_utf8: bool) -> Option<
    ((u32, Seq<char>, u8, u8, u8, u8), Seq<u8>),
> {
    match take_u32(s) {
        None => None,
        Some((u1, r1)) => match take_string(r1, is_utf8) {
            None => None,
            Some((name, r2)) => match take_u8(r2) {
                None => None,
                Some((d, r3)) => match take_u8(r3) {
                    None => None,
                    Some((f, r4)) => match take_u8(r4) {
                        None => None,
                        Some((o, r5)) => match take_u8(r5) {
                            None => None,
                            Some((m, r6)) => Some(((u1, name, d, f, o, m), r6)),
                        },
                    },
                },
            },
        },
    }
}

/// A page's conditions (37 bytes), movement (4 bytes), flags, route flags
/// and "not running" route (count, then steps).
pub open spec fn take_page_moves(s: Seq<u8>) -> Option<
    ((Seq<u8>, Seq<u8>, u8, u8, Seq<RouteCommandModel>), Seq<u8>),
> {
    match take_bytes(s, CONDITIONS_LEN as int) {
        None => None,
        Some((c, r1)) => match take_bytes(r1, MOVEMENT_LEN as int) {
            None => None,
            Some((mv, r2)) => match take_u8(r2) {
                None => None,
                Some((fl, r3)) => match take_u8(r3) {
                    None => None,
                    Some((rf, r4)) => match take_u32(r4) {
                        None => None,
                        Some((n, r5)) => match take_route(r5, n as nat) {
                            None => None,
                            Some((route, r6)) => Some(((c, mv, fl, rf, route), r6)),
                        },
                    },
                },
            },
        },
    }
}

/// What is left of a page's tail where its terminator is due: after the
/// commands, features, shadow graphic, collision size and page transfer.
pub open spec fn page_tail_until_terminator(s: Seq<u8>, is_utf8: bool, v35: bool) -> Option<Seq<u8>> {
    match take_u32(s) {
        None => None,
        Some((n, r1)) => match take_commands(r1, n as nat, is_utf8, v35) {
            None => None,
            Some((_, r2)) => match take_u32(r2) {
                None => None,
                Some((feat, r3)) => match take_u8(r3) {
                    None => None,
                    Some((_, r4)) => match take_u8(r4) {
                        None => None,
                        Some((_, r5)) => match take_u8(r5) {
                            None => None,
                            Some((_, r6)) => if feat > 3 {
                                match take_u8(r6) {
                                    None => None,
                                    Some((_, r7)) => Some(r7),
                                }
                            } else {
                                Some(r6)
                            },
                        },
                    },
                },
            },
        },
    }
}

/// The fault of a page's tail at offset `at` that a read reports by name:
/// a byte other than `0x7A` where the terminator is due.
pub open spec fn page_tail_fault(s: Seq<u8>, at: int, is_utf8: bool, v35: bool) -> Option<V3FormatError> {
    match page_tail_until_terminator(s, is_utf8, v35) {
        Some(r7) => if r7.len() >= 1 && r7[0] != PAGE_TERMINATOR {
            Some(
                V3FormatError::UnexpectedByte {
                    offset: (at + s.len() - r7.len()) as usize,
                    expected: PAGE_TERMINATOR,
                    found: r7[0],
                    context: "page terminator",
                },
            )
        } else {
            None
        },
        None => None,
    }
}

/// The fault of a page at offset `at` that a read reports by name (see
/// `page_tail_fault`).
pub open spec fn page_fault(s: Seq<u8>, at: int, is_utf8: bool, v35: bool) -> Option<V3FormatError> {
    match take_page_graphic(s, is_utf8) {
        None => None,
        Some((_, r1)) => match take_page_moves(r1) {
            None => None,
            Some((_, r2)) => page_tail_fault(r2, at + s.len() - r2.len(), is_utf8, v35),
        },
    }
}

/// A page's commands (count, then commands), features, shadow graphic,
/// collision size, page transfer (present only when `features > 3`) and
/// terminator `0x7A`.
pub open spec fn take_page_tail(s: Seq<u8>, is_utf8: bool, v35: bool) -> Option<
    ((Seq<CommandModel>, u32, u8, u8, u8, Option<u8>), Seq<u8>),
> {
    match take_u32(s) {
        None => None,
        Some((n, r1)) => match take_commands(r1, n as nat, is_utf8, v35) {
            None => None,
            Some((cmds, r2)) => match take_u32(r2) {
                None => None,
                Some((feat, r3)) => match take_u8(r3) {
                    None => None,
                    Some((sh, r4)) => match take_u8(r4) {
                        None => None,
                        Some((cw, r5)) => match take_u8(r5) {
                            None => None,
                            Some((ch, r6)) => {
                                let pt = if feat > 3 {
                                    match take_u8(r6) {
                                        None => None,
                                        Some((b, r7)) => Some((Some(b), r7)),
                                    }
                                } else {
                                    Some((None, r6))
                                };
                                match pt {
                                    None => None,
                                    Some((pt, r7)) => match take_u8(r7) {
                                        None => None,
                                        Some((t, r8)) => if t == PAGE_TERMINATOR {
                                            Some(((cmds, feat, sh, cw, ch, pt), r8))
                                        } else {
                                            None
                                        },
                                    },
                                }
                            },
                        },
                    },
                },
            },
        },
    }
}

#[verifier::opaque]
pub open spec fn take_page(s: Seq<u8>, is_utf8: bool, v35: bool) -> Option<(PageModel, Seq<u8>)> {
    match take_page_graphic(s, is_utf8) {
        None => None,
        Some(((u1, name, d, f, o, m), r1)) => match take_page_moves(r1) {
            None => None,
            Some(((c, mv, fl, rf, route), r2)) => match take_page_tail(r2, is_utf8, v35) {
                None => None,
                Some(((cmds, feat, sh, cw, ch, pt), r3)) => Some(
                    (
                        PageModel {
                            unknown1: u1,
                            graphic_name: name,
                            graphic_direction: d,
                            graphic_frame: f,
                            graphic_opacity: o,
                            graphic_render_mode: m,
                            conditions: c,
                            movement: mv,
                            flags: fl,
                            route_flags: rf,
                            route,
                            commands: cmds,
                            features: feat,
                            shadow_graphic_num: sh,
                            collision_width: cw,
                            collision_height: ch,
                            page_transfer: pt,
                        },
                        r3,
                    ),
                ),
            },
        },
    }
}

/// Every page read has a condition block of `CONDITIONS_LEN` bytes, a
/// movement block of `MOVEMENT_LEN` bytes, and a page transfer exactly when
/// its features exceed 3.
pub proof fn lemma_page_shape(s: Seq<u8>, is_utf8: bool, v35: bool)
    ensures
        take_page(s, is_utf8, v35) matches Some((p, _)) ==> {
            &&& p.conditions.len() == CONDITIONS_LEN
            &&& p.movement.len() == MOVEMENT_LEN
            &&& (p.page_transfer is Some <==> p.features > 3)
        },
{
    reveal(take_page);
}

/// A page's bytes before its commands, given its encoded graphic name.
pub open spec fn page_head_bytes(p: PageModel, g: Seq<u8>) -> Seq<u8> {
    spec_u32_to_le_bytes(p.unknown1) + g + seq![
        p.graphic_direction,
        p.graphic_frame,
        p.graphic_opacity,
        p.graphic_render_mode,
    ] + p.conditions + p.movement + seq![p.flags, p.route_flags] + spec_u32_to_le_bytes(
        count_u32(p.route.len() as int),
    ) + route_bytes(p.route) + spec_u32_to_le_bytes(count_u32(p.commands.len() as int))
}

/// A page's bytes after its commands.
pub open spec fn page_tail_bytes(p: PageModel) -> Seq<u8> {
    spec_u32_to_le_bytes(p.features) + seq![
        p.shadow_graphic_num,
        p.collision_width,
        p.collision_height,
    ] + match p.page_transfer {
        Some(b) => seq![b],
        None => Seq::empty(),
    } + seq![PAGE_TERMINATOR]
}

/// The bytes written for a page, or `None` when a string cannot be encoded.
#[verifier::opaque]
pub open spec fn page_bytes(p: PageModel, is_utf8: bool, v35: bool) -> Option<Seq<u8>> {
    match (string_bytes(p.graphic_name, is_utf8), commands_bytes(p.commands, is_utf8, v35)) {
        (Some(g), Some(cb)) => Some(page_head_bytes(p, g) + cb + page_tail_bytes(p)),
        _ => None,
    }
}

/// One event page.
#[derive(Debug, Clone, PartialEq)]
pub struct PageV3 {
    pub unknown1: u32,
    pub graphic_name: String,
    pub graphic_direction: u8,
    pub graphic_frame: u8,
    pub graphic_opacity: u8,
    pub graphic_render_mode: u8,
    /// Opaque, preserved byte for byte (37 bytes).
    pub conditions: Vec<u8>,
    /// Opaque, preserved byte for byte (4 bytes).
    pub movement: Vec<u8>,
    pub flags: u8,
    pub route_flags: u8,
    pub route: Vec<RouteCommand>,
    pub commands: Vec<Command>,
    pub features: u32,
    pub shadow_graphic_num: u8,
    pub collision_width: u8,
    pub collision_height: u8,
    /// Only present when `features > 3`.
    pub page_transfer: Option<u8>,
}

impl View for PageV3 {
    type V = PageModel;

    open spec fn view(&self) -> PageModel {
        PageModel {
            unknown1: self.unknown1,
            graphic_name: self.graphic_name@,
            graphic_direction: self.graphic_direction,
            graphic_frame: self.graphic_frame,
            graphic_opacity: self.graphic_opacity,
            graphic_render_mode: self.graphic_render_mode,
            conditions: self.conditions@,
            movement: self.movement@,
            flags: self.flags,
            route_flags: self.route_flags,
            route: route_view(self.route@),
            commands: commands_view(self.commands@),
            features: self.features,
            shadow_graphic_num: self.shadow_graphic_num,
            collision_width: self.collision_width,
            collision_height: self.collision_height,
            page_transfer: self.page_transfer,
        }
    }
}

fn read_page_graphic(reader: &mut ByteReader, is_utf8: bool) -> (res: Result<
    (u32, String, u8, u8, u8, u8),
    V3FormatError,
>)
    requires
        old(reader).wf(),
    ensures
        final(reader).wf(),
        final(reader).input() == old(reader).input(),
        match take_page_graphic(old(reader).rest(), is_utf8) {
            Some(((u1, name, d, f, o, m), r)) => res matches Ok(v) && v.0 == u1 && v.1@ == name
                && v.2 == d && v.3 == f && v.4 == o && v.5 == m && final(reader).rest() == r,
            None => res is Err,
        },
{
    let unknown1 = reader.read_u32_le()?;
    let graphic_name = reader.read_string(is_utf8)?;
    let graphic_direction = reader.read_u8()?;
    let graphic_frame = reader.read_u8()?;
    let graphic_opacity = reader.read_u8()?;
    let graphic_render_mode = reader.read_u8()?;
    Ok((unknown1, graphic_name, graphic_direction, graphic_frame, graphic_opacity, graphic_render_mode))
}

fn read_page_moves(reader: &mut ByteReader) -> (res: Result<
    (Vec<u8>, Vec<u8>, u8, u8, Vec<RouteCommand>),
    V3FormatError,
>)
    requires
        old(reader).wf(),
    ensures
        final(reader).wf(),
        final(reader).input() == old(reader).input(),
        match take_page_moves(old(reader).rest()) {
            Some(((c, mv, fl, rf, route), r)) => res matches Ok(v) && v.0@ == c && v.1@ == mv
                && v.2 == fl && v.3 == rf && route_view(v.4@) == route && final(reader).rest() == r,
            None => res is Err,
        },
{
    let conditions = vstd::slice::slice_to_vec(reader.read_bytes(CONDITIONS_LEN)?);
    let movement = vstd::slice::slice_to_vec(reader.read_bytes(MOVEMENT_LEN)?);
    let flags = reader.read_u8()?;
    let route_flags = reader.read_u8()?;
    let route_count = reader.read_u32_le()?;
    let route = read_route(reader, route_count as usize)?;
    Ok((conditions, movement, flags, route_flags, route))
}

fn read_page_tail(reader: &mut ByteReader, is_utf8: bool, v35: bool) -> (res: Result<
    (Vec<Command>, u32, u8, u8, u8, Option<u8>),
    V3FormatError,
>)
    requires
        old(reader).wf(),
    ensures
        final(reader).wf(),
        final(reader).input() == old(reader).input(),
        match take_page_tail(old(reader).rest(), is_utf8, v35) {
            Some(((cmds, feat, sh, cw, ch, pt), r)) => res matches Ok(v) && commands_view(v.0@) == cmds
                && v.1 == feat && v.2 == sh && v.3 == cw && v.4 == ch && v.5 == pt && final(reader).rest()
                == r,
            None => res is Err,
        },
        page_tail_fault(old(reader).rest(), old(reader).offset(), is_utf8, v35) matches Some(e) ==> res matches Err(
            x,
        ) && x == e,
{
    let command_count = reader.read_u32_le()?;
    let commands = read_commands(reader, command_count as usize, is_utf8, v35)?;
    let features = reader.read_u32_le()?;
    let shadow_graphic_num = reader.read_u8()?;
    let collision_width = reader.read_u8()?;
    let collision_height = reader.read_u8()?;
    let page_transfer = if features > 3 {
        Some(reader.read_u8()?)
    } else {
        None
    };
    let terminator_offset = reader.position();
    let terminator = reader.read_u8()?;
    if terminator != PAGE_TERMINATOR {
        return Err(
            V3FormatError::UnexpectedByte {
                offset: terminator_offset,
                expected: PAGE_TERMINATOR,
                found: terminator,
                context: "page terminator",
            },
        );
    }
    Ok((commands, features, shadow_graphic_num, collision_width, collision_height, page_transfer))
}

impl PageV3 {
    /// Reads one page; `is_utf8` selects the string encoding, `v35` the
    /// command trailer.
    pub fn parse(reader: &mut ByteReader, is_utf8: bool, v35: bool) -> (res: Result<Self, V3FormatError>)
        requires
            old(reader).wf(),
        ensures
            final(reader).wf(),
            final(reader).input() == old(reader).input(),
            match take_page(old(reader).rest(), is_utf8, v35) {
                Some((p, r)) => res matches Ok(v) && v@ == p && final(reader).rest() == r,
                None => res is Err,
            },
            page_fault(old(reader).rest(), old(reader).offset(), is_utf8, v35) matches Some(e) ==> res == Err::<
                Self,
                V3FormatError,
            >(e),
    {
        reveal(take_page);
        let (
            unknown1,
            graphic_name,
            graphic_direction,
            graphic_frame,
            graphic_opacity,
            graphic_render_mode,
        ) = read_page_graphic(reader, is_utf8)?;
        let (conditions, movement, flags, route_flags, route) = read_page_moves(reader)?;
        let (
            commands,
            features,
            shadow_graphic_num,
            collision_width,
            collision_height,
            page_transfer,
        ) = read_page_tail(reader, is_utf8, v35)?;
        Ok(
            PageV3 {
                unknown1,
                graphic_name,
                graphic_direction,
                graphic_frame,
                graphic_opacity,
                graphic_render_mode,
                conditions,
                movement,
                flags,
                route_flags,
                route,
                commands,
                features,
                shadow_graphic_num,
                collision_width,
                collision_height,
                page_transfer,
            },
        )
    }

    fn dump_head(&self, writer: &mut ByteWriter, is_utf8: bool) -> (res: Result<(), V3FormatError>)
        ensures
            match string_bytes(self@.graphic_name, is_utf8) {
                Some(g) => res is Ok && final(writer).written() == old(writer).written()
                    + page_head_bytes(self@, g),
                None => res is Err,
            },
    {
        writer.write_u32_le(self.unknown1);
        let ghost w0 = writer.written();
        match writer.write_string(&self.graphic_name, is_utf8) {
            Ok(()) => {},
            Err(e) => return Err(e),
        }
        writer.write_u8(self.graphic_direction);
        writer.write_u8(self.graphic_frame);
        writer.write_u8(self.graphic_opacity);
        writer.write_u8(self.graphic_render_mode);
        writer.write_bytes(self.conditions.as_slice());
        writer.write_bytes(self.movement.as_slice());
        writer.write_u8(self.flags);
        writer.write_u8(self.route_flags);
        writer.write_u32_le(len_as_u32(self.route.len()));
        write_route(writer, &self.route);
        writer.write_u32_le(len_as_u32(self.commands.len()));
        proof {
            let g = string_bytes(self@.graphic_name, is_utf8)->0;
            assert(writer.written() =~= old(writer).written() + page_head_bytes(self@, g));
        }
        Ok(())
    }

    fn dump_tail(&self, writer: &mut ByteWriter)
        ensures
            final(writer).written() == old(writer).written() + page_tail_bytes(self@),
    {
        writer.write_u32_le(self.features);
        writer.write_u8(self.shadow_graphic_num);
        writer.write_u8(self.collision_width);
        writer.write_u8(self.collision_height);
        match self.page_transfer {
            Some(b) => writer.write_u8(b),
            None => {},
        }
        writer.write_u8(PAGE_TERMINATOR);
        assert(writer.written() =~= old(writer).written() + page_tail_bytes(self@));
    }

    /// Writes this page — the inverse of `PageV3::parse`.
    pub fn dump(&self, writer: &mut ByteWriter, is_utf8: bool, v35: bool) -> (res: Result<(), V3FormatError>)
        ensures
            match page_bytes(self@, is_utf8, v35) {
                Some(b) => res is Ok && final(writer).written() == old(writer).written() + b,
                None => res is Err,
            },
    {
        reveal(page_bytes);
        self.dump_head(writer, is_utf8)?;
        let ghost w1 = writer.written();
        write_commands(writer, &self.commands, is_utf8, v35)?;
        let ghost w2 = writer.written();
        self.dump_tail(writer);
        proof {
            let p = self@;
            let g = string_bytes(p.graphic_name, is_utf8)->0;
            let cb = commands_bytes(p.commands, is_utf8, v35)->0;
            assert(writer.written() =~= old(writer).written() + (page_head_bytes(p, g) + cb
                + page_tail_bytes(p)));
        }
        Ok(())
    }
}

pub proof fn lemma_take_page_shrinks(s: Seq<u8>, is_utf8: bool, v35: bool)
    ensures
        take_page(s, is_utf8, v35) matches Some((_, r)) ==> r.len() < s.len(),
{
    reveal(take_page);
    if let Some((_, r1)) = take_page_graphic(s, is_utf8) {
        if let Some((_, m1)) = take_bytes(r1, CONDITIONS_LEN as int) {
            if let Some((_, m2)) = take_bytes(m1, MOVEMENT_LEN as int) {
                if let Some((_, m3)) = take_u8(m2) {
                    if let Some((_, m4)) = take_u8(m3) {
                        if let Some((n, m5)) = take_u32(m4) {
                            lemma_take_route_shrinks(m5, n as nat);
                        }
                    }
                }
            }
        }
        if let Some((_, r2)) = take_page_moves(r1) {
            if let Some((n, t1)) = take_u32(r2) {
                lemma_take_commands_shrinks(t1, n as nat, is_utf8, v35);
            }
        }
    }
}

/// A page that can be written and read back: its strings survive their
/// encoding, its fixed blocks have their sizes, every count fits, and a
/// page transfer byte is there exactly when `features > 3`.
pub open spec fn page_wf(p: PageModel, is_utf8: bool, v35: bool) -> bool {
    &&& string_writable(p.graphic_name, is_utf8)
    &&& p.conditions.len() == CONDITIONS_LEN
    &&& p.movement.len() == MOVEMENT_LEN
    &&& p.route.len() < 0x1_0000_0000
    &&& forall|i: int| 0 <= i < p.route.len() ==> route_command_wf(#[trigger] p.route[i])
    &&& p.commands.len() < 0x1_0000_0000
    &&& forall|i: int| 0 <= i < p.commands.len() ==> command_wf(#[trigger] p.commands[i], is_utf8, v35)
    &&& (p.features > 3) == (p.page_transfer is Some)
}

/// The bytes of a page's graphic, followed by `tail`.
pub open spec fn page_graphic_then(p: PageModel, g: Seq<u8>, tail: Seq<u8>) -> Seq<u8> {
    spec_u32_to_le_bytes(p.unknown1) + (g + (seq![p.graphic_direction] + (seq![p.graphic_frame] + (seq![
        p.graphic_opacity,
    ] + (seq![p.graphic_render_mode] + tail)))))
}

/// The bytes of a page's blocks, flags and route, followed by `tail`.
pub open spec fn page_moves_then(p: PageModel, tail: Seq<u8>) -> Seq<u8> {
    p.conditions + (p.movement + (seq![p.flags] + (seq![p.route_flags] + (spec_u32_to_le_bytes(
        count_u32(p.route.len() as int),
    ) + (route_bytes(p.route) + tail)))))
}

/// The bytes of a page from its command count on, followed by `rest`.
pub open spec fn page_tail_then(p: PageModel, cb: Seq<u8>, rest: Seq<u8>) -> Seq<u8> {
    let t_end = seq![PAGE_TERMINATOR] + rest;
    let t_pt = match p.page_transfer {
        Some(b) => seq![b] + t_end,
        None => t_end,
    };
    spec_u32_to_le_bytes(count_u32(p.commands.len() as int)) + (cb + (spec_u32_to_le_bytes(p.features) + (
    seq![p.shadow_graphic_num] + (seq![p.collision_width] + (seq![p.collision_height] + t_pt)))))
}

proof fn lemma_page_graphic_round_trip(p: PageModel, is_utf8: bool, tail: Seq<u8>)
    requires
        string_writable(p.graphic_name, is_utf8),
    ensures
        string_bytes(p.graphic_name, is_utf8) is Some,
        take_page_graphic(page_graphic_then(p, string_bytes(p.graphic_name, is_utf8)->0, tail), is_utf8) == Some(
            (
                (
                    p.unknown1,
                    p.graphic_name,
                    p.graphic_direction,
                    p.graphic_frame,
                    p.graphic_opacity,
                    p.graphic_render_mode,
                ),
                tail,
            ),
        ),
{
    lemma_take_string_of_written(p.graphic_name, is_utf8, Seq::empty());
    let g = string_bytes(p.graphic_name, is_utf8)->0;
    let t_m = seq![p.graphic_render_mode] + tail;
    let t_o = seq![p.graphic_opacity] + t_m;
    let t_f = seq![p.graphic_frame] + t_o;
    let t_d = seq![p.graphic_direction] + t_f;
    lemma_take_u32_of_written(p.unknown1, g + t_d);
    lemma_take_string_of_written(p.graphic_name, is_utf8, t_d);
    lemma_take_u8_of_written(p.graphic_direction, t_f);
    lemma_take_u8_of_written(p.graphic_frame, t_o);
    lemma_take_u8_of_written(p.graphic_opacity, t_m);
    lemma_take_u8_of_written(p.graphic_render_mode, tail);
}

proof fn lemma_page_moves_round_trip(p: PageModel, tail: Seq<u8>)
    requires
        p.conditions.len() == CONDITIONS_LEN,
        p.movement.len() == MOVEMENT_LEN,
        p.route.len() < 0x1_0000_0000,
        forall|i: int| 0 <= i < p.route.len() ==> route_command_wf(#[trigger] p.route[i]),
    ensures
        take_page_moves(page_moves_then(p, tail)) == Some(
            ((p.conditions, p.movement, p.flags, p.route_flags, p.route), tail),
        ),
{
    let nr = count_u32(p.route.len() as int);
    assert(nr == p.route.len());
    let t_route = route_bytes(p.route) + tail;
    let t_nr = spec_u32_to_le_bytes(nr) + t_route;
    let t_rf = seq![p.route_flags] + t_nr;
    let t_fl = seq![p.flags] + t_rf;
    let t_mv = p.movement + t_fl;
    lemma_take_bytes_of_written(p.conditions, t_mv);
    lemma_take_bytes_of_written(p.movement, t_fl);
    lemma_take_u8_of_written(p.flags, t_rf);
    lemma_take_u8_of_written(p.route_flags, t_nr);
    lemma_take_u32_of_written(nr, t_route);
    lemma_route_round_trip(p.route, tail);
}

#[verifier::spinoff_prover]
#[verifier::rlimit(30)]
proof fn lemma_page_tail_round_trip(p: PageModel, is_utf8: bool, v35: bool, rest: Seq<u8>)
    requires
        p.commands.len() < 0x1_0000_0000,
        forall|i: int| 0 <= i < p.commands.len() ==> command_wf(#[trigger] p.commands[i], is_utf8, v35),
        (p.features > 3) == (p.page_transfer is Some),
    ensures
        commands_bytes(p.commands, is_utf8, v35) is Some,
        take_page_tail(page_tail_then(p, commands_bytes(p.commands, is_utf8, v35)->0, rest), is_utf8, v35)
            == Some(
            (
                (
                    p.commands,
                    p.features,
                    p.shadow_graphic_num,
                    p.collision_width,
                    p.collision_height,
                    p.page_transfer,
                ),
                rest,
            ),
        ),
{
    lemma_commands_round_trip(p.commands, is_utf8, v35, Seq::empty());
    let cb = commands_bytes(p.commands, is_utf8, v35)->0;
    let nc = count_u32(p.commands.len() as int);
    assert(nc == p.commands.len());
    let t_end = seq![PAGE_TERMINATOR] + rest;
    let t_pt = match p.page_transfer {
        Some(b) => seq![b] + t_end,
        None => t_end,
    };
    let t_ch = seq![p.collision_height] + t_pt;
    let t_cw = seq![p.collision_width] + t_ch;
    let t_sh = seq![p.shadow_graphic_num] + t_cw;
    let t_feat = spec_u32_to_le_bytes(p.features) + t_sh;
    let s0 = page_tail_then(p, cb, rest);
    assert(s0 == spec_u32_to_le_bytes(nc) + (cb + t_feat));
    lemma_take_u32_of_written(nc, cb + t_feat);
    assert(take_u32(s0) == Some((nc, cb + t_feat)));
    lemma_commands_round_trip(p.commands, is_utf8, v35, t_feat);
    assert(take_commands(cb + t_feat, nc as nat, is_utf8, v35) == Some((p.commands, t_feat)));
    lemma_take_u32_of_written(p.features, t_sh);
    lemma_take_u8_of_written(p.shadow_graphic_num, t_cw);
    lemma_take_u8_of_written(p.collision_width, t_ch);
    lemma_take_u8_of_written(p.collision_height, t_pt);
    lemma_take_u8_of_written(PAGE_TERMINATOR, rest);
    match p.page_transfer {
        Some(b) => {
            lemma_take_u8_of_written(b, t_end);
            assert(p.features > 3);
        },
        None => {
            assert(!(p.features > 3));
        },
    }
}

#[verifier::spinoff_prover]
#[verifier::rlimit(60)]
proof fn lemma_page_bytes_shape(p: PageModel, g: Seq<u8>, cb: Seq<u8>, rest: Seq<u8>)
    ensures
        page_head_bytes(p, g) + cb + page_tail_bytes(p) + rest == page_graphic_then(
            p,
            g,
            page_moves_then(p, page_tail_then(p, cb, rest)),
        ),
{
    let t3 = page_tail_then(p, cb, rest);
    let t_end = seq![PAGE_TERMINATOR] + rest;
    let t_pt = match p.page_transfer {
        Some(b) => seq![b] + t_end,
        None => t_end,
    };
    let pt = match p.page_transfer {
        Some(b) => seq![b],
        None => Seq::empty(),
    };
    assert(pt + seq![PAGE_TERMINATOR] + rest =~= t_pt);
    assert(page_tail_bytes(p) + rest =~= spec_u32_to_le_bytes(p.features) + (seq![p.shadow_graphic_num] + (
    seq![p.collision_width] + (seq![p.collision_height] + t_pt))));
    let nc = spec_u32_to_le_bytes(count_u32(p.commands.len() as int));
    assert(nc + cb + page_tail_bytes(p) + rest =~= t3);
    let t2 = page_moves_then(p, t3);
    let nr = spec_u32_to_le_bytes(count_u32(p.route.len() as int));
    let mid = p.conditions + p.movement + seq![p.flags, p.route_flags] + nr + route_bytes(p.route);
    assert(mid + t3 =~= t2);
    let head = spec_u32_to_le_bytes(p.unknown1) + g + seq![
        p.graphic_direction,
        p.graphic_frame,
        p.graphic_opacity,
        p.graphic_render_mode,
    ];
    assert(page_head_bytes(p, g) =~= head + mid + nc);
    assert(head + t2 =~= page_graphic_then(p, g, t2));
    assert(page_head_bytes(p, g) + cb + page_tail_bytes(p) + rest =~= head + (mid + (nc + cb + page_tail_bytes(
        p,
    ) + rest)));
}

/// Reading back a written page gives the page.
#[verifier::spinoff_prover]
#[verifier::rlimit(30)]
pub proof fn lemma_page_round_trip(p: PageModel, is_utf8: bool, v35: bool, rest: Seq<u8>)
    requires
        page_wf(p, is_utf8, v35),
    ensures
        page_bytes(p, is_utf8, v35) is Some,
        take_page(page_bytes(p, is_utf8, v35)->0 + rest, is_utf8, v35) == Some((p, rest)),
{
    reveal(page_bytes);
    lemma_page_graphic_round_trip(p, is_utf8, Seq::empty());
    lemma_page_tail_round_trip(p, is_utf8, v35, rest);
    let g = string_bytes(p.graphic_name, is_utf8)->0;
    let cb = commands_bytes(p.commands, is_utf8, v35)->0;
    let t3 = page_tail_then(p, cb, rest);
    let t2 = page_moves_then(p, t3);
    lemma_page_bytes_shape(p, g, cb, rest);
    lemma_page_graphic_round_trip(p, is_utf8, t2);
    lemma_page_moves_round_trip(p, t3);
    reveal(take_page);
}

// ---------------------------------------------------------------------------
// Events
// ---------------------------------------------------------------------------

/// One map event.
pub struct EventModel {
    pub id: u32,
    pub name: Seq<char>,
    pub x: u32,
    pub y: u32,
    pub pages: Seq<PageModel>,
}

/// Pages, each after a `0x79` byte, up to the terminator `0x70`.
pub open spec fn take_pages(s: Seq<u8>, is_utf8: bool, v35: bool) -> Option<(Seq<PageModel>, Seq<u8>)>
    decreases s.len(),
{
    match take_u8(s) {
        None => None,
        Some((ind, r)) => if ind == PAGE_INDICATOR {
            match take_page(r, is_utf8, v35) {
                None => None,
                Some((p, r2)) => {
                    proof {
                        lemma_take_page_shrinks(r, is_utf8, v35);
                    }
                    match take_pages(r2, is_utf8, v35) {
                        None => None,
                        Some((ps, r3)) => Some((seq![p] + ps, r3)),
                    }
                },
            }
        } else if ind == EVENT_TERMINATOR {
            Some((Seq::empty(), r))
        } else {
            None
        },
    }
}

/// The fixed head of an event: magic `39 30 00 00`, id, name, x, y, page
/// count, magic `00 00 00 00`.
pub open spec fn take_event_head(s: Seq<u8>, is_utf8: bool) -> Option<
    ((u32, Seq<char>, u32, u32, u32), Seq<u8>),
> {
    match take_bytes(s, 4) {
        None => None,
        Some((m1, r1)) => if m1 != event_magic1() {
            None
        } else {
            match take_u32(r1) {
                None => None,
                Some((id, r2)) => match take_string(r2, is_utf8) {
                    None => None,
                    Some((name, r3)) => match take_u32(r3) {
                        None => None,
                        Some((x, r4)) => match take_u32(r4) {
                            None => None,
                            Some((y, r5)) => match take_u32(r5) {
                                None => None,
                                Some((pc, r6)) => match take_bytes(r6, 4) {
                                    None => None,
                                    Some((m2, r7)) => if m2 != event_magic2() {
                                        None
                                    } else {
                                        Some(((id, name, x, y, pc), r7))
                                    },
                                },
                            },
                        },
                    },
                },
            }
        },
    }
}

/// An event: its head, then its pages, whose number must match the count
/// in the head (taken modulo 2^32).
/// The fault of an event that a read reports by name: a page count in the
/// head other than the number of pages that follow.
pub open spec fn event_fault(s: Seq<u8>, is_utf8: bool, v35: bool) -> Option<V3FormatError> {
    match take_event_head(s, is_utf8) {
        Some(((_, _, _, _, pc), r1)) => match take_pages(r1, is_utf8, v35) {
            Some((pages, _)) => if count_u32(pages.len() as int) != pc {
                Some(
                    V3FormatError::CountMismatch {
                        expected: pc,
                        actual: count_u32(pages.len() as int),
                        context: "event pages",
                    },
                )
            } else {
                None
            },
            None => None,
        },
        None => None,
    }
}

#[verifier::opaque]
pub open spec fn take_event(s: Seq<u8>, is_utf8: bool, v35: bool) -> Option<(EventModel, Seq<u8>)> {
    match take_event_head(s, is_utf8) {
        None => None,
        Some(((id, name, x, y, pc), r1)) => match take_pages(r1, is_utf8, v35) {
            None => None,
            Some((pages, r2)) => if count_u32(pages.len() as int) != pc {
                None
            } else {
                Some((EventModel { id, name, x, y, pages }, r2))
            },
        },
    }
}

/// The bytes of pages, each after a `0x79` byte (without the terminator).
pub open spec fn pages_bytes(ps: Seq<PageModel>, is_utf8: bool, v35: bool) -> Option<Seq<u8>>
    decreases ps.len(),
{
    if ps.len() == 0 {
        Some(Seq::empty())
    } else {
        match (pages_bytes(ps.drop_last(), is_utf8, v35), page_bytes(ps.last(), is_utf8, v35)) {
            (Some(a), Some(b)) => Some(a + seq![PAGE_INDICATOR] + b),
            _ => None,
        }
    }
}

/// The bytes written for an event, or `None` when a string cannot be encoded.
#[verifier::opaque]
pub open spec fn event_bytes(e: EventModel, is_utf8: bool, v35: bool) -> Option<Seq<u8>> {
    match (string_bytes(e.name, is_utf8), pages_bytes(e.pages, is_utf8, v35)) {
        (Some(nb), Some(pb)) => Some(
            event_magic1() + spec_u32_to_le_bytes(e.id) + nb + spec_u32_to_le_bytes(e.x)
                + spec_u32_to_le_bytes(e.y) + spec_u32_to_le_bytes(count_u32(e.pages.len() as int))
                + event_magic2() + pb + seq![EVENT_TERMINATOR],
        ),
        _ => None,
    }
}

proof fn lemma_pages_bytes_cons(ps: Seq<PageModel>, is_utf8: bool, v35: bool)
    requires
        ps.len() > 0,
        forall|i: int| 0 <= i < ps.len() ==> (#[trigger] page_bytes(ps[i], is_utf8, v35)) is Some,
    ensures
        pages_bytes(ps, is_utf8, v35) is Some,
        pages_bytes(ps.drop_first(), is_utf8, v35) is Some,
        pages_bytes(ps, is_utf8, v35)->0 == seq![PAGE_INDICATOR] + page_bytes(ps[0], is_utf8, v35)->0
            + pages_bytes(ps.drop_first(), is_utf8, v35)->0,
    decreases ps.len(),
{
    let dl = ps.drop_last();
    assert(page_bytes(ps[ps.len() - 1], is_utf8, v35) is Some);
    if ps.len() == 1 {
        assert(dl =~= Seq::<PageModel>::empty());
        assert(ps.drop_first() =~= Seq::<PageModel>::empty());
        assert(pages_bytes(ps, is_utf8, v35)->0 =~= seq![PAGE_INDICATOR] + page_bytes(ps[0], is_utf8, v35)->0
            + Seq::<u8>::empty());
    } else {
        assert forall|i: int| 0 <= i < dl.len() implies (#[trigger] page_bytes(dl[i], is_utf8, v35)) is Some by {
            assert(dl[i] == ps[i]);
        }
        lemma_pages_bytes_cons(dl, is_utf8, v35);
        let tl = ps.drop_first();
        assert(tl.drop_last() =~= dl.drop_first());
        assert(tl.last() == ps.last());
        assert(dl[0] == ps[0]);
        assert(pages_bytes(ps, is_utf8, v35)->0 =~= seq![PAGE_INDICATOR] + page_bytes(ps[0], is_utf8, v35)->0
            + pages_bytes(tl, is_utf8, v35)->0);
    }
}

/// Reading back written pages, followed by the event terminator, gives
/// the pages.
pub proof fn lemma_pages_round_trip(ps: Seq<PageModel>, is_utf8: bool, v35: bool, rest: Seq<u8>)
    requires
        forall|i: int| 0 <= i < ps.len() ==> page_wf(#[trigger] ps[i], is_utf8, v35),
    ensures
        pages_bytes(ps, is_utf8, v35) is Some,
        take_pages(pages_bytes(ps, is_utf8, v35)->0 + seq![EVENT_TERMINATOR] + rest, is_utf8, v35) == Some(
            (ps, rest),
        ),
    decreases ps.len(),
{
    assert forall|i: int| 0 <= i < ps.len() implies (#[trigger] page_bytes(ps[i], is_utf8, v35)) is Some by {
        lemma_page_round_trip(ps[i], is_utf8, v35, Seq::empty());
    }
    if ps.len() == 0 {
        assert(pages_bytes(ps, is_utf8, v35)->0 + seq![EVENT_TERMINATOR] + rest =~= seq![EVENT_TERMINATOR]
            + rest);
        lemma_take_u8_of_written(EVENT_TERMINATOR, rest);
        assert(ps =~= Seq::<PageModel>::empty());
    } else {
        lemma_pages_bytes_cons(ps, is_utf8, v35);
        let tl = ps.drop_first();
        assert forall|i: int| 0 <= i < tl.len() implies page_wf(#[trigger] tl[i], is_utf8, v35) by {
            assert(tl[i] == ps[i + 1]);
        }
        lemma_pages_round_trip(tl, is_utf8, v35, rest);
        let after = pages_bytes(tl, is_utf8, v35)->0 + seq![EVENT_TERMINATOR] + rest;
        lemma_page_round_trip(ps[0], is_utf8, v35, after);
        let pb = page_bytes(ps[0], is_utf8, v35)->0;
        assert(pages_bytes(ps, is_utf8, v35)->0 + seq![EVENT_TERMINATOR] + rest =~= seq![PAGE_INDICATOR] + (pb
            + after));
        lemma_take_u8_of_written(PAGE_INDICATOR, pb + after);
        assert(seq![ps[0]] + tl =~= ps);
    }
}

/// An event that can be written and read back.
pub open spec fn event_wf(e: EventModel, is_utf8: bool, v35: bool) -> bool {
    &&& string_writable(e.name, is_utf8)
    &&& e.pages.len() < 0x1_0000_0000
    &&& forall|i: int| 0 <= i < e.pages.len() ==> page_wf(#[trigger] e.pages[i], is_utf8, v35)
}

#[verifier::spinoff_prover]
proof fn lemma_event_bytes_shape(e: EventModel, nb: Seq<u8>, pb: Seq<u8>, rest: Seq<u8>)
    ensures
        event_magic1() + spec_u32_to_le_bytes(e.id) + nb + spec_u32_to_le_bytes(e.x) + spec_u32_to_le_bytes(e.y)
            + spec_u32_to_le_bytes(count_u32(e.pages.len() as int)) + event_magic2() + pb + seq![EVENT_TERMINATOR]
            + rest == event_magic1() + (spec_u32_to_le_bytes(e.id) + (nb + (spec_u32_to_le_bytes(e.x) + (
        spec_u32_to_le_bytes(e.y) + (spec_u32_to_le_bytes(count_u32(e.pages.len() as int)) + (event_magic2() + (
        pb + seq![EVENT_TERMINATOR] + rest))))))),
{
    let t_pages = pb + seq![EVENT_TERMINATOR] + rest;
    let a = event_magic1() + spec_u32_to_le_bytes(e.id) + nb + spec_u32_to_le_bytes(e.x) + spec_u32_to_le_bytes(
        e.y,
    ) + spec_u32_to_le_bytes(count_u32(e.pages.len() as int)) + event_magic2();
    assert(a + pb + seq![EVENT_TERMINATOR] + rest =~= a + t_pages);
    assert(a + t_pages =~= event_magic1() + (spec_u32_to_le_bytes(e.id) + (nb + (spec_u32_to_le_bytes(e.x) + (
    spec_u32_to_le_bytes(e.y) + (spec_u32_to_le_bytes(count_u32(e.pages.len() as int)) + (event_magic2()
        + t_pages)))))));
}

/// Reading back a written event gives the event.
#[verifier::spinoff_prover]
#[verifier::rlimit(40)]
pub proof fn lemma_event_round_trip(e: EventModel, is_utf8: bool, v35: bool, rest: Seq<u8>)
    requires
        event_wf(e, is_utf8, v35),
    ensures
        event_bytes(e, is_utf8, v35) is Some,
        take_event(event_bytes(e, is_utf8, v35)->0 + rest, is_utf8, v35) == Some((e, rest)),
{
    reveal(take_event);
    reveal(event_bytes);
    lemma_take_string_of_written(e.name, is_utf8, Seq::empty());
    lemma_pages_round_trip(e.pages, is_utf8, v35, rest);
    let nb = string_bytes(e.name, is_utf8)->0;
    let pb = pages_bytes(e.pages, is_utf8, v35)->0;
    let pc = count_u32(e.pages.len() as int);
    assert(pc == e.pages.len());
    let t_pages = pb + seq![EVENT_TERMINATOR] + rest;
    let t_m2 = event_magic2() + t_pages;
    let t_pc = spec_u32_to_le_bytes(pc) + t_m2;
    let t_y = spec_u32_to_le_bytes(e.y) + t_pc;
    let t_x = spec_u32_to_le_bytes(e.x) + t_y;
    let t_name = nb + t_x;
    let t_id = spec_u32_to_le_bytes(e.id) + t_name;
    let all = event_magic1() + t_id;
    lemma_event_bytes_shape(e, nb, pb, rest);
    lemma_take_bytes_of_written(event_magic1(), t_id);
    lemma_take_u32_of_written(e.id, t_name);
    lemma_take_string_of_written(e.name, is_utf8, t_x);
    lemma_take_u32_of_written(e.x, t_y);
    lemma_take_u32_of_written(e.y, t_pc);
    lemma_take_u32_of_written(pc, t_m2);
    lemma_take_bytes_of_written(event_magic2(), t_pages);
    assert(take_event_head(all, is_utf8) == Some(((e.id, e.name, e.x, e.y, pc), t_pages)));
}

pub open spec fn pages_view(ps: Seq<PageV3>) -> Seq<PageModel> {
    ps.map_values(|p: PageV3| p@)
}

/// One map event.
#[derive(Debug, Clone, PartialEq)]
pub struct EventV3 {
    pub id: u32,
    pub name: String,
    pub x: u32,
    pub y: u32,
    pub pages: Vec<PageV3>,
}

impl View for EventV3 {
    type V = EventModel;

    open spec fn view(&self) -> EventModel {
        EventModel { id: self.id, name: self.name@, x: self.x, y: self.y, pages: pages_view(self.pages@) }
    }
}

fn four_bytes_equal(a: &[u8], b: &[u8; 4]) -> (r: bool)
    requires
        a@.len() == 4,
    ensures
        r == (a@ == b@),
{
    let r = a[0] == b[0] && a[1] == b[1] && a[2] == b[2] && a[3] == b[3];
    if r {
        assert(a@ =~= b@);
    } else {
        assert(a@[0] != b@[0] || a@[1] != b@[1] || a@[2] != b@[2] || a@[3] != b@[3]);
    }
    r
}

fn read_event_head(reader: &mut ByteReader, is_utf8: bool) -> (res: Result<
    (u32, String, u32, u32, u32),
    V3FormatError,
>)
    requires
        old(reader).wf(),
    ensures
        final(reader).wf(),
        final(reader).input() == old(reader).input(),
        match take_event_head(old(reader).rest(), is_utf8) {
            Some(((id, name, x, y, pc), r)) => res matches Ok(v) && v.0 == id && v.1@ == name
                && v.2 == x && v.3 == y && v.4 == pc && final(reader).rest() == r,
            None => res is Err,
        },
{
    broadcast use vstd::array::lemma_array_index;

    let magic1: [u8; 4] = [0x39, 0x30, 0x00, 0x00];
    let magic2: [u8; 4] = [0x00, 0x00, 0x00, 0x00];
    assert(magic1@ =~= event_magic1());
    assert(magic2@ =~= event_magic2());
    let magic1_offset = reader.position();
    let m1 = reader.read_bytes(4)?;
    if !four_bytes_equal(m1, &magic1) {
        return Err(
            V3FormatError::InvalidMagic {
                offset: magic1_offset,
                expected: vec![0x39, 0x30, 0x00, 0x00],
                found: vstd::slice::slice_to_vec(m1),
                context: "event magic 1",
            },
        );
    }
    let id = reader.read_u32_le()?;
    let name = reader.read_string(is_utf8)?;
    let x = reader.read_u32_le()?;
    let y = reader.read_u32_le()?;
    let page_count = reader.read_u32_le()?;
    let magic2_offset = reader.position();
    let m2 = reader.read_bytes(4)?;
    if !four_bytes_equal(m2, &magic2) {
        return Err(
            V3FormatError::InvalidMagic {
                offset: magic2_offset,
                expected: vec![0x00, 0x00, 0x00, 0x00],
                found: vstd::slice::slice_to_vec(m2),
                context: "event magic 2",
            },
        );
    }
    Ok((id, name, x, y, page_count))
}

/// Reads pages up to the event terminator.
fn read_pages(reader: &mut ByteReader, is_utf8: bool, v35: bool) -> (res: Result<Vec<PageV3>, V3FormatError>)
    requires
        old(reader).wf(),
    ensures
        final(reader).wf(),
        final(reader).input() == old(reader).input(),
        match take_pages(old(reader).rest(), is_utf8, v35) {
            Some((ps, r)) => res matches Ok(v) && pages_view(v@) == ps && final(reader).rest() == r,
            None => res is Err,
        },
{
    let mut pages: Vec<PageV3> = Vec::new();
    let ghost whole = take_pages(old(reader).rest(), is_utf8, v35);
    let mut done = false;
    while !done
        invariant
            reader.wf(),
            reader.input() == old(reader).input(),
            whole == take_pages(old(reader).rest(), is_utf8, v35),
            done ==> whole == Some((pages_view(pages@), reader.rest())),
            !done ==> whole == match take_pages(reader.rest(), is_utf8, v35) {
                None => None,
                Some((ps, r)) => Some((pages_view(pages@) + ps, r)),
            },
        decreases reader.rest().len() + (if done { 0int } else { 1int }),
    {
        let ghost before = reader.rest();
        let indicator_offset = reader.position();
        let indicator = reader.read_u8()?;
        if indicator == PAGE_INDICATOR {
            let ghost after_ind = reader.rest();
            let page = PageV3::parse(reader, is_utf8, v35)?;
            proof {
                lemma_take_page_shrinks(after_ind, is_utf8, v35);
            }
            let ghost old_pages = pages@;
            pages.push(page);
            proof {
                assert(pages_view(pages@) =~= pages_view(old_pages).push(page@));
                match take_pages(reader.rest(), is_utf8, v35) {
                    None => {},
                    Some((ps, r)) => {
                        assert(pages_view(old_pages) + (seq![page@] + ps) =~= pages_view(pages@) + ps);
                    },
                }
            }
        } else if indicator == EVENT_TERMINATOR {
            assert(pages_view(pages@) + Seq::<PageModel>::empty() =~= pages_view(pages@));
            done = true;
        } else {
            return Err(
                V3FormatError::UnexpectedByte {
                    offset: indicator_offset,
                    expected: EVENT_TERMINATOR,
                    found: indicator,
                    context: "event page indicator/terminator",
                },
            );
        }
    }
    Ok(pages)
}

proof fn lemma_pages_bytes_none_extends(ps: Seq<PageModel>, i: int, n: int, is_utf8: bool, v35: bool)
    requires
        0 <= i <= n <= ps.len(),
        pages_bytes(ps.take(i), is_utf8, v35) is None,
    ensures
        pages_bytes(ps.take(n), is_utf8, v35) is None,
    decreases n - i,
{
    if i < n {
        lemma_pages_bytes_none_extends(ps, i, n - 1, is_utf8, v35);
        assert(ps.take(n).drop_last() =~= ps.take(n - 1));
    }
}

fn write_pages(writer: &mut ByteWriter, ps: &Vec<PageV3>, is_utf8: bool, v35: bool) -> (res: Result<
    (),
    V3FormatError,
>)
    ensures
        match pages_bytes(pages_view(ps@), is_utf8, v35) {
            Some(b) => res is Ok && final(writer).written() == old(writer).written() + b,
            None => res is Err,
        },
{
    let ghost pv = pages_view(ps@);
    let mut i: usize = 0;
    assert(pv.take(0) =~= Seq::<PageModel>::empty());
    while i < ps.len()
        invariant
            pv == pages_view(ps@),
            i <= ps.len(),
            pages_bytes(pv.take(i as int), is_utf8, v35) is Some,
            writer.written() == old(writer).written() + pages_bytes(pv.take(i as int), is_utf8, v35)->0,
        decreases ps.len() - i,
    {
        assert(pv.take(i + 1).drop_last() =~= pv.take(i as int));
        assert(pv.take(i + 1).last() == ps@[i as int]@);
        writer.write_u8(PAGE_INDICATOR);
        match ps[i].dump(writer, is_utf8, v35) {
            Ok(()) => {},
            Err(e) => {
                proof {
                    lemma_pages_bytes_none_extends(pv, i + 1, ps.len() as int, is_utf8, v35);
                    assert(pv.take(ps.len() as int) =~= pv);
                }
                return Err(e);
            },
        }
        assert(writer.written() =~= old(writer).written() + pages_bytes(pv.take(i + 1), is_utf8, v35)->0);
        i = i + 1;
    }
    assert(pv.take(ps.len() as int) =~= pv);
    Ok(())
}

impl EventV3 {
    /// Reads one event: its head, then pages up to the terminator; the
    /// number of pages must match the head's count.
    pub fn parse(reader: &mut ByteReader, is_utf8: bool, v35: bool) -> (res: Result<Self, V3FormatError>)
        requires
            old(reader).wf(),
        ensures
            final(reader).wf(),
            final(reader).input() == old(reader).input(),
            match take_event(old(reader).rest(), is_utf8, v35) {
                Some((e, r)) => res matches Ok(v) && v@ == e && final(reader).rest() == r,
                None => res is Err,
            },
            event_fault(old(reader).rest(), is_utf8, v35) matches Some(e) ==> res == Err::<Self, V3FormatError>(e),
    {
        reveal(take_event);
        let ghost s0 = reader.rest();
        let (id, name, x, y, page_count) = match read_event_head(reader, is_utf8) {
            Ok(h) => h,
            Err(e) => {
                assert(take_event_head(s0, is_utf8) is None);
                assert(event_fault(s0, is_utf8, v35) is None);
                return Err(e);
            },
        };
        let ghost r1 = reader.rest();
        let pages = match read_pages(reader, is_utf8, v35) {
            Ok(p) => p,
            Err(e) => {
                assert(take_pages(r1, is_utf8, v35) is None);
                assert(event_fault(s0, is_utf8, v35) is None);
                return Err(e);
            },
        };
        let actual = len_as_u32(pages.len());
        assert(pages_view(pages@).len() == pages@.len());
        if actual != page_count {
            assert(event_fault(s0, is_utf8, v35) == Some(
                V3FormatError::CountMismatch { expected: page_count, actual, context: "event pages" },
            ));
            return Err(
                V3FormatError::CountMismatch { expected: page_count, actual, context: "event pages" },
            );
        }
        Ok(EventV3 { id, name, x, y, pages })
    }

    /// Writes this event — the inverse of `EventV3::parse`.
    pub fn dump(&self, writer: &mut ByteWriter, is_utf8: bool, v35: bool) -> (res: Result<(), V3FormatError>)
        ensures
            match event_bytes(self@, is_utf8, v35) {
                Some(b) => res is Ok && final(writer).written() == old(writer).written() + b,
                None => res is Err,
            },
    {
        reveal(event_bytes);
        broadcast use vstd::array::lemma_array_index;

        let magic1: [u8; 4] = [0x39, 0x30, 0x00, 0x00];
        let magic2: [u8; 4] = [0x00, 0x00, 0x00, 0x00];
        assert(magic1@ =~= event_magic1());
        assert(magic2@ =~= event_magic2());
        writer.write_bytes(magic1.as_slice());
        writer.write_u32_le(self.id);
        let ghost w0 = writer.written();
        writer.write_string(&self.name, is_utf8)?;
        writer.write_u32_le(self.x);
        writer.write_u32_le(self.y);
        writer.write_u32_le(len_as_u32(self.pages.len()));
        writer.write_bytes(magic2.as_slice());
        let ghost w1 = writer.written();
        write_pages(writer, &self.pages, is_utf8, v35)?;
        writer.write_u8(EVENT_TERMINATOR);
        proof {
            let e = self@;
            let nb = string_bytes(e.name, is_utf8)->0;
            let pb = pages_bytes(e.pages, is_utf8, v35)->0;
            assert(w1 =~= old(writer).written() + (event_magic1() + spec_u32_to_le_bytes(e.id) + nb
                + spec_u32_to_le_bytes(e.x) + spec_u32_to_le_bytes(e.y) + spec_u32_to_le_bytes(
                count_u32(e.pages.len() as int),
            ) + event_magic2()));
            assert(writer.written() =~= old(writer).written() + event_bytes(e, is_utf8, v35)->0);
        }
        Ok(())
    }
}

pub proof fn lemma_take_event_shrinks(s: Seq<u8>, is_utf8: bool, v35: bool)
    ensures
        take_event(s, is_utf8, v35) matches Some((_, r)) ==> r.len() < s.len(),
{
    reveal(take_event);
    if let Some((_, r1)) = take_event_head(s, is_utf8) {
        lemma_take_pages_shrinks(r1, is_utf8, v35);
    }
}

pub proof fn lemma_take_pages_shrinks(s: Seq<u8>, is_utf8: bool, v35: bool)
    ensures
        take_pages(s, is_utf8, v35) matches Some((_, r)) ==> r.len() < s.len(),
    decreases s.len(),
{
    if let Some((ind, r)) = take_u8(s) {
        if ind == PAGE_INDICATOR {
            lemma_take_page_shrinks(r, is_utf8, v35);
            if let Some((_, r2)) = take_page(r, is_utf8, v35) {
                lemma_take_pages_shrinks(r2, is_utf8, v35);
            }
        }
    }
}

// ---------------------------------------------------------------------------
// Maps
// ---------------------------------------------------------------------------

/// A `.mps` map.
pub struct MapModel {
    pub magic: Seq<u8>,
    pub version: u32,
    pub unknown2: u8,
    pub unknown3: Seq<char>,
    pub tileset_id: u32,
    pub width: u32,
    pub height: u32,
    pub unknown4: u32,
    pub layer_cnt: u32,
    pub tiles: Option<Seq<u8>>,
    pub events: Seq<EventModel>,
}

/// The size of the tile data: `width * height * layers * 4`, computed in
/// wrapping 32-bit arithmetic.
pub open spec fn tile_len(width: u32, height: u32, layer_cnt: u32) -> u32 {
    vstd::wrapping::u32_specs::wrapping_mul(
        vstd::wrapping::u32_specs::wrapping_mul(
            vstd::wrapping::u32_specs::wrapping_mul(width, height),
            layer_cnt,
        ),
        4,
    )
}

/// The map head: 20-byte magic (byte 16: `0x55` for UTF-8), version,
/// `unknown2`, `unknown3`, tileset, width, height, event count, and for
/// v3.5+ maps `unknown4` and the layer count (otherwise 0 and 3).
pub open spec fn take_map_head(s: Seq<u8>) -> Option<
    ((Seq<u8>, u32, u8, Seq<char>, u32, u32, u32, u32, u32, u32), Seq<u8>),
> {
    match take_bytes(s, 20) {
        None => None,
        Some((magic, r1)) => match take_u32(r1) {
            None => None,
            Some((version, r2)) => match take_u8(r2) {
                None => None,
                Some((u2, r3)) => match take_string(r3, magic[16] == 0x55) {
                    None => None,
                    Some((u3, r4)) => match take_u32(r4) {
                        None => None,
                        Some((ts, r5)) => match take_u32(r5) {
                            None => None,
                            Some((w, r6)) => match take_u32(r6) {
                                None => None,
                                Some((h, r7)) => match take_u32(r7) {
                                    None => None,
                                    Some((ec, r8)) => if version >= VERSION_V35 {
                                        match take_u32(r8) {
                                            None => None,
                                            Some((u4, r9)) => match take_u32(r9) {
                                                None => None,
                                                Some((lc, r10)) => Some(
                                                    ((magic, version, u2, u3, ts, w, h, ec, u4, lc), r10),
                                                ),
                                            },
                                        }
                                    } else {
                                        Some(((magic, version, u2, u3, ts, w, h, ec, 0u32, 3u32), r8))
                                    },
                                },
                            },
                        },
                    },
                },
            },
        },
    }
}

/// The tile data: for UTF-8 maps, a first `u32` of `0xFFFFFFFF` means none,
/// otherwise it starts the `tile_len` bytes (which must be at least 4);
/// Shift-JIS maps always hold `tile_len` bytes.
pub open spec fn take_tiles(s: Seq<u8>, is_utf8: bool, len: u32) -> Option<(Option<Seq<u8>>, Seq<u8>)> {
    if is_utf8 {
        match take_u32(s) {
            None => None,
            Some((marker, r1)) => if marker == NO_TILES_MARKER {
                Some((None, r1))
            } else if len < 4 {
                None
            } else {
                match take_bytes(r1, len - 4) {
                    None => None,
                    Some((b, r2)) => Some((Some(spec_u32_to_le_bytes(marker) + b), r2)),
                }
            },
        }
    } else {
        match take_bytes(s, len as int) {
            None => None,
            Some((b, r1)) => Some((Some(b), r1)),
        }
    }
}

/// Events, each after a `0x6F` byte, up to the map terminator `0x66`.
pub open spec fn take_map_events(s: Seq<u8>, is_utf8: bool, v35: bool) -> Option<
    (Seq<EventModel>, Seq<u8>),
>
    decreases s.len(),
{
    match take_u8(s) {
        None => None,
        Some((ind, r)) => if ind == EVENT_INDICATOR {
            match take_event(r, is_utf8, v35) {
                None => None,
                Some((e, r2)) => {
                    proof {
                        lemma_take_event_shrinks(r, is_utf8, v35);
                    }
                    match take_map_events(r2, is_utf8, v35) {
                        None => None,
                        Some((es, r3)) => Some((seq![e] + es, r3)),
                    }
                },
            }
        } else if ind == MAP_TERMINATOR {
            Some((Seq::empty(), r))
        } else {
            None
        },
    }
}

/// The fault of the events at offset `at` that a read reports by name: a
/// byte, where an event indicator or the terminator is due, that is
/// neither.
pub open spec fn map_events_fault(s: Seq<u8>, at: int) -> Option<V3FormatError>
    decreases s.len(),
{
    match take_u8(s) {
        None => None,
        Some((ind, r)) => if ind == EVENT_INDICATOR {
            None
        } else if ind == MAP_TERMINATOR {
            None
        } else {
            Some(
                V3FormatError::UnexpectedByte {
                    offset: at as usize,
                    expected: MAP_TERMINATOR,
                    found: ind,
                    context: "map event indicator/terminator",
                },
            )
        },
    }
}

/// The fault of the events, in order, that a read reports by name (see
/// `map_events_fault`), the first event at offset `at`.
pub open spec fn map_events_fault_from(s: Seq<u8>, at: int, is_utf8: bool, v35: bool) -> Option<V3FormatError>
    decreases s.len(),
{
    match take_u8(s) {
        None => None,
        Some((ind, r)) => if ind == EVENT_INDICATOR {
            match take_event(r, is_utf8, v35) {
                None => None,
                Some((_, r2)) => {
                    proof {
                        lemma_take_event_shrinks(r, is_utf8, v35);
                    }
                    map_events_fault_from(r2, at + s.len() - r2.len(), is_utf8, v35)
                },
            }
        } else {
            map_events_fault(s, at)
        },
    }
}

/// The fault of a whole map buffer that a read reports by name: a wrong
/// byte where an event indicator or the terminator is due.
pub open spec fn map_fault(s: Seq<u8>) -> Option<V3FormatError> {
    match take_map_head(s) {
        None => None,
        Some(((magic, version, _, _, _, w, h, _, _, lc), r1)) => match take_tiles(
            r1,
            magic[16] == 0x55,
            tile_len(w, h, lc),
        ) {
            None => None,
            Some((_, r2)) => map_events_fault_from(r2, s.len() - r2.len(), magic[16] == 0x55, version >= VERSION_V35),
        },
    }
}

/// A whole map buffer: head, tiles, events; the number of events must
/// match the head's count (modulo 2^32) and nothing may follow.
pub open spec fn take_map(s: Seq<u8>) -> Option<MapModel> {
    match take_map_head(s) {
        None => None,
        Some(((magic, version, u2, u3, ts, w, h, ec, u4, lc), r1)) => {
            let is_utf8 = magic[16] == 0x55;
            let v35 = version >= VERSION_V35;
            match take_tiles(r1, is_utf8, tile_len(w, h, lc)) {
                None => None,
                Some((tiles, r2)) => match take_map_events(r2, is_utf8, v35) {
                    None => None,
                    Some((events, r3)) => if count_u32(events.len() as int) != ec || r3.len() != 0 {
                        None
                    } else {
                        Some(
                            MapModel {
                                magic,
                                version,
                                unknown2: u2,
                                unknown3: u3,
                                tileset_id: ts,
                                width: w,
                                height: h,
                                unknown4: u4,
                                layer_cnt: lc,
                                tiles,
                                events,
                            },
                        )
                    },
                },
            }
        },
    }
}

/// The bytes of events, each after a `0x6F` byte (without the terminator).
pub open spec fn map_events_bytes(es: Seq<EventModel>, is_utf8: bool, v35: bool) -> Option<Seq<u8>>
    decreases es.len(),
{
    if es.len() == 0 {
        Some(Seq::empty())
    } else {
        match (map_events_bytes(es.drop_last(), is_utf8, v35), event_bytes(es.last(), is_utf8, v35)) {
            (Some(a), Some(b)) => Some(a + seq![EVENT_INDICATOR] + b),
            _ => None,
        }
    }
}

/// A map's bytes before its events, given its encoded `unknown3`.
pub open spec fn map_head_bytes(m: MapModel, u3: Seq<u8>) -> Seq<u8> {
    m.magic + spec_u32_to_le_bytes(m.version) + seq![m.unknown2] + u3 + spec_u32_to_le_bytes(
        m.tileset_id,
    ) + spec_u32_to_le_bytes(m.width) + spec_u32_to_le_bytes(m.height) + spec_u32_to_le_bytes(
        count_u32(m.events.len() as int),
    ) + (if m.version >= VERSION_V35 {
        spec_u32_to_le_bytes(m.unknown4) + spec_u32_to_le_bytes(m.layer_cnt)
    } else {
        Seq::empty()
    }) + match m.tiles {
        Some(t) => t,
        None => spec_u32_to_le_bytes(NO_TILES_MARKER),
    }
}

/// The bytes written for a map, or `None` when a string cannot be encoded.
pub open spec fn map_bytes(m: MapModel) -> Option<Seq<u8>> {
    let is_utf8 = m.magic[16] == 0x55;
    let v35 = m.version >= VERSION_V35;
    match (string_bytes(m.unknown3, is_utf8), map_events_bytes(m.events, is_utf8, v35)) {
        (Some(u3), Some(eb)) => Some(map_head_bytes(m, u3) + eb + seq![MAP_TERMINATOR]),
        _ => None,
    }
}

proof fn lemma_map_events_bytes_cons(es: Seq<EventModel>, is_utf8: bool, v35: bool)
    requires
        es.len() > 0,
        forall|i: int| 0 <= i < es.len() ==> (#[trigger] event_bytes(es[i], is_utf8, v35)) is Some,
    ensures
        map_events_bytes(es, is_utf8, v35) is Some,
        map_events_bytes(es.drop_first(), is_utf8, v35) is Some,
        map_events_bytes(es, is_utf8, v35)->0 == seq![EVENT_INDICATOR] + event_bytes(es[0], is_utf8, v35)->0
            + map_events_bytes(es.drop_first(), is_utf8, v35)->0,
    decreases es.len(),
{
    let dl = es.drop_last();
    assert(event_bytes(es[es.len() - 1], is_utf8, v35) is Some);
    if es.len() == 1 {
        assert(dl =~= Seq::<EventModel>::empty());
        assert(es.drop_first() =~= Seq::<EventModel>::empty());
        assert(map_events_bytes(es, is_utf8, v35)->0 =~= seq![EVENT_INDICATOR] + event_bytes(es[0], is_utf8, v35)->0
            + Seq::<u8>::empty());
    } else {
        assert forall|i: int| 0 <= i < dl.len() implies (#[trigger] event_bytes(dl[i], is_utf8, v35)) is Some by {
            assert(dl[i] == es[i]);
        }
        lemma_map_events_bytes_cons(dl, is_utf8, v35);
        let tl = es.drop_first();
        assert(tl.drop_last() =~= dl.drop_first());
        assert(tl.last() == es.last());
        assert(dl[0] == es[0]);
        assert(map_events_bytes(es, is_utf8, v35)->0 =~= seq![EVENT_INDICATOR] + event_bytes(es[0], is_utf8, v35)->0
            + map_events_bytes(tl, is_utf8, v35)->0);
    }
}

/// Reading back written events, followed by the map terminator, gives the
/// events.
#[verifier::spinoff_prover]
#[verifier::rlimit(50)]
pub proof fn lemma_map_events_round_trip(es: Seq<EventModel>, is_utf8: bool, v35: bool, rest: Seq<u8>)
    requires
        forall|i: int| 0 <= i < es.len() ==> event_wf(#[trigger] es[i], is_utf8, v35),
    ensures
        map_events_bytes(es, is_utf8, v35) is Some,
        take_map_events(map_events_bytes(es, is_utf8, v35)->0 + seq![MAP_TERMINATOR] + rest, is_utf8, v35)
            == Some((es, rest)),
    decreases es.len(),
{
    assert forall|i: int| 0 <= i < es.len() implies (#[trigger] event_bytes(es[i], is_utf8, v35)) is Some by {
        lemma_event_round_trip(es[i], is_utf8, v35, Seq::empty());
    }
    if es.len() == 0 {
        assert(map_events_bytes(es, is_utf8, v35)->0 + seq![MAP_TERMINATOR] + rest =~= seq![MAP_TERMINATOR]
            + rest);
        lemma_take_u8_of_written(MAP_TERMINATOR, rest);
        assert(es =~= Seq::<EventModel>::empty());
    } else {
        lemma_map_events_bytes_cons(es, is_utf8, v35);
        let tl = es.drop_first();
        assert forall|i: int| 0 <= i < tl.len() implies event_wf(#[trigger] tl[i], is_utf8, v35) by {
            assert(tl[i] == es[i + 1]);
        }
        lemma_map_events_round_trip(tl, is_utf8, v35, rest);
        let after = map_events_bytes(tl, is_utf8, v35)->0 + seq![MAP_TERMINATOR] + rest;
        lemma_event_round_trip(es[0], is_utf8, v35, after);
        let eb = event_bytes(es[0], is_utf8, v35)->0;
        assert(map_events_bytes(es, is_utf8, v35)->0 + seq![MAP_TERMINATOR] + rest =~= seq![EVENT_INDICATOR]
            + (eb + after));
        lemma_take_u8_of_written(EVENT_INDICATOR, eb + after);
        assert(seq![es[0]] + tl =~= es);
    }
}

/// Tile data that reads back as itself: exactly `tile_len` bytes, and for
/// UTF-8 maps either none or data not starting with the no-tiles marker.
pub open spec fn tiles_wf(m: MapModel, is_utf8: bool) -> bool {
    match m.tiles {
        None => is_utf8,
        Some(t) => {
            &&& t.len() == tile_len(m.width, m.height, m.layer_cnt)
            &&& is_utf8 ==> t.len() >= 4 && spec_u32_from_le_bytes(t.take(4)) != NO_TILES_MARKER
        },
    }
}

/// A map that can be written and read back: a 20-byte magic, a writable
/// `unknown3`, the v3.5 fields at their defaults before v3.5, tile data as
/// `tiles_wf` says, and writable events whose number fits in 32 bits.
pub open spec fn map_wf(m: MapModel) -> bool {
    let is_utf8 = m.magic.len() == 20 && m.magic[16] == 0x55;
    let v35 = m.version >= VERSION_V35;
    &&& m.magic.len() == 20
    &&& string_writable(m.unknown3, is_utf8)
    &&& (!v35 ==> m.unknown4 == 0 && m.layer_cnt == 3)
    &&& tiles_wf(m, is_utf8)
    &&& m.events.len() < 0x1_0000_0000
    &&& forall|i: int| 0 <= i < m.events.len() ==> event_wf(#[trigger] m.events[i], is_utf8, v35)
}

proof fn lemma_tiles_round_trip(m: MapModel, is_utf8: bool, rest: Seq<u8>)
    requires
        tiles_wf(m, is_utf8),
    ensures
        take_tiles(
            match m.tiles {
                Some(t) => t,
                None => spec_u32_to_le_bytes(NO_TILES_MARKER),
            } + rest,
            is_utf8,
            tile_len(m.width, m.height, m.layer_cnt),
        ) == Some((m.tiles, rest)),
{
    lemma_auto_spec_u32_to_from_le_bytes();
    match m.tiles {
        None => {
            lemma_take_u32_of_written(NO_TILES_MARKER, rest);
        },
        Some(t) => {
            if is_utf8 {
                let head = t.take(4);
                let body = t.skip(4);
                assert(t =~= head + body);
                assert(t + rest =~= head + (body + rest));
                let marker = spec_u32_from_le_bytes(head);
                assert(spec_u32_to_le_bytes(marker) == head);
                lemma_take_u32_of_written(marker, body + rest);
                lemma_take_bytes_of_written(body, rest);
                assert(body.len() == tile_len(m.width, m.height, m.layer_cnt) - 4);
            } else {
                lemma_take_bytes_of_written(t, rest);
            }
        },
    }
}

/// The bytes of a map's head, followed by `tail`.
pub open spec fn map_head_then(m: MapModel, u3: Seq<u8>, tail: Seq<u8>) -> Seq<u8> {
    let t_v35 = if m.version >= VERSION_V35 {
        spec_u32_to_le_bytes(m.unknown4) + (spec_u32_to_le_bytes(m.layer_cnt) + tail)
    } else {
        tail
    };
    m.magic + (spec_u32_to_le_bytes(m.version) + (seq![m.unknown2] + (u3 + (spec_u32_to_le_bytes(m.tileset_id) + (
    spec_u32_to_le_bytes(m.width) + (spec_u32_to_le_bytes(m.height) + (spec_u32_to_le_bytes(
        count_u32(m.events.len() as int),
    ) + t_v35)))))))
}

pub open spec fn map_tile_bytes(m: MapModel) -> Seq<u8> {
    match m.tiles {
        Some(t) => t,
        None => spec_u32_to_le_bytes(NO_TILES_MARKER),
    }
}

#[verifier::spinoff_prover]
#[verifier::rlimit(40)]
proof fn lemma_map_head_round_trip(m: MapModel, tail: Seq<u8>)
    requires
        m.magic.len() == 20,
        string_writable(m.unknown3, m.magic[16] == 0x55),
        m.version < VERSION_V35 ==> m.unknown4 == 0 && m.layer_cnt == 3,
    ensures
        string_bytes(m.unknown3, m.magic[16] == 0x55) is Some,
        take_map_head(map_head_then(m, string_bytes(m.unknown3, m.magic[16] == 0x55)->0, tail)) == Some(
            (
                (
                    m.magic,
                    m.version,
                    m.unknown2,
                    m.unknown3,
                    m.tileset_id,
                    m.width,
                    m.height,
                    count_u32(m.events.len() as int),
                    m.unknown4,
                    m.layer_cnt,
                ),
                tail,
            ),
        ),
{
    let is_utf8 = m.magic[16] == 0x55;
    lemma_take_string_of_written(m.unknown3, is_utf8, Seq::empty());
    let u3 = string_bytes(m.unknown3, is_utf8)->0;
    let ec = count_u32(m.events.len() as int);
    let t_v35 = if m.version >= VERSION_V35 {
        spec_u32_to_le_bytes(m.unknown4) + (spec_u32_to_le_bytes(m.layer_cnt) + tail)
    } else {
        tail
    };
    let t_ec = spec_u32_to_le_bytes(ec) + t_v35;
    let t_h = spec_u32_to_le_bytes(m.height) + t_ec;
    let t_w = spec_u32_to_le_bytes(m.width) + t_h;
    let t_ts = spec_u32_to_le_bytes(m.tileset_id) + t_w;
    let t_u3 = u3 + t_ts;
    let t_u2 = seq![m.unknown2] + t_u3;
    let t_ver = spec_u32_to_le_bytes(m.version) + t_u2;
    lemma_take_bytes_of_written(m.magic, t_ver);
    lemma_take_u32_of_written(m.version, t_u2);
    lemma_take_u8_of_written(m.unknown2, t_u3);
    lemma_take_string_of_written(m.unknown3, is_utf8, t_ts);
    lemma_take_u32_of_written(m.tileset_id, t_w);
    lemma_take_u32_of_written(m.width, t_h);
    lemma_take_u32_of_written(m.height, t_ec);
    lemma_take_u32_of_written(ec, t_v35);
    if m.version >= VERSION_V35 {
        lemma_take_u32_of_written(m.unknown4, spec_u32_to_le_bytes(m.layer_cnt) + tail);
        lemma_take_u32_of_written(m.layer_cnt, tail);
    }
}

#[verifier::spinoff_prover]
#[verifier::rlimit(40)]
proof fn lemma_map_bytes_shape(m: MapModel, u3: Seq<u8>, eb: Seq<u8>)
    ensures
        map_head_bytes(m, u3) + eb + seq![MAP_TERMINATOR] == map_head_then(
            m,
            u3,
            map_tile_bytes(m) + (eb + seq![MAP_TERMINATOR]),
        ),
{
    let tail = map_tile_bytes(m) + (eb + seq![MAP_TERMINATOR]);
    let v35_part = if m.version >= VERSION_V35 {
        spec_u32_to_le_bytes(m.unknown4) + spec_u32_to_le_bytes(m.layer_cnt)
    } else {
        Seq::<u8>::empty()
    };
    let t_v35 = if m.version >= VERSION_V35 {
        spec_u32_to_le_bytes(m.unknown4) + (spec_u32_to_le_bytes(m.layer_cnt) + tail)
    } else {
        tail
    };
    assert(v35_part + tail =~= t_v35);
    let pre = m.magic + spec_u32_to_le_bytes(m.version) + seq![m.unknown2] + u3 + spec_u32_to_le_bytes(m.tileset_id)
        + spec_u32_to_le_bytes(m.width) + spec_u32_to_le_bytes(m.height) + spec_u32_to_le_bytes(
        count_u32(m.events.len() as int),
    );
    assert(pre + t_v35 =~= map_head_then(m, u3, tail));
    assert(map_head_bytes(m, u3) =~= pre + v35_part + map_tile_bytes(m));
    assert(map_head_bytes(m, u3) + eb + seq![MAP_TERMINATOR] =~= pre + (v35_part + tail));
}

/// Reading back a written map gives the map.
#[verifier::spinoff_prover]
#[verifier::rlimit(80)]
pub proof fn lemma_map_round_trip(m: MapModel)
    requires
        map_wf(m),
    ensures
        map_bytes(m) is Some,
        take_map(map_bytes(m)->0) == Some(m),
{
    let is_utf8 = m.magic[16] == 0x55;
    let v35 = m.version >= VERSION_V35;
    lemma_take_string_of_written(m.unknown3, is_utf8, Seq::empty());
    lemma_map_events_round_trip(m.events, is_utf8, v35, Seq::empty());
    let u3 = string_bytes(m.unknown3, is_utf8)->0;
    let eb = map_events_bytes(m.events, is_utf8, v35)->0;
    assert(eb + seq![MAP_TERMINATOR] + Seq::<u8>::empty() =~= eb + seq![MAP_TERMINATOR]);
    let t_events = eb + seq![MAP_TERMINATOR];
    let t_tiles = map_tile_bytes(m) + t_events;
    lemma_map_bytes_shape(m, u3, eb);
    lemma_map_head_round_trip(m, t_tiles);
    lemma_tiles_round_trip(m, is_utf8, t_events);
    let all = map_head_then(m, u3, t_tiles);
    assert(map_bytes(m) == Some(all));
    assert(count_u32(m.events.len() as int) == m.events.len());
    assert(take_tiles(t_tiles, is_utf8, tile_len(m.width, m.height, m.layer_cnt)) == Some((m.tiles, t_events)));
    assert(take_map_events(t_events, is_utf8, v35) == Some((m.events, Seq::<u8>::empty())));
}

pub open spec fn events_view(es: Seq<EventV3>) -> Seq<EventModel> {
    es.map_values(|e: EventV3| e@)
}

/// A `.mps` map, as the decompressed `header[0..25] ++ payload` buffer holds it.
#[derive(Debug, Clone, PartialEq)]
pub struct MapV3 {
    /// 20-byte file magic; byte 16 is `0x55` for UTF-8 maps.
    pub magic: [u8; 20],
    pub version: u32,
    pub unknown2: u8,
    pub unknown3: String,
    pub tileset_id: u32,
    pub width: u32,
    pub height: u32,
    /// Only meaningful for v3.5+ maps; 0 otherwise.
    pub unknown4: u32,
    /// 3 for maps before v3.5.
    pub layer_cnt: u32,
    /// `None` only for UTF-8 maps without tile data.
    pub tiles: Option<Vec<u8>>,
    pub events: Vec<EventV3>,
}

impl View for MapV3 {
    type V = MapModel;

    open spec fn view(&self) -> MapModel {
        MapModel {
            magic: self.magic@,
            version: self.version,
            unknown2: self.unknown2,
            unknown3: self.unknown3@,
            tileset_id: self.tileset_id,
            width: self.width,
            height: self.height,
            unknown4: self.unknown4,
            layer_cnt: self.layer_cnt,
            tiles: match self.tiles {
                Some(t) => Some(t@),
                None => None,
            },
            events: events_view(self.events@),
        }
    }
}

#[verifier::rlimit(40)]
#[verifier::spinoff_prover]
fn read_map_events(reader: &mut ByteReader, is_utf8: bool, v35: bool) -> (res: Result<
    Vec<EventV3>,
    V3FormatError,
>)
    requires
        old(reader).wf(),
    ensures
        final(reader).wf(),
        final(reader).input() == old(reader).input(),
        match take_map_events(old(reader).rest(), is_utf8, v35) {
            Some((es, r)) => res matches Ok(v) && events_view(v@) == es && final(reader).rest() == r,
            None => res is Err,
        },
        map_events_fault_from(old(reader).rest(), old(reader).offset(), is_utf8, v35) matches Some(e) ==> res matches Err(
            x,
        ) && x == e,
{
    let mut events: Vec<EventV3> = Vec::new();
    let ghost fault = map_events_fault_from(old(reader).rest(), old(reader).offset(), is_utf8, v35);
    let ghost whole = take_map_events(old(reader).rest(), is_utf8, v35);
    let mut done = false;
    while !done
        invariant
            reader.wf(),
            reader.input() == old(reader).input(),
            whole == take_map_events(old(reader).rest(), is_utf8, v35),
            done ==> whole == Some((events_view(events@), reader.rest())),
            fault == map_events_fault_from(old(reader).rest(), old(reader).offset(), is_utf8, v35),
            done ==> fault is None,
            !done ==> fault == map_events_fault_from(reader.rest(), reader.offset(), is_utf8, v35),
            !done ==> whole == match take_map_events(reader.rest(), is_utf8, v35) {
                None => None,
                Some((es, r)) => Some((events_view(events@) + es, r)),
            },
        decreases reader.rest().len() + (if done { 0int } else { 1int }),
    {
        let indicator_offset = reader.position();
        let ghost before = reader.rest();
        let ghost at = reader.offset();
        let indicator = match reader.read_u8() {
            Ok(b) => b,
            Err(e) => {
                assert(take_u8(before) is None);
                assert(map_events_fault_from(before, at, is_utf8, v35) is None);
                return Err(e);
            },
        };
        if indicator == EVENT_INDICATOR {
            let ghost after_ind = reader.rest();
            let event = EventV3::parse(reader, is_utf8, v35)?;
            proof {
                lemma_take_event_shrinks(after_ind, is_utf8, v35);
            }
            let ghost old_events = events@;
            events.push(event);
            proof {
                assert(events_view(events@) =~= events_view(old_events).push(event@));
                match take_map_events(reader.rest(), is_utf8, v35) {
                    None => {},
                    Some((es, r)) => {
                        assert(events_view(old_events) + (seq![event@] + es) =~= events_view(events@) + es);
                    },
                }
            }
        } else if indicator == MAP_TERMINATOR {
            assert(events_view(events@) + Seq::<EventModel>::empty() =~= events_view(events@));
            done = true;
        } else {
            let e = V3FormatError::UnexpectedByte {
                offset: indicator_offset,
                expected: MAP_TERMINATOR,
                found: indicator,
                context: "map event indicator/terminator",
            };
            assert(before[0] == indicator);
            assert(map_events_fault(before, at) == Some(e));
            assert(map_events_fault_from(before, at, is_utf8, v35) == Some(e));
            return Err(e);
        }
    }
    Ok(events)
}

fn read_map_head(reader: &mut ByteReader) -> (res: Result<
    ([u8; 20], u32, u8, String, u32, u32, u32, u32, u32, u32),
    V3FormatError,
>)
    requires
        old(reader).wf(),
    ensures
        final(reader).wf(),
        final(reader).input() == old(reader).input(),
        match take_map_head(old(reader).rest()) {
            Some(((magic, version, u2, u3, ts, w, h, ec, u4, lc), r)) => res matches Ok(v) && v.0@
                == magic && v.1 == version && v.2 == u2 && v.3@ == u3 && v.4 == ts && v.5 == w && v.6
                == h && v.7 == ec && v.8 == u4 && v.9 == lc && final(reader).rest() == r,
            None => res is Err,
        },
{
    let mb = reader.read_bytes(20)?;
    let magic: [u8; 20] = [
        mb[0],
        mb[1],
        mb[2],
        mb[3],
        mb[4],
        mb[5],
        mb[6],
        mb[7],
        mb[8],
        mb[9],
        mb[10],
        mb[11],
        mb[12],
        mb[13],
        mb[14],
        mb[15],
        mb[16],
        mb[17],
        mb[18],
        mb[19],
    ];
    proof {
        broadcast use vstd::array::lemma_array_index;

        assert(magic@ =~= mb@);
    }
    let is_utf8 = magic[16] == 0x55;
    let version = reader.read_u32_le()?;
    let unknown2 = reader.read_u8()?;
    let unknown3 = reader.read_string(is_utf8)?;
    let tileset_id = reader.read_u32_le()?;
    let width = reader.read_u32_le()?;
    let height = reader.read_u32_le()?;
    let event_count = reader.read_u32_le()?;
    let (unknown4, layer_cnt) = if version >= VERSION_V35 {
        let u4 = reader.read_u32_le()?;
        let lc = reader.read_u32_le()?;
        (u4, lc)
    } else {
        (0, 3)
    };
    Ok((magic, version, unknown2, unknown3, tileset_id, width, height, event_count, unknown4, layer_cnt))
}

fn read_tiles(reader: &mut ByteReader, is_utf8: bool, len: u32) -> (res: Result<Option<Vec<u8>>, V3FormatError>)
    requires
        old(reader).wf(),
    ensures
        final(reader).wf(),
        final(reader).input() == old(reader).input(),
        match take_tiles(old(reader).rest(), is_utf8, len) {
            Some((t, r)) => res matches Ok(v) && (match v {
                Some(b) => t == Some(b@),
                None => t is None,
            }) && final(reader).rest() == r,
            None => res is Err,
        },
{
    if is_utf8 {
        let marker_offset = reader.position();
        let marker = reader.read_u32_le()?;
        if marker == NO_TILES_MARKER {
            Ok(None)
        } else {
            if len < 4 {
                return Err(
                    V3FormatError::UnexpectedEof {
                        offset: marker_offset,
                        needed: 4,
                        available: len as usize,
                    },
                );
            }
            let mut data = u32_to_le_bytes(marker);
            let rest = reader.read_bytes((len - 4) as usize)?;
            let mut tail = vstd::slice::slice_to_vec(rest);
            data.append(&mut tail);
            Ok(Some(data))
        }
    } else {
        let b = reader.read_bytes(len as usize)?;
        Ok(Some(vstd::slice::slice_to_vec(b)))
    }
}

proof fn lemma_map_events_bytes_none_extends(es: Seq<EventModel>, i: int, n: int, is_utf8: bool, v35: bool)
    requires
        0 <= i <= n <= es.len(),
        map_events_bytes(es.take(i), is_utf8, v35) is None,
    ensures
        map_events_bytes(es.take(n), is_utf8, v35) is None,
    decreases n - i,
{
    if i < n {
        lemma_map_events_bytes_none_extends(es, i, n - 1, is_utf8, v35);
        assert(es.take(n).drop_last() =~= es.take(n - 1));
    }
}

#[verifier::rlimit(40)]
#[verifier::spinoff_prover]
fn write_map_events(writer: &mut ByteWriter, es: &Vec<EventV3>, is_utf8: bool, v35: bool) -> (res:
    Result<(), V3FormatError>)
    ensures
        match map_events_bytes(events_view(es@), is_utf8, v35) {
            Some(b) => res is Ok && final(writer).written() == old(writer).written() + b,
            None => res is Err,
        },
{
    let ghost ev = events_view(es@);
    let mut i: usize = 0;
    assert(ev.take(0) =~= Seq::<EventModel>::empty());
    while i < es.len()
        invariant
            ev == events_view(es@),
            i <= es.len(),
            map_events_bytes(ev.take(i as int), is_utf8, v35) is Some,
            writer.written() == old(writer).written() + map_events_bytes(ev.take(i as int), is_utf8, v35)->0,
        decreases es.len() - i,
    {
        assert(ev.take(i + 1).drop_last() =~= ev.take(i as int));
        assert(ev.take(i + 1).last() == es@[i as int]@);
        writer.write_u8(EVENT_INDICATOR);
        match es[i].dump(writer, is_utf8, v35) {
            Ok(()) => {},
            Err(e) => {
                proof {
                    lemma_map_events_bytes_none_extends(ev, i + 1, es.len() as int, is_utf8, v35);
                    assert(ev.take(es.len() as int) =~= ev);
                }
                return Err(e);
            },
        }
        assert(writer.written() =~= old(writer).written() + map_events_bytes(ev.take(i + 1), is_utf8, v35)->0);
        i = i + 1;
    }
    assert(ev.take(es.len() as int) =~= ev);
    Ok(())
}

impl MapV3 {
    /// Byte 16 of the magic flags UTF-8 text.
    pub fn is_utf8(&self) -> (r: bool)
        ensures
            r == (self.magic@[16] == 0x55),
    {
        self.magic[16] == 0x55
    }

    /// Version 0x67 and later are v3.5+.
    pub fn is_v35(&self) -> (r: bool)
        ensures
            r == (self.version >= VERSION_V35),
    {
        self.version >= VERSION_V35
    }

    /// Parses the decompressed `header[0..25] ++ payload` buffer of a map
    /// (see `take_map`).
    pub fn parse(bytes: &[u8]) -> (res: Result<Self, V3FormatError>)
        ensures
            match take_map(bytes@) {
                Some(m) => res matches Ok(v) && v@ == m,
                None => res is Err,
            },
            map_fault(bytes@) matches Some(e) ==> res == Err::<Self, V3FormatError>(e),
    {
        let mut reader = ByteReader::new(bytes);
        let (magic, version, unknown2, unknown3, tileset_id, width, height, event_count, unknown4, layer_cnt) =
            read_map_head(&mut reader)?;
        let is_utf8 = magic[16] == 0x55;
        let v35 = version >= VERSION_V35;
        let len = width.wrapping_mul(height).wrapping_mul(layer_cnt).wrapping_mul(4);
        let tiles = read_tiles(&mut reader, is_utf8, len)?;
        let events = read_map_events(&mut reader, is_utf8, v35)?;
        let actual = len_as_u32(events.len());
        if actual != event_count {
            return Err(
                V3FormatError::CountMismatch { expected: event_count, actual, context: "map events" },
            );
        }
        if reader.remaining() != 0 {
            return Err(
                V3FormatError::TrailingData {
                    offset: reader.position(),
                    remaining: reader.remaining(),
                },
            );
        }
        let m = MapV3 {
            magic,
            version,
            unknown2,
            unknown3,
            tileset_id,
            width,
            height,
            unknown4,
            layer_cnt,
            tiles,
            events,
        };
        Ok(m)
    }

    fn dump_head(&self, writer: &mut ByteWriter) -> (res: Result<(), V3FormatError>)
        ensures
            match string_bytes(self@.unknown3, self@.magic[16] == 0x55) {
                Some(u3) => res is Ok && final(writer).written() == old(writer).written()
                    + map_head_bytes(self@, u3),
                None => res is Err,
            },
    {
        let is_utf8 = self.is_utf8();
        let v35 = self.is_v35();
        writer.write_bytes(self.magic.as_slice());
        writer.write_u32_le(self.version);
        writer.write_u8(self.unknown2);
        writer.write_string(&self.unknown3, is_utf8)?;
        writer.write_u32_le(self.tileset_id);
        writer.write_u32_le(self.width);
        writer.write_u32_le(self.height);
        writer.write_u32_le(len_as_u32(self.events.len()));
        if v35 {
            writer.write_u32_le(self.unknown4);
            writer.write_u32_le(self.layer_cnt);
        }
        match &self.tiles {
            Some(t) => writer.write_bytes(t.as_slice()),
            None => writer.write_u32_le(NO_TILES_MARKER),
        }
        proof {
            let u3 = string_bytes(self@.unknown3, is_utf8)->0;
            assert(writer.written() =~= old(writer).written() + map_head_bytes(self@, u3));
        }
        Ok(())
    }

    /// Writes the `header[0..25] ++ payload` buffer — the inverse of
    /// `MapV3::parse`.
    pub fn dump(&self) -> (res: Result<Vec<u8>, V3FormatError>)
        ensures
            match map_bytes(self@) {
                Some(b) => res matches Ok(v) && v@ == b,
                None => res is Err,
            },
    {
        let is_utf8 = self.is_utf8();
        let v35 = self.is_v35();
        let mut writer = ByteWriter::new();
        self.dump_head(&mut writer)?;
        write_map_events(&mut writer, &self.events, is_utf8, v35)?;
        writer.write_u8(MAP_TERMINATOR);
        proof {
            let m = self@;
            let u3 = string_bytes(m.unknown3, is_utf8)->0;
            let eb = map_events_bytes(m.events, is_utf8, v35)->0;
            assert(writer.written() =~= map_head_bytes(m, u3) + eb + seq![MAP_TERMINATOR]);
        }
        Ok(writer.into_bytes())
    }
}

// ---------------------------------------------------------------------------
// The byte that ends a page
// ---------------------------------------------------------------------------

proof fn lemma_page_graphic_suffix(s: Seq<u8>, is_utf8: bool)
    ensures
        take_page_graphic(s, is_utf8) matches Some((_, r)) ==> is_suffix(r, s),
{
    if let Some((_, r)) = take_page_graphic(s, is_utf8) {
        let (_, r1) = take_u32(s)->0;
        let (_, r2) = take_string(r1, is_utf8)->0;
        let (_, r3) = take_u8(r2)->0;
        let (_, r4) = take_u8(r3)->0;
        let (_, r5) = take_u8(r4)->0;
        lemma_take_u32_suffix(s);
        lemma_take_string_suffix(r1, is_utf8);
        lemma_take_u8_suffix(r2);
        lemma_take_u8_suffix(r3);
        lemma_take_u8_suffix(r4);
        lemma_take_u8_suffix(r5);
        lemma_suffix_trans(r2, r1, s);
        lemma_suffix_trans(r3, r2, s);
        lemma_suffix_trans(r4, r3, s);
        lemma_suffix_trans(r5, r4, s);
        lemma_suffix_trans(r, r5, s);
    }
}

proof fn lemma_page_moves_suffix(s: Seq<u8>)
    ensures
        take_page_moves(s) matches Some((_, r)) ==> is_suffix(r, s),
{
    if let Some((_, r)) = take_page_moves(s) {
        let (_, r1) = take_bytes(s, CONDITIONS_LEN as int)->0;
        let (_, r2) = take_bytes(r1, MOVEMENT_LEN as int)->0;
        let (_, r3) = take_u8(r2)->0;
        let (_, r4) = take_u8(r3)->0;
        let (n, r5) = take_u32(r4)->0;
        lemma_take_bytes_suffix(s, CONDITIONS_LEN as int);
        lemma_take_bytes_suffix(r1, MOVEMENT_LEN as int);
        lemma_take_u8_suffix(r2);
        lemma_take_u8_suffix(r3);
        lemma_take_u32_suffix(r4);
        lemma_take_route_suffix(r5, n as nat);
        lemma_suffix_trans(r2, r1, s);
        lemma_suffix_trans(r3, r2, s);
        lemma_suffix_trans(r4, r3, s);
        lemma_suffix_trans(r5, r4, s);
        lemma_suffix_trans(r, r5, s);
    }
}

proof fn lemma_page_tail_end(s: Seq<u8>, is_utf8: bool, v35: bool)
    ensures
        take_page_tail(s, is_utf8, v35) matches Some((_, r)) ==> is_suffix(r, s) && r.len() < s.len() && s[s.len()
            - r.len() - 1] == PAGE_TERMINATOR,
{
    if let Some((_, r)) = take_page_tail(s, is_utf8, v35) {
        let (n, r1) = take_u32(s)->0;
        let (_, r2) = take_commands(r1, n as nat, is_utf8, v35)->0;
        let (feat, r3) = take_u32(r2)->0;
        let (_, r4) = take_u8(r3)->0;
        let (_, r5) = take_u8(r4)->0;
        let (_, r6) = take_u8(r5)->0;
        lemma_take_u32_suffix(s);
        lemma_take_commands_suffix(r1, n as nat, is_utf8, v35);
        lemma_take_u32_suffix(r2);
        lemma_take_u8_suffix(r3);
        lemma_take_u8_suffix(r4);
        lemma_take_u8_suffix(r5);
        lemma_suffix_trans(r2, r1, s);
        lemma_suffix_trans(r3, r2, s);
        lemma_suffix_trans(r4, r3, s);
        lemma_suffix_trans(r5, r4, s);
        lemma_suffix_trans(r6, r5, s);
        let r7 = if feat > 3 {
            lemma_take_u8_suffix(r6);
            let (_, x) = take_u8(r6)->0;
            x
        } else {
            r6
        };
        if feat > 3 {
            lemma_suffix_trans(r7, r6, s);
        } else {
            lemma_suffix_refl(r6);
        }
        assert(is_suffix(r7, s));
        lemma_take_u8_suffix(r7);
        lemma_suffix_trans(r, r7, s);
        assert(r7[0] == PAGE_TERMINATOR);
        assert(r == r7.skip(1));
        assert(s[s.len() - r.len() - 1] == r7[0]);
    }
}

/// Every page read ends with the page terminator `0x7A`: the last byte it
/// takes from its input is that byte.
pub proof fn lemma_page_ends_with_terminator(s: Seq<u8>, is_utf8: bool, v35: bool)
    ensures
        take_page(s, is_utf8, v35) matches Some((_, r)) ==> r.len() < s.len() && s[s.len() - r.len() - 1]
            == PAGE_TERMINATOR,
{
    reveal(take_page);
    if let Some((_, r)) = take_page(s, is_utf8, v35) {
        let (_, r1) = take_page_graphic(s, is_utf8)->0;
        let (_, r2) = take_page_moves(r1)->0;
        lemma_page_graphic_suffix(s, is_utf8);
        lemma_page_moves_suffix(r1);
        lemma_suffix_trans(r2, r1, s);
        lemma_page_tail_end(r2, is_utf8, v35);
        assert(s[s.len() - r.len() - 1] == r2[r2.len() - r.len() - 1]);
    }
}

} // verus!

//! Wolf RPG text extraction: the translatable strings of maps, common
//! events and databases, each under a key that the injector can find again.
use vstd::prelude::*;

use crate::detector::WolfVersion;
use crate::wolf::dat_parser::{
    append_decimal, database_of, decimal, field_is_string, field_is_valid, parse_database, DatEntry,
    DatField, DatFieldModel, DatTypeModel, DatEntryModel, DatParseError,
};
use crate::wolf::text_filter::{
    contains_japanese, has_japanese, is_known_translatable_field, is_resource_path, is_translatable,
    is_wolf_placeholder_only, known_translatable_field, placeholder_only, resource_path, trim_str,
    translatable, trimmed,
};
use crate::wolf::v3::command::{commands_view, Command, CommandModel, CID_CHOICES, CID_MESSAGE};
use crate::wolf::v3::common_events::{self, take_common_events, CommonEventModel, CommonEventsV3};
use crate::wolf::v3::compression::{self, block_result, decompress_v3, unwrap_block, BlockOutcome};
use crate::wolf::v3::map::{take_map, EventModel, MapModel, MapV3, PageModel};
use crate::wolf::v3::V3FormatError;

verus! {

// ---------------------------------------------------------------------------
// Errors and output types
// ---------------------------------------------------------------------------

/// Why a file yielded no segments.
#[derive(Debug)]
pub enum ExtractorError {
    /// A map or common-event file did not parse.
    MapParser(String),
    /// A database did not parse.
    DatParse { file: String, reason: String },
    Encoding(String),
    UnsupportedVersion(u8, u8),
}

/// Where a segment comes from.
#[derive(Debug, Clone)]
pub enum WolfSegmentKind {
    /// Dialogue or a choice on a map page.
    MapMessage { map_name: String, event_idx: usize, page_idx: usize, cmd_idx: usize },
    /// A string field of a database entry.
    DatabaseField { db_name: String, type_idx: usize, entry_idx: usize, field_name: String },
    /// Dialogue or a choice in a common event.
    CommonEventMessage { event_name: String, event_idx: usize, cmd_idx: usize },
}

pub enum KindView {
    MapMessage { map_name: Seq<char>, event_idx: nat, page_idx: nat, cmd_idx: nat },
    DatabaseField { db_name: Seq<char>, type_idx: nat, entry_idx: nat, field_name: Seq<char> },
    CommonEventMessage { event_name: Seq<char>, event_idx: nat, cmd_idx: nat },
}

impl View for WolfSegmentKind {
    type V = KindView;

    open spec fn view(&self) -> KindView {
        match self {
            WolfSegmentKind::MapMessage { map_name, event_idx, page_idx, cmd_idx } => KindView::MapMessage {
                map_name: map_name@,
                event_idx: *event_idx as nat,
                page_idx: *page_idx as nat,
                cmd_idx: *cmd_idx as nat,
            },
            WolfSegmentKind::DatabaseField { db_name, type_idx, entry_idx, field_name } => KindView::DatabaseField {
                db_name: db_name@,
                type_idx: *type_idx as nat,
                entry_idx: *entry_idx as nat,
                field_name: field_name@,
            },
            WolfSegmentKind::CommonEventMessage { event_name, event_idx, cmd_idx } => KindView::CommonEventMessage {
                event_name: event_name@,
                event_idx: *event_idx as nat,
                cmd_idx: *cmd_idx as nat,
            },
        }
    }
}

/// One translatable string and the key under which it is written back.
#[derive(Debug, Clone)]
pub struct WolfSegment {
    /// e.g. `MapData/Map001/events/0/pages/0/42` or `Database/Actors/0/0/name`.
    pub key: String,
    pub source_text: String,
    pub kind: WolfSegmentKind,
}

pub struct SegmentView {
    pub key: Seq<char>,
    pub source_text: Seq<char>,
    pub kind: KindView,
}

impl View for WolfSegment {
    type V = SegmentView;

    open spec fn view(&self) -> SegmentView {
        SegmentView { key: self.key@, source_text: self.source_text@, kind: self.kind@ }
    }
}

pub open spec fn segments_view(ss: Seq<WolfSegment>) -> Seq<SegmentView> {
    ss.map_values(|s: WolfSegment| s@)
}

// ---------------------------------------------------------------------------
// Commands (maps and common events)
// ---------------------------------------------------------------------------

/// The segments of the choices `cs[0..n]`, keyed `{prefix}/choices/{k}`.
pub open spec fn choice_segments(prefix: Seq<char>, kind: KindView, cs: Seq<Seq<char>>, n: nat) -> Seq<
    SegmentView,
>
    decreases n,
{
    if n == 0 || n > cs.len() {
        Seq::empty()
    } else {
        let k = (n - 1) as nat;
        let rest = choice_segments(prefix, kind, cs, k);
        if translatable(cs[k as int]) {
            rest.push(
                SegmentView {
                    key: prefix + "/choices/"@ + decimal(k),
                    source_text: cs[k as int],
                    kind,
                },
            )
        } else {
            rest
        }
    }
}

/// The segments of one command keyed `prefix`: a message gives its first
/// string, a choice command each choice; other commands give nothing.
pub open spec fn command_segments(prefix: Seq<char>, kind: KindView, c: CommandModel) -> Seq<SegmentView> {
    if c.cid == CID_MESSAGE {
        if c.string_args.len() > 0 && translatable(c.string_args[0]) {
            seq![SegmentView { key: prefix, source_text: c.string_args[0], kind }]
        } else {
            Seq::empty()
        }
    } else if c.cid == CID_CHOICES {
        choice_segments(prefix, kind, c.string_args, c.string_args.len())
    } else {
        Seq::empty()
    }
}

/// Where a list of commands stands: a map page or a common event.
#[derive(Debug, Clone)]
pub enum CommandScope {
    MapPage { map_name: String, event_idx: usize, page_idx: usize },
    CommonEvent { event_name: String, event_idx: usize },
}

pub enum ScopeView {
    MapPage { map_name: Seq<char>, event_idx: nat, page_idx: nat },
    CommonEvent { event_name: Seq<char>, event_idx: nat },
}

impl View for CommandScope {
    type V = ScopeView;

    open spec fn view(&self) -> ScopeView {
        match self {
            CommandScope::MapPage { map_name, event_idx, page_idx } => ScopeView::MapPage {
                map_name: map_name@,
                event_idx: *event_idx as nat,
                page_idx: *page_idx as nat,
            },
            CommandScope::CommonEvent { event_name, event_idx } => ScopeView::CommonEvent {
                event_name: event_name@,
                event_idx: *event_idx as nat,
            },
        }
    }
}

/// The key of command `ci` in a scope, without the trailing index:
/// `MapData/{map}/events/{e}/pages/{p}/` or `CommonEvents/{name}/{e}/`.
pub open spec fn scope_key_head(s: ScopeView) -> Seq<char> {
    match s {
        ScopeView::MapPage { map_name, event_idx, page_idx } => "MapData/"@ + map_name + "/events/"@
            + decimal(event_idx) + "/pages/"@ + decimal(page_idx) + "/"@,
        ScopeView::CommonEvent { event_name, event_idx } => "CommonEvents/"@ + event_name + "/"@
            + decimal(event_idx) + "/"@,
    }
}

pub open spec fn scope_kind(s: ScopeView, ci: nat) -> KindView {
    match s {
        ScopeView::MapPage { map_name, event_idx, page_idx } => KindView::MapMessage {
            map_name,
            event_idx,
            page_idx,
            cmd_idx: ci,
        },
        ScopeView::CommonEvent { event_name, event_idx } => KindView::CommonEventMessage {
            event_name,
            event_idx,
            cmd_idx: ci,
        },
    }
}

/// The segments of the commands `cs` of one scope, in order.
pub open spec fn command_list_segments(s: ScopeView, cs: Seq<CommandModel>) -> Seq<SegmentView>
    decreases cs.len(),
{
    if cs.len() == 0 {
        Seq::empty()
    } else {
        let ci = (cs.len() - 1) as nat;
        command_list_segments(s, cs.drop_last()) + command_segments(
            scope_key_head(s) + decimal(ci),
            scope_kind(s, ci),
            cs.last(),
        )
    }
}

impl CommandScope {
    pub fn key_head(&self) -> (h: String)
        ensures
            h@ == scope_key_head(self@),
    {
        match self {
            CommandScope::MapPage { map_name, event_idx, page_idx } => {
                let a = String::from_str("MapData/").concat(map_name.as_str()).concat("/events/");
                let b = append_decimal(a, *event_idx).concat("/pages/");
                append_decimal(b, *page_idx).concat("/")
            },
            CommandScope::CommonEvent { event_name, event_idx } => {
                let a = String::from_str("CommonEvents/").concat(event_name.as_str()).concat("/");
                append_decimal(a, *event_idx).concat("/")
            },
        }
    }

    fn kind_at(&self, ci: usize) -> (k: WolfSegmentKind)
        ensures
            k@ == scope_kind(self@, ci as nat),
    {
        match self {
            CommandScope::MapPage { map_name, event_idx, page_idx } => WolfSegmentKind::MapMessage {
                map_name: map_name.clone(),
                event_idx: *event_idx,
                page_idx: *page_idx,
                cmd_idx: ci,
            },
            CommandScope::CommonEvent { event_name, event_idx } => WolfSegmentKind::CommonEventMessage {
                event_name: event_name.clone(),
                event_idx: *event_idx,
                cmd_idx: ci,
            },
        }
    }
}

fn push_command_segments(out: &mut Vec<WolfSegment>, scope: &CommandScope, prefix: String, ci: usize, cmd: &Command)
    ensures
        segments_view(final(out)@) == segments_view(old(out)@) + command_segments(
            prefix@,
            scope_kind(scope@, ci as nat),
            cmd@,
        ),
{
    let ghost start = segments_view(out@);
    let ghost kind = scope_kind(scope@, ci as nat);
    if cmd.cid == CID_MESSAGE {
        if cmd.string_args.len() > 0 && is_translatable(cmd.string_args[0].as_str()) {
            let seg = WolfSegment {
                key: prefix,
                source_text: cmd.string_args[0].clone(),
                kind: scope.kind_at(ci),
            };
            out.push(seg);
            assert(segments_view(out@) =~= start + command_segments(prefix@, kind, cmd@));
        } else {
            assert(segments_view(out@) =~= start + command_segments(prefix@, kind, cmd@));
        }
    } else if cmd.cid == CID_CHOICES {
        let cs = &cmd.string_args;
        let ghost csv = cmd@.string_args;
        let mut k: usize = 0;
        assert(segments_view(out@) =~= start + choice_segments(prefix@, kind, csv, 0));
        while k < cs.len()
            invariant
                k <= cs@.len(),
                csv == cmd@.string_args,
                csv.len() == cs@.len(),
                forall|j: int| 0 <= j < cs@.len() ==> csv[j] == #[trigger] cs@[j]@,
                kind == scope_kind(scope@, ci as nat),
                segments_view(out@) == start + choice_segments(prefix@, kind, csv, k as nat),
            decreases cs@.len() - k,
        {
            let ghost before = segments_view(out@);
            let ghost text = csv[k as int];
            assert(cs@[k as int]@ == text);
            if is_translatable(cs[k].as_str()) {
                let key = append_decimal(prefix.clone().concat("/choices/"), k);
                let seg = WolfSegment { key, source_text: cs[k].clone(), kind: scope.kind_at(ci) };
                assert(seg@ == SegmentView {
                    key: prefix@ + "/choices/"@ + decimal(k as nat),
                    source_text: text,
                    kind,
                });
                out.push(seg);
                assert(segments_view(out@) =~= before.push(seg@));
            }
            assert(segments_view(out@) =~= start + choice_segments(prefix@, kind, csv, (k + 1) as nat));
            k = k + 1;
        }
    } else {
        assert(segments_view(out@) =~= start + command_segments(prefix@, kind, cmd@));
    }
}

/// Appends the segments of the commands `cmds` of one scope to `out`.
pub fn push_command_list_segments(out: &mut Vec<WolfSegment>, scope: &CommandScope, cmds: &Vec<Command>)
    ensures
        segments_view(final(out)@) == segments_view(old(out)@) + command_list_segments(
            scope@,
            commands_view(cmds@),
        ),
{
    let ghost start = segments_view(out@);
    let ghost cv = commands_view(cmds@);
    let head = scope.key_head();
    let mut ci: usize = 0;
    assert(cv.take(0) =~= Seq::<CommandModel>::empty());
    while ci < cmds.len()
        invariant
            ci <= cmds@.len(),
            cv == commands_view(cmds@),
            head@ == scope_key_head(scope@),
            segments_view(out@) == start + command_list_segments(scope@, cv.take(ci as int)),
        decreases cmds@.len() - ci,
    {
        let prefix = append_decimal(head.clone(), ci);
        push_command_segments(out, scope, prefix, ci, &cmds[ci]);
        assert(cv.take(ci + 1).drop_last() =~= cv.take(ci as int));
        assert(segments_view(out@) =~= start + command_list_segments(scope@, cv.take(ci + 1)));
        ci = ci + 1;
    }
    assert(cv.take(ci as int) =~= cv);
}


// ---------------------------------------------------------------------------
// Maps
// ---------------------------------------------------------------------------

/// The commands of each page of each event of a map.
pub type CommandTree = Seq<Seq<Seq<CommandModel>>>;

pub open spec fn map_command_tree(m: MapModel) -> CommandTree {
    m.events.map_values(|e: EventModel| e.pages.map_values(|p: PageModel| p.commands))
}

/// The segments of the pages of event `ei`, page by page.
pub open spec fn event_segments(map_name: Seq<char>, ei: nat, pages: Seq<Seq<CommandModel>>) -> Seq<
    SegmentView,
>
    decreases pages.len(),
{
    if pages.len() == 0 {
        Seq::empty()
    } else {
        let pi = (pages.len() - 1) as nat;
        event_segments(map_name, ei, pages.drop_last()) + command_list_segments(
            ScopeView::MapPage { map_name, event_idx: ei, page_idx: pi },
            pages.last(),
        )
    }
}

/// The segments of a map, event by event.
pub open spec fn map_segments_of(map_name: Seq<char>, events: CommandTree) -> Seq<SegmentView>
    decreases events.len(),
{
    if events.len() == 0 {
        Seq::empty()
    } else {
        let ei = (events.len() - 1) as nat;
        map_segments_of(map_name, events.drop_last()) + event_segments(map_name, ei, events.last())
    }
}

pub open spec fn tree_view(events: Seq<Vec<Vec<Command>>>) -> CommandTree {
    events.map_values(|ps: Vec<Vec<Command>>| ps@.map_values(|cs: Vec<Command>| commands_view(cs@)))
}

fn push_event_segments(out: &mut Vec<WolfSegment>, map_name: &str, ei: usize, pages: &Vec<Vec<Command>>)
    ensures
        segments_view(final(out)@) == segments_view(old(out)@) + event_segments(
            map_name@,
            ei as nat,
            pages@.map_values(|cs: Vec<Command>| commands_view(cs@)),
        ),
{
    let ghost start = segments_view(out@);
    let ghost pv = pages@.map_values(|cs: Vec<Command>| commands_view(cs@));
    let mut pi: usize = 0;
    assert(pv.take(0) =~= Seq::<Seq<CommandModel>>::empty());
    while pi < pages.len()
        invariant
            pi <= pages@.len(),
            pv == pages@.map_values(|cs: Vec<Command>| commands_view(cs@)),
            segments_view(out@) == start + event_segments(map_name@, ei as nat, pv.take(pi as int)),
        decreases pages@.len() - pi,
    {
        let scope = CommandScope::MapPage { map_name: map_name.to_owned(), event_idx: ei, page_idx: pi };
        push_command_list_segments(out, &scope, &pages[pi]);
        assert(pv.take(pi + 1).drop_last() =~= pv.take(pi as int));
        assert(segments_view(out@) =~= start + event_segments(map_name@, ei as nat, pv.take(pi + 1)));
        pi = pi + 1;
    }
    assert(pv.take(pi as int) =~= pv);
}

/// The segments of a map given as the commands of each page of each event,
/// in event, page and command order. Keys read
/// `MapData/{map}/events/{e}/pages/{p}/{c}`, with `/choices/{k}` after a
/// choice.
pub fn map_segments(map_name: &str, events: &Vec<Vec<Vec<Command>>>) -> (segs: Vec<WolfSegment>)
    ensures
        segments_view(segs@) == map_segments_of(map_name@, tree_view(events@)),
{
    let mut out: Vec<WolfSegment> = Vec::new();
    let ghost tv = tree_view(events@);
    let mut ei: usize = 0;
    assert(tv.take(0) =~= CommandTree::empty());
    assert(segments_view(out@) =~= Seq::<SegmentView>::empty());
    while ei < events.len()
        invariant
            ei <= events@.len(),
            tv == tree_view(events@),
            segments_view(out@) == map_segments_of(map_name@, tv.take(ei as int)),
        decreases events@.len() - ei,
    {
        push_event_segments(&mut out, map_name, ei, &events[ei]);
        assert(tv.take(ei + 1).drop_last() =~= tv.take(ei as int));
        assert(segments_view(out@) =~= map_segments_of(map_name@, tv.take(ei + 1)));
        ei = ei + 1;
    }
    assert(tv.take(ei as int) =~= tv);
    out
}

fn push_map_event_segments(out: &mut Vec<WolfSegment>, map_name: &str, ei: usize, pages: &Vec<crate::wolf::v3::map::PageV3>)
    ensures
        segments_view(final(out)@) == segments_view(old(out)@) + event_segments(
            map_name@,
            ei as nat,
            pages@.map_values(|p: crate::wolf::v3::map::PageV3| p@.commands),
        ),
{
    let ghost start = segments_view(out@);
    let ghost pv = pages@.map_values(|p: crate::wolf::v3::map::PageV3| p@.commands);
    let mut pi: usize = 0;
    assert(pv.take(0) =~= Seq::<Seq<CommandModel>>::empty());
    while pi < pages.len()
        invariant
            pi <= pages@.len(),
            pv == pages@.map_values(|p: crate::wolf::v3::map::PageV3| p@.commands),
            segments_view(out@) == start + event_segments(map_name@, ei as nat, pv.take(pi as int)),
        decreases pages@.len() - pi,
    {
        let scope = CommandScope::MapPage { map_name: map_name.to_owned(), event_idx: ei, page_idx: pi };
        push_command_list_segments(out, &scope, &pages[pi].commands);
        assert(pv.take(pi + 1).drop_last() =~= pv.take(pi as int));
        assert(segments_view(out@) =~= start + event_segments(map_name@, ei as nat, pv.take(pi + 1)));
        pi = pi + 1;
    }
    assert(pv.take(pi as int) =~= pv);
}

/// The segments of a parsed v3 map (see `map_segments`).
pub fn map_v3_segments(map_name: &str, map: &MapV3) -> (segs: Vec<WolfSegment>)
    ensures
        segments_view(segs@) == map_segments_of(map_name@, map_command_tree(map@)),
{
    let mut out: Vec<WolfSegment> = Vec::new();
    let ghost tv = map_command_tree(map@);
    let events = &map.events;
    let mut ei: usize = 0;
    assert(tv.take(0) =~= CommandTree::empty());
    assert(segments_view(out@) =~= Seq::<SegmentView>::empty());
    while ei < events.len()
        invariant
            ei <= events@.len(),
            events@ == map.events@,
            tv == map_command_tree(map@),
            segments_view(out@) == map_segments_of(map_name@, tv.take(ei as int)),
        decreases events@.len() - ei,
    {
        push_map_event_segments(&mut out, map_name, ei, &events[ei].pages);
        assert(events@[ei as int]@.pages == crate::wolf::v3::map::pages_view(events@[ei as int].pages@));
        assert(events@[ei as int].pages@.map_values(|p: crate::wolf::v3::map::PageV3| p@.commands)
            =~= tv[ei as int]);
        assert(tv.take(ei + 1).drop_last() =~= tv.take(ei as int));
        assert(segments_view(out@) =~= map_segments_of(map_name@, tv.take(ei + 1)));
        ei = ei + 1;
    }
    assert(tv.take(ei as int) =~= tv);
    out
}

/// The decompressed `header ++ payload` of an LZ4 block, if it unwraps.
pub open spec fn block_payload(o: BlockOutcome) -> Option<Seq<u8>> {
    match o {
        BlockOutcome::Done(b) => Some(b),
        _ => None,
    }
}

/// The segments of a v3 `.mps` file: `None` when it does not decompress or
/// parse.
pub open spec fn v3_map_segments(map_name: Seq<char>, bytes: Seq<u8>) -> Option<Seq<SegmentView>> {
    match block_payload(unwrap_block(bytes, compression::HEADER_SIZE)) {
        None => None,
        Some(d) => match take_map(d) {
            None => None,
            Some(m) => Some(map_segments_of(map_name, map_command_tree(m))),
        },
    }
}

fn parser_error(name: &str, what: &str) -> (e: ExtractorError)
    ensures
        e matches ExtractorError::MapParser(m) && m@ == name@ + ": "@ + what@,
{
    ExtractorError::MapParser(String::from_str(name).concat(": ").concat(what))
}

/// What a v3 read failure is called in an extraction error.
pub open spec fn v3_error_description(e: V3FormatError) -> Seq<char> {
    match e {
        V3FormatError::UnexpectedEof { .. } => "unexpected end of data"@,
        V3FormatError::ZeroLengthString { .. } => "zero-length string"@,
        V3FormatError::InvalidEncoding { .. } => "invalid text encoding"@,
        V3FormatError::InvalidArgsCount { .. } => "invalid argument count"@,
        V3FormatError::InvalidTerminator { .. } => "invalid command terminator"@,
        V3FormatError::InvalidRouteMagic { .. } => "invalid route magic"@,
        V3FormatError::Lz4Block { .. } => "LZ4 block error"@,
        V3FormatError::InvalidMagic { .. } => "invalid magic"@,
        V3FormatError::UnexpectedByte { .. } => "unexpected byte"@,
        V3FormatError::CountMismatch { .. } => "count mismatch"@,
        V3FormatError::TrailingData { .. } => "trailing data"@,
    }
}

fn v3_error_text(e: &V3FormatError) -> (t: &'static str)
    ensures
        t@ == v3_error_description(*e),
{
    match e {
        V3FormatError::UnexpectedEof { .. } => "unexpected end of data",
        V3FormatError::ZeroLengthString { .. } => "zero-length string",
        V3FormatError::InvalidEncoding { .. } => "invalid text encoding",
        V3FormatError::InvalidArgsCount { .. } => "invalid argument count",
        V3FormatError::InvalidTerminator { .. } => "invalid command terminator",
        V3FormatError::InvalidRouteMagic { .. } => "invalid route magic",
        V3FormatError::Lz4Block { .. } => "LZ4 block error",
        V3FormatError::InvalidMagic { .. } => "invalid magic",
        V3FormatError::UnexpectedByte { .. } => "unexpected byte",
        V3FormatError::CountMismatch { .. } => "count mismatch",
        V3FormatError::TrailingData { .. } => "trailing data",
    }
}

/// Extracts the segments of a v3 (LZ4-compressed) `.mps` map.
pub fn extract_map_segments_v3(map_name: &str, bytes: &[u8]) -> (res: Result<Vec<WolfSegment>, ExtractorError>)
    ensures
        match v3_map_segments(map_name@, bytes@) {
            Some(s) => res matches Ok(v) && segments_view(v@) == s,
            None => res matches Err(e) && e is MapParser,
        },
{
    let decompressed = match decompress_v3(bytes) {
        Ok(d) => d,
        Err(e) => {
            return Err(parser_error(map_name, v3_error_text(&e)));
        },
    };
    let map = match MapV3::parse(decompressed.as_slice()) {
        Ok(m) => m,
        Err(e) => {
            return Err(parser_error(map_name, v3_error_text(&e)));
        },
    };
    Ok(map_v3_segments(map_name, &map))
}

// ---------------------------------------------------------------------------
// Common events
// ---------------------------------------------------------------------------

/// The segments of common events, event by event; keys read
/// `CommonEvents/{name}/{e}/{c}`.
pub open spec fn common_event_segments_of(events: Seq<CommonEventModel>) -> Seq<SegmentView>
    decreases events.len(),
{
    if events.len() == 0 {
        Seq::empty()
    } else {
        let ei = (events.len() - 1) as nat;
        common_event_segments_of(events.drop_last()) + command_list_segments(
            ScopeView::CommonEvent { event_name: events.last().name, event_idx: ei },
            events.last().commands,
        )
    }
}

/// The segments of a v3.5 `CommonEvent.dat`: `None` when it does not
/// decompress or parse.
pub open spec fn v3_common_event_segments(bytes: Seq<u8>) -> Option<Seq<SegmentView>> {
    match block_payload(unwrap_block(bytes, common_events::HEADER_SIZE)) {
        None => None,
        Some(d) => match take_common_events(d) {
            None => None,
            Some(m) => Some(common_event_segments_of(m.events)),
        },
    }
}

/// The segments of parsed v3.5 common events.
pub fn common_events_v3_segments(ces: &CommonEventsV3) -> (segs: Vec<WolfSegment>)
    ensures
        segments_view(segs@) == common_event_segments_of(ces@.events),
{
    let mut out: Vec<WolfSegment> = Vec::new();
    let ghost ev = ces@.events;
    let events = &ces.events;
    let mut ei: usize = 0;
    assert(ev.take(0) =~= Seq::<CommonEventModel>::empty());
    assert(segments_view(out@) =~= Seq::<SegmentView>::empty());
    while ei < events.len()
        invariant
            ei <= events@.len(),
            events@ == ces.events@,
            ev == ces@.events,
            ev.len() == events@.len(),
            forall|j: int| 0 <= j < ev.len() ==> ev[j] == #[trigger] events@[j]@,
            segments_view(out@) == common_event_segments_of(ev.take(ei as int)),
        decreases events@.len() - ei,
    {
        let scope = CommandScope::CommonEvent { event_name: events[ei].name.clone(), event_idx: ei };
        push_command_list_segments(&mut out, &scope, &events[ei].commands);
        assert(ev[ei as int] == events@[ei as int]@);
        assert(ev.take(ei + 1).drop_last() =~= ev.take(ei as int));
        assert(segments_view(out@) =~= common_event_segments_of(ev.take(ei + 1)));
        ei = ei + 1;
    }
    assert(ev.take(ei as int) =~= ev);
    out
}

/// The segments of common events given as (name, commands) pairs, event
/// by event.
pub open spec fn named_command_lists_segments(events: Seq<(Seq<char>, Seq<CommandModel>)>) -> Seq<SegmentView>
    decreases events.len(),
{
    if events.len() == 0 {
        Seq::empty()
    } else {
        let ei = (events.len() - 1) as nat;
        named_command_lists_segments(events.drop_last()) + command_list_segments(
            ScopeView::CommonEvent { event_name: events.last().0, event_idx: ei },
            events.last().1,
        )
    }
}

pub open spec fn named_lists_view(events: Seq<(String, Vec<Command>)>) -> Seq<(Seq<char>, Seq<CommandModel>)> {
    events.map_values(|e: (String, Vec<Command>)| (e.0@, commands_view(e.1@)))
}

/// The segments of common events read by another parser (the v2 format):
/// each event's name and its commands.
pub fn common_events_v2_segments(events: &Vec<(String, Vec<Command>)>) -> (segs: Vec<WolfSegment>)
    ensures
        segments_view(segs@) == named_command_lists_segments(named_lists_view(events@)),
{
    let mut out: Vec<WolfSegment> = Vec::new();
    let ghost ev = named_lists_view(events@);
    let mut ei: usize = 0;
    assert(ev.take(0) =~= Seq::<(Seq<char>, Seq<CommandModel>)>::empty());
    assert(segments_view(out@) =~= Seq::<SegmentView>::empty());
    while ei < events.len()
        invariant
            ei <= events@.len(),
            ev == named_lists_view(events@),
            ev.len() == events@.len(),
            segments_view(out@) == named_command_lists_segments(ev.take(ei as int)),
        decreases events@.len() - ei,
    {
        let scope = CommandScope::CommonEvent { event_name: events[ei].0.clone(), event_idx: ei };
        push_command_list_segments(&mut out, &scope, &events[ei].1);
        assert(ev[ei as int] == (events@[ei as int].0@, commands_view(events@[ei as int].1@)));
        assert(ev.take(ei + 1).drop_last() =~= ev.take(ei as int));
        assert(segments_view(out@) =~= named_command_lists_segments(ev.take(ei + 1)));
        ei = ei + 1;
    }
    assert(ev.take(ei as int) =~= ev);
    out
}

/// Extracts the segments of a v3.5 (LZ4-compressed) `CommonEvent.dat`.
pub fn extract_common_events_v3(bytes: &[u8]) -> (res: Result<Vec<WolfSegment>, ExtractorError>)
    ensures
        match v3_common_event_segments(bytes@) {
            Some(s) => res matches Ok(v) && segments_view(v@) == s,
            None => res matches Err(e) && e is MapParser,
        },
{
    let decompressed = match common_events::decompress(bytes) {
        Ok(d) => d,
        Err(e) => {
            return Err(parser_error("CommonEvent.dat", v3_error_text(&e)));
        },
    };
    let ces = match CommonEventsV3::parse(decompressed.as_slice()) {
        Ok(c) => c,
        Err(e) => {
            return Err(parser_error("CommonEvent.dat", v3_error_text(&e)));
        },
    };
    Ok(common_events_v3_segments(&ces))
}

// ---------------------------------------------------------------------------
// Databases
// ---------------------------------------------------------------------------

/// How many of `fields[0..n]` are valid string fields: the position of the
/// next string value in an entry.
pub open spec fn string_slot(fields: Seq<DatFieldModel>, n: int) -> nat
    decreases n,
{
    if n <= 0 || n > fields.len() {
        0
    } else {
        string_slot(fields, n - 1) + if field_is_valid(fields[n - 1]) && field_is_string(fields[n - 1]) {
            1nat
        } else {
            0nat
        }
    }
}

/// A database value is extracted when it is not blank, not placeholders
/// alone, not a resource path, and its field has a known translatable name
/// or the value holds Japanese text.
pub open spec fn keep_database_value(field_name: Seq<char>, v: Seq<char>) -> bool {
    &&& trimmed(v).len() > 0
    &&& !placeholder_only(v)
    &&& !resource_path(trimmed(v))
    &&& (known_translatable_field(field_name) || has_japanese(v))
}

/// `Database/{db}/{type}/{entry}/{field}`.
pub open spec fn database_key(db: Seq<char>, ti: nat, ei: nat, field: Seq<char>) -> Seq<char> {
    "Database/"@ + db + "/"@ + decimal(ti) + "/"@ + decimal(ei) + "/"@ + field
}

/// The segments of the first `n` fields of entry `ei` of type `ti`, whose
/// string values are `values`, one per valid string field in order.
pub open spec fn entry_segments(
    db: Seq<char>,
    ti: nat,
    ei: nat,
    fields: Seq<DatFieldModel>,
    values: Seq<Seq<char>>,
    n: int,
) -> Seq<SegmentView>
    decreases n,
{
    if n <= 0 || n > fields.len() {
        Seq::empty()
    } else {
        let prev = entry_segments(db, ti, ei, fields, values, n - 1);
        let f = fields[n - 1];
        let pos = string_slot(fields, n - 1);
        if field_is_valid(f) && field_is_string(f) && pos < values.len() && keep_database_value(
            f.name,
            values[pos as int],
        ) {
            prev.push(
                SegmentView {
                    key: database_key(db, ti, ei, f.name),
                    source_text: values[pos as int],
                    kind: KindView::DatabaseField { db_name: db, type_idx: ti, entry_idx: ei, field_name: f.name },
                },
            )
        } else {
            prev
        }
    }
}

/// The segments of the entries `es` of type `ti`, entry by entry.
pub open spec fn type_segments(db: Seq<char>, ti: nat, fields: Seq<DatFieldModel>, es: Seq<DatEntryModel>) -> Seq<
    SegmentView,
>
    decreases es.len(),
{
    if es.len() == 0 {
        Seq::empty()
    } else {
        let ei = (es.len() - 1) as nat;
        type_segments(db, ti, fields, es.drop_last()) + entry_segments(
            db,
            ti,
            ei,
            fields,
            es.last().string_values,
            fields.len() as int,
        )
    }
}

/// The segments of a database, type by type.
pub open spec fn database_segments_of(db: Seq<char>, ts: Seq<DatTypeModel>) -> Seq<SegmentView>
    decreases ts.len(),
{
    if ts.len() == 0 {
        Seq::empty()
    } else {
        let ti = (ts.len() - 1) as nat;
        database_segments_of(db, ts.drop_last()) + type_segments(db, ti, ts.last().fields, ts.last().entries)
    }
}

fn keep_value(field_name: &str, value: &str) -> (r: bool)
    ensures
        r == keep_database_value(field_name@, value@),
{
    let t = trim_str(value);
    if t.unicode_len() == 0 {
        return false;
    }
    if is_wolf_placeholder_only(value) {
        return false;
    }
    if is_resource_path(t) {
        return false;
    }
    is_known_translatable_field(field_name) || contains_japanese(value)
}

fn push_entry_segments(
    out: &mut Vec<WolfSegment>,
    db_name: &str,
    ti: usize,
    ei: usize,
    fields: &Vec<DatField>,
    entry: &DatEntry,
)
    ensures
        segments_view(final(out)@) == segments_view(old(out)@) + entry_segments(
            db_name@,
            ti as nat,
            ei as nat,
            crate::wolf::dat_parser::fields_view(fields@),
            entry@.string_values,
            fields@.len() as int,
        ),
{
    let ghost start = segments_view(out@);
    let ghost fv = crate::wolf::dat_parser::fields_view(fields@);
    let ghost vals = entry@.string_values;
    let mut k: usize = 0;
    let mut str_pos: usize = 0;
    while k < fields.len()
        invariant
            k <= fields@.len(),
            fv == crate::wolf::dat_parser::fields_view(fields@),
            vals == entry@.string_values,
            str_pos == string_slot(fv, k as int),
            str_pos <= k,
            segments_view(out@) == start + entry_segments(db_name@, ti as nat, ei as nat, fv, vals, k as int),
        decreases fields@.len() - k,
    {
        let field = &fields[k];
        assert(fv[k as int] == field@);
        let ghost before = segments_view(out@);
        if field.is_valid() && field.is_string() {
            if str_pos < entry.string_values.len() {
                let value = &entry.string_values[str_pos];
                assert(vals[str_pos as int] == value@);
                if keep_value(field.name.as_str(), value.as_str()) {
                    let key = append_decimal(
                        append_decimal(String::from_str("Database/").concat(db_name).concat("/"), ti).concat(
                            "/",
                        ),
                        ei,
                    ).concat("/").concat(field.name.as_str());
                    let seg = WolfSegment {
                        key,
                        source_text: value.clone(),
                        kind: WolfSegmentKind::DatabaseField {
                            db_name: db_name.to_owned(),
                            type_idx: ti,
                            entry_idx: ei,
                            field_name: field.name.clone(),
                        },
                    };
                    out.push(seg);
                    assert(segments_view(out@) =~= before.push(seg@));
                }
            }
            str_pos = str_pos + 1;
        }
        assert(segments_view(out@) =~= start + entry_segments(
            db_name@,
            ti as nat,
            ei as nat,
            fv,
            vals,
            k + 1,
        ));
        k = k + 1;
    }
}

fn push_type_segments(out: &mut Vec<WolfSegment>, db_name: &str, ti: usize, t: &crate::wolf::dat_parser::DatType)
    ensures
        segments_view(final(out)@) == segments_view(old(out)@) + type_segments(
            db_name@,
            ti as nat,
            t@.fields,
            t@.entries,
        ),
{
    let ghost start = segments_view(out@);
    let ghost ev = t@.entries;
    let mut ei: usize = 0;
    assert(ev.take(0) =~= Seq::<DatEntryModel>::empty());
    while ei < t.entries.len()
        invariant
            ei <= t.entries@.len(),
            ev == t@.entries,
            ev.len() == t.entries@.len(),
            segments_view(out@) == start + type_segments(db_name@, ti as nat, t@.fields, ev.take(ei as int)),
        decreases t.entries@.len() - ei,
    {
        push_entry_segments(out, db_name, ti, ei, &t.fields, &t.entries[ei]);
        assert(ev[ei as int] == t.entries@[ei as int]@);
        assert(ev.take(ei + 1).drop_last() =~= ev.take(ei as int));
        assert(segments_view(out@) =~= start + type_segments(db_name@, ti as nat, t@.fields, ev.take(ei + 1)));
        ei = ei + 1;
    }
    assert(ev.take(ei as int) =~= ev);
}

/// Extracts the translatable string values of a database (`.project`
/// schema and `.dat` values), type by type, entry by entry, field by field.
/// Only valid string fields are read; a value is kept under the conditions
/// of `keep_database_value`.
pub fn extract_database_segments(
    db_name: &str,
    project_bytes: &[u8],
    dat_bytes: &[u8],
    _version: &WolfVersion,
) -> (res: Result<Vec<WolfSegment>, ExtractorError>)
    ensures
        match database_of(project_bytes@, dat_bytes@) {
            Some(db) => res matches Ok(v) && segments_view(v@) == database_segments_of(db_name@, db.types),
            None => res matches Err(ExtractorError::DatParse { file, .. }) && file@ == db_name@,
        },
{
    let db = match parse_database(project_bytes, dat_bytes) {
        Ok(db) => db,
        Err(e) => {
            return Err(ExtractorError::DatParse { file: db_name.to_owned(), reason: e.message() });
        },
    };
    let mut out: Vec<WolfSegment> = Vec::new();
    let ghost tv = db@.types;
    let mut ti: usize = 0;
    assert(tv.take(0) =~= Seq::<DatTypeModel>::empty());
    assert(segments_view(out@) =~= Seq::<SegmentView>::empty());
    while ti < db.types.len()
        invariant
            ti <= db.types@.len(),
            tv == db@.types,
            tv.len() == db.types@.len(),
            segments_view(out@) == database_segments_of(db_name@, tv.take(ti as int)),
        decreases db.types@.len() - ti,
    {
        push_type_segments(&mut out, db_name, ti, &db.types[ti]);
        assert(tv[ti as int] == db.types@[ti as int]@);
        assert(tv.take(ti + 1).drop_last() =~= tv.take(ti as int));
        assert(segments_view(out@) =~= database_segments_of(db_name@, tv.take(ti + 1)));
        ti = ti + 1;
    }
    assert(tv.take(ti as int) =~= tv);
    Ok(out)
}

// ---------------------------------------------------------------------------
// Command signatures of v2 maps
// ---------------------------------------------------------------------------

/// The `CallCommonEvent` variants (`[v D2 00 00]`) that v2 map parsers know.
pub open spec fn known_call_variant(v: u8) -> bool {
    v == 0x03 || v == 0x05 || v == 0x06 || v == 0x07 || v == 0x0B
}

/// Byte `i` after normalisation: the first byte of an unknown
/// `[v D2 00 00]` signature becomes `0x06`, that of a `[v D3 00 00]` with
/// `v != 0x03` becomes `0x03`; every other byte stays.
pub open spec fn normalized_byte(s: Seq<u8>, i: int) -> u8 {
    if i + 3 < s.len() && s[i + 1] == 0xD2 && s[i + 2] == 0 && s[i + 3] == 0 {
        if known_call_variant(s[i]) {
            s[i]
        } else {
            0x06
        }
    } else if i + 3 < s.len() && s[i + 1] == 0xD3 && s[i + 2] == 0 && s[i + 3] == 0 && s[i] != 0x03 {
        0x03
    } else {
        s[i]
    }
}

/// Rewrites the `CallCommonEvent` (`[v D2 00 00]`) and `ReserveCommonEvent`
/// (`[v D3 00 00]`) signatures whose variant byte a v2 map parser does not
/// know to a known variant of the same layout (see `normalized_byte`).
/// Each byte is decided on the bytes as they were before the call.
pub fn normalize_wolf_command_signatures(bytes: &mut Vec<u8>)
    ensures
        final(bytes)@.len() == old(bytes)@.len(),
        forall|i: int| 0 <= i < old(bytes)@.len() ==> #[trigger] final(bytes)@[i] == normalized_byte(old(bytes)@, i),
{
    let ghost orig = bytes@;
    let len = bytes.len();
    if len < 4 {
        return;
    }
    let mut i: usize = 0;
    while i + 3 < len
        invariant
            len == orig.len(),
            bytes@.len() == len,
            len >= 4,
            i <= len - 3,
            forall|j: int| 0 <= j < i ==> #[trigger] bytes@[j] == normalized_byte(orig, j),
            forall|j: int| i <= j < len ==> #[trigger] bytes@[j] == orig[j],
        decreases len - i,
    {
        let v = bytes[i];
        if bytes[i + 1] == 0xD2 && bytes[i + 2] == 0x00 && bytes[i + 3] == 0x00 {
            if !(v == 0x03 || v == 0x05 || v == 0x06 || v == 0x07 || v == 0x0B) {
                bytes.set(i, 0x06);
            }
        } else if bytes[i + 1] == 0xD3 && bytes[i + 2] == 0x00 && bytes[i + 3] == 0x00 && v != 0x03 {
            bytes.set(i, 0x03);
        }
        assert(bytes@[i as int] == normalized_byte(orig, i as int));
        i = i + 1;
    }
    assert forall|j: int| i <= j < len implies #[trigger] bytes@[j] == normalized_byte(orig, j) by {
        assert(j + 3 >= len);
    }
}

} // verus!

//! RPG Maker MV/MZ extractor: the translatable text of the `data/*.json`
//! files, each with the JSON Pointer (RFC 6901) key the injector writes
//! back through.
//!
//! Dialogue lines, speaker names and choices made of escape codes alone
//! are skipped; the escape-code syntax is given as a regular expression
//! (`placeholders`), as the editor's tokenizer defines it.
use vstd::prelude::*;

use crate::json::{
    all_point, distinct_plain_keys, indices_view, join_pointer, json_array, json_get, json_get_array, json_get_str,
    json_int, json_object, json_str, lemma_all_point_concat, lemma_join_push, lemma_leaf, lemma_member_at,
    lemma_pairs_identity, lemma_walk_element, lemma_walk_member, member_keys, member_order, plain_token, plain_tokens,
    resolve, seg_pairs, seq_get, sorted_order, tree, write_all, Json, JsonTree, PointerFault,
};
use crate::wolf::dat_parser::{append_decimal, decimal};
use crate::wolf::text_filter::{has_text_besides_placeholders, is_blank, placeholder_free_rest, trimmed};

verus! {

/// What a text unit is, for the translator's context.
#[derive(Debug, Clone, Copy, PartialEq, Eq, Structural)]
pub enum SegmentKind {
    /// A line of dialogue (event code 401).
    Dialogue,
    /// The speaker name of an MZ message header (event code 101, parameter 4).
    Speaker,
    /// A choice (event code 102).
    Choice,
    ActorName,
    ActorNickname,
    ActorProfile,
    ClassName,
    ItemName,
    ItemDescription,
    SkillName,
    SkillDescription,
    /// A skill's in-battle message.
    SkillMessage,
    EnemyName,
    StateName,
    /// A state's apply, persist or remove message.
    StateMessage,
    MapName,
    CommonEventName,
    /// The currency unit or a term of the system.
    SystemTerm,
    GameTitle,
}

/// One translatable text unit.
#[derive(Debug, Clone)]
pub struct ExtractedSegment {
    /// The JSON Pointer of the text in its file.
    pub key: String,
    /// The text.
    pub source: String,
    pub kind: SegmentKind,
}

pub type SegV = (Seq<char>, Seq<char>, SegmentKind);

pub open spec fn segs_view(s: Seq<ExtractedSegment>) -> Seq<SegV> {
    s.map_values(|x: ExtractedSegment| (x.key@, x.source@, x.kind))
}

fn segment(key: String, source: &str, kind: SegmentKind) -> (s: ExtractedSegment)
    ensures
        s.key@ == key@,
        s.source@ == source@,
        s.kind == kind,
{
    ExtractedSegment { key, source: String::from_str(source), kind }
}

fn push_segment(out: &mut Vec<ExtractedSegment>, key: String, source: &str, kind: SegmentKind)
    ensures
        segs_view(final(out)@) == segs_view(old(out)@).push((key@, source@, kind)),
{
    let s = segment(key, source, kind);
    out.push(s);
    assert(segs_view(out@) =~= segs_view(old(out)@).push((key@, source@, kind)));
}

// ---------------------------------------------------------------------------
// Event command lists
// ---------------------------------------------------------------------------

/// A dialogue line, speaker or choice worth translating: something besides
/// whitespace, and something besides escape codes.
pub open spec fn worth_line(text: Seq<char>, placeholders: Seq<char>) -> bool {
    trimmed(text).len() > 0 && placeholder_free_rest(placeholders, text)
}

/// `prefix` followed by `/` and the decimal digits of `n`.
pub open spec fn slash_index(prefix: Seq<char>, n: nat) -> Seq<char> {
    prefix + "/"@ + decimal(n)
}

/// The string at index `i` of `ps`, as a one-segment list when it is worth
/// translating.
pub open spec fn param_segs(ps: Seq<Json>, i: int, key: Seq<char>, kind: SegmentKind, placeholders: Seq<char>) -> Seq<SegV> {
    match seq_get(ps, i) {
        Some(v) => match json_str(v) {
            Some(s) => if worth_line(s, placeholders) {
                seq![(key, s, kind)]
            } else {
                Seq::empty()
            },
            None => Seq::empty(),
        },
        None => Seq::empty(),
    }
}

/// The choices worth translating, keyed `{prefix}/{c}`.
pub open spec fn choice_segs(choices: Seq<Json>, prefix: Seq<char>, placeholders: Seq<char>) -> Seq<SegV>
    decreases choices.len(),
{
    if choices.len() == 0 {
        Seq::empty()
    } else {
        let ci = (choices.len() - 1) as int;
        choice_segs(choices.drop_last(), prefix, placeholders) + param_segs(
            choices,
            ci,
            slash_index(prefix, ci as nat),
            SegmentKind::Choice,
            placeholders,
        )
    }
}

/// The segments of one command, at `path` (`{list}/{index}`): the speaker
/// of a 101, the line of a 401, the choices of a 102.
pub open spec fn command_segs(cmd: Json, path: Seq<char>, placeholders: Seq<char>) -> Seq<SegV> {
    let code = match json_get(cmd, "code"@) {
        Some(c) => json_int(c),
        None => None,
    };
    match (code, json_get_array(cmd, "parameters"@)) {
        (Some(c), Some(ps)) => if c == 101 {
            param_segs(ps, 4, path + "/parameters/4"@, SegmentKind::Speaker, placeholders)
        } else if c == 401 {
            param_segs(ps, 0, path + "/parameters/0"@, SegmentKind::Dialogue, placeholders)
        } else if c == 102 {
            match seq_get(ps, 0) {
                Some(v) => match json_array(v) {
                    Some(choices) => choice_segs(choices, path + "/parameters/0"@, placeholders),
                    None => Seq::empty(),
                },
                None => Seq::empty(),
            }
        } else {
            Seq::empty()
        },
        _ => Seq::empty(),
    }
}

/// The segments of an event command list at `list_path`, command by command.
pub open spec fn list_segs(list: Seq<Json>, list_path: Seq<char>, placeholders: Seq<char>) -> Seq<SegV>
    decreases list.len(),
{
    if list.len() == 0 {
        Seq::empty()
    } else {
        let li = (list.len() - 1) as nat;
        list_segs(list.drop_last(), list_path, placeholders) + command_segs(
            list.last(),
            slash_index(list_path, li),
            placeholders,
        )
    }
}

fn placeholder_only(text: &str, placeholders: &str) -> (r: bool)
    ensures
        r == !placeholder_free_rest(placeholders@, text@),
{
    !has_text_besides_placeholders(placeholders, text)
}

fn push_param(
    out: &mut Vec<ExtractedSegment>,
    ps: &Vec<Json>,
    i: usize,
    key: String,
    kind: SegmentKind,
    placeholders: &str,
)
    ensures
        segs_view(final(out)@) == segs_view(old(out)@) + param_segs(ps@, i as int, key@, kind, placeholders@),
{
    if i < ps.len() {
        if let Some(text) = ps[i].as_str() {
            if !is_blank(text) && !placeholder_only(text, placeholders) {
                push_segment(out, key, text, kind);
                return ;
            }
        }
    }
    assert(segs_view(out@) =~= segs_view(old(out)@) + param_segs(ps@, i as int, key@, kind, placeholders@));
}

fn push_choices(out: &mut Vec<ExtractedSegment>, choices: &Vec<Json>, prefix: &String, placeholders: &str)
    ensures
        segs_view(final(out)@) == segs_view(old(out)@) + choice_segs(choices@, prefix@, placeholders@),
{
    let ghost start = segs_view(out@);
    let mut ci: usize = 0;
    assert(choices@.take(0) =~= Seq::<Json>::empty());
    assert(segs_view(out@) =~= start + choice_segs(choices@.take(0), prefix@, placeholders@));
    while ci < choices.len()
        invariant
            ci <= choices@.len(),
            segs_view(out@) == start + choice_segs(choices@.take(ci as int), prefix@, placeholders@),
        decreases choices@.len() - ci,
    {
        let key = append_decimal(prefix.clone().concat("/"), ci);
        let ghost before = segs_view(out@);
        push_param(out, choices, ci, key, SegmentKind::Choice, placeholders);
        proof {
            let t = choices@.take(ci + 1);
            assert(t.drop_last() =~= choices@.take(ci as int));
            assert(param_segs(t, ci as int, slash_index(prefix@, ci as nat), SegmentKind::Choice, placeholders@)
                == param_segs(choices@, ci as int, slash_index(prefix@, ci as nat), SegmentKind::Choice, placeholders@));
            assert(segs_view(out@) =~= start + choice_segs(t, prefix@, placeholders@));
        }
        ci = ci + 1;
    }
    assert(choices@.take(ci as int) =~= choices@);
}

fn push_command(out: &mut Vec<ExtractedSegment>, cmd: &Json, path: &String, placeholders: &str)
    ensures
        segs_view(final(out)@) == segs_view(old(out)@) + command_segs(*cmd, path@, placeholders@),
{
    let code = match cmd.get("code") {
        Some(c) => c.as_i64(),
        None => None,
    };
    let params = match cmd.get("parameters") {
        Some(p) => p.as_array(),
        None => None,
    };
    proof {
        reveal_strlit("code");
        reveal_strlit("parameters");
    }
    match (code, params) {
        (Some(c), Some(ps)) => {
            if c == 101 {
                push_param(out, ps, 4, path.clone().concat("/parameters/4"), SegmentKind::Speaker, placeholders);
            } else if c == 401 {
                push_param(out, ps, 0, path.clone().concat("/parameters/0"), SegmentKind::Dialogue, placeholders);
            } else if c == 102 {
                let first = if ps.len() > 0 {
                    ps[0].as_array()
                } else {
                    None
                };
                match first {
                    Some(choices) => {
                        let prefix = path.clone().concat("/parameters/0");
                        push_choices(out, choices, &prefix, placeholders);
                    },
                    None => {
                        assert(segs_view(out@) =~= segs_view(old(out)@) + command_segs(*cmd, path@, placeholders@));
                    },
                }
            } else {
                assert(segs_view(out@) =~= segs_view(old(out)@) + command_segs(*cmd, path@, placeholders@));
            }
        },
        _ => {
            assert(segs_view(out@) =~= segs_view(old(out)@) + command_segs(*cmd, path@, placeholders@));
        },
    }
}

/// Appends the segments of an event command list at `list_path`.
fn push_event_list(out: &mut Vec<ExtractedSegment>, list: &Vec<Json>, list_path: &String, placeholders: &str)
    ensures
        segs_view(final(out)@) == segs_view(old(out)@) + list_segs(list@, list_path@, placeholders@),
{
    let ghost start = segs_view(out@);
    let mut li: usize = 0;
    assert(list@.take(0) =~= Seq::<Json>::empty());
    assert(segs_view(out@) =~= start + list_segs(list@.take(0), list_path@, placeholders@));
    while li < list.len()
        invariant
            li <= list@.len(),
            segs_view(out@) == start + list_segs(list@.take(li as int), list_path@, placeholders@),
        decreases list@.len() - li,
    {
        let path = append_decimal(list_path.clone().concat("/"), li);
        push_command(out, &list[li], &path, placeholders);
        proof {
            let t = list@.take(li + 1);
            assert(t.drop_last() =~= list@.take(li as int));
            assert(t.last() == list@[li as int]);
            assert(segs_view(out@) =~= start + list_segs(t, list_path@, placeholders@));
        }
        li = li + 1;
    }
    assert(list@.take(li as int) =~= list@);
}

// ---------------------------------------------------------------------------
// Maps, troops and common events
// ---------------------------------------------------------------------------

/// The segments of the `list` of a page at `path`.
pub open spec fn page_segs(page: Json, path: Seq<char>, placeholders: Seq<char>) -> Seq<SegV> {
    match json_get_array(page, "list"@) {
        Some(list) => list_segs(list, path, placeholders),
        None => Seq::empty(),
    }
}

/// The segments of pages, keyed `{prefix}/{p}/list/...`.
pub open spec fn pages_segs(pages: Seq<Json>, prefix: Seq<char>, placeholders: Seq<char>) -> Seq<SegV>
    decreases pages.len(),
{
    if pages.len() == 0 {
        Seq::empty()
    } else {
        let pi = (pages.len() - 1) as nat;
        pages_segs(pages.drop_last(), prefix, placeholders) + page_segs(
            pages.last(),
            slash_index(prefix, pi) + "/list"@,
            placeholders,
        )
    }
}

/// The segments of the `pages` of an event or troop at `prefix`.
pub open spec fn paged_segs(item: Json, prefix: Seq<char>, placeholders: Seq<char>) -> Seq<SegV> {
    match json_get_array(item, "pages"@) {
        Some(pages) => pages_segs(pages, prefix, placeholders),
        None => Seq::empty(),
    }
}

/// The segments of paged items (map events or troops), item `i` keyed
/// `{base}/{i}/pages/...`.
pub open spec fn paged_items_segs(items: Seq<Json>, base: Seq<char>, placeholders: Seq<char>) -> Seq<SegV>
    decreases items.len(),
{
    if items.len() == 0 {
        Seq::empty()
    } else {
        let i = (items.len() - 1) as nat;
        paged_items_segs(items.drop_last(), base, placeholders) + paged_segs(
            items.last(),
            slash_index(base, i) + "/pages"@,
            placeholders,
        )
    }
}

/// The segments of a map (`data/MapXXX.json`): the speakers, lines and
/// choices of every page of every event.
pub open spec fn map_segs(json: Json, placeholders: Seq<char>) -> Seq<SegV> {
    match json_get_array(json, "events"@) {
        Some(events) => paged_items_segs(events, "/events"@, placeholders),
        None => Seq::empty(),
    }
}

/// The segments of `data/Troops.json`: those of every page of every troop.
pub open spec fn troops_segs(json: Json, placeholders: Seq<char>) -> Seq<SegV> {
    match json_array(json) {
        Some(troops) => paged_items_segs(troops, Seq::empty(), placeholders),
        None => Seq::empty(),
    }
}

/// The segments of one common event: its name when not empty, then its
/// command list.
pub open spec fn common_event_segs(event: Json, i: nat, placeholders: Seq<char>) -> Seq<SegV> {
    let base = slash_index(Seq::empty(), i);
    let name = match json_get_str(event, "name"@) {
        Some(n) => if n.len() > 0 {
            seq![(base + "/name"@, n, SegmentKind::CommonEventName)]
        } else {
            Seq::empty()
        },
        None => Seq::empty(),
    };
    let list = match json_get_array(event, "list"@) {
        Some(l) => list_segs(l, base + "/list"@, placeholders),
        None => Seq::empty(),
    };
    name + list
}

pub open spec fn common_events_list_segs(events: Seq<Json>, placeholders: Seq<char>) -> Seq<SegV>
    decreases events.len(),
{
    if events.len() == 0 {
        Seq::empty()
    } else {
        common_events_list_segs(events.drop_last(), placeholders) + common_event_segs(
            events.last(),
            (events.len() - 1) as nat,
            placeholders,
        )
    }
}

/// The segments of `data/CommonEvents.json`.
pub open spec fn common_events_segs(json: Json, placeholders: Seq<char>) -> Seq<SegV> {
    match json_array(json) {
        Some(events) => common_events_list_segs(events, placeholders),
        None => Seq::empty(),
    }
}

fn push_page(out: &mut Vec<ExtractedSegment>, page: &Json, path: &String, placeholders: &str)
    ensures
        segs_view(final(out)@) == segs_view(old(out)@) + page_segs(*page, path@, placeholders@),
{
    proof {
        reveal_strlit("list");
    }
    match page.get("list") {
        Some(l) => match l.as_array() {
            Some(list) => push_event_list(out, list, path, placeholders),
            None => {
                assert(segs_view(out@) =~= segs_view(old(out)@) + page_segs(*page, path@, placeholders@));
            },
        },
        None => {
            assert(segs_view(out@) =~= segs_view(old(out)@) + page_segs(*page, path@, placeholders@));
        },
    }
}

fn push_paged(out: &mut Vec<ExtractedSegment>, item: &Json, prefix: &String, placeholders: &str)
    ensures
        segs_view(final(out)@) == segs_view(old(out)@) + paged_segs(*item, prefix@, placeholders@),
{
    proof {
        reveal_strlit("pages");
    }
    let pages = match item.get("pages") {
        Some(p) => p.as_array(),
        None => None,
    };
    match pages {
        Some(pages) => {
            let ghost start = segs_view(out@);
            let mut pi: usize = 0;
            assert(pages@.take(0) =~= Seq::<Json>::empty());
            assert(segs_view(out@) =~= start + pages_segs(pages@.take(0), prefix@, placeholders@));
            while pi < pages.len()
                invariant
                    pi <= pages@.len(),
                    segs_view(out@) == start + pages_segs(pages@.take(pi as int), prefix@, placeholders@),
                decreases pages@.len() - pi,
            {
                let path = append_decimal(prefix.clone().concat("/"), pi).concat("/list");
                push_page(out, &pages[pi], &path, placeholders);
                proof {
                    let t = pages@.take(pi + 1);
                    assert(t.drop_last() =~= pages@.take(pi as int));
                    assert(t.last() == pages@[pi as int]);
                    assert(segs_view(out@) =~= start + pages_segs(t, prefix@, placeholders@));
                }
                pi = pi + 1;
            }
            assert(pages@.take(pi as int) =~= pages@);
        },
        None => {
            assert(segs_view(out@) =~= segs_view(old(out)@) + paged_segs(*item, prefix@, placeholders@));
        },
    }
}

fn paged_items(items: &Vec<Json>, base: &str, placeholders: &str) -> (segs: Vec<ExtractedSegment>)
    ensures
        segs_view(segs@) == paged_items_segs(items@, base@, placeholders@),
{
    let mut out: Vec<ExtractedSegment> = Vec::new();
    let mut i: usize = 0;
    assert(items@.take(0) =~= Seq::<Json>::empty());
    assert(segs_view(out@) =~= Seq::<SegV>::empty());
    while i < items.len()
        invariant
            i <= items@.len(),
            segs_view(out@) == paged_items_segs(items@.take(i as int), base@, placeholders@),
        decreases items@.len() - i,
    {
        let prefix = append_decimal(String::from_str(base).concat("/"), i).concat("/pages");
        push_paged(&mut out, &items[i], &prefix, placeholders);
        proof {
            let t = items@.take(i + 1);
            assert(t.drop_last() =~= items@.take(i as int));
            assert(t.last() == items@[i as int]);
            assert(segs_view(out@) =~= paged_items_segs(t, base@, placeholders@));
        }
        i = i + 1;
    }
    assert(items@.take(i as int) =~= items@);
    out
}

/// The segments of a map (`data/MapXXX.json`), in event, page and command
/// order (see `map_segs`).
pub fn extract_map(json: &Json, placeholders: &str) -> (segs: Vec<ExtractedSegment>)
    ensures
        segs_view(segs@) == map_segs(*json, placeholders@),
{
    proof {
        reveal_strlit("events");
    }
    let events = match json.get("events") {
        Some(e) => e.as_array(),
        None => None,
    };
    match events {
        Some(events) => paged_items(events, "/events", placeholders),
        None => Vec::new(),
    }
}

/// The segments of `data/Troops.json` (see `troops_segs`).
pub fn extract_troops(json: &Json, placeholders: &str) -> (segs: Vec<ExtractedSegment>)
    ensures
        segs_view(segs@) == troops_segs(*json, placeholders@),
{
    match json.as_array() {
        Some(troops) => {
            let empty = "";
            proof {
                reveal_strlit("");
                assert(empty@ =~= Seq::<char>::empty());
            }
            paged_items(troops, empty, placeholders)
        },
        None => Vec::new(),
    }
}

/// The segments of `data/CommonEvents.json`: each event's name, then its
/// lines (see `common_events_segs`).
pub fn extract_common_events(json: &Json, placeholders: &str) -> (segs: Vec<ExtractedSegment>)
    ensures
        segs_view(segs@) == common_events_segs(*json, placeholders@),
{
    let mut out: Vec<ExtractedSegment> = Vec::new();
    let events = match json.as_array() {
        Some(e) => e,
        None => {
            return out;
        },
    };
    proof {
        reveal_strlit("name");
        reveal_strlit("list");
    }
    let mut ei: usize = 0;
    assert(events@.take(0) =~= Seq::<Json>::empty());
    assert(segs_view(out@) =~= Seq::<SegV>::empty());
    while ei < events.len()
        invariant
            ei <= events@.len(),
            segs_view(out@) == common_events_list_segs(events@.take(ei as int), placeholders@),
        decreases events@.len() - ei,
    {
        let ghost before = segs_view(out@);
        let event = &events[ei];
        let base = append_decimal(String::from_str(""), ei);
        let base = String::from_str("/").concat(base.as_str());
        proof {
            reveal_strlit("");
            reveal_strlit("/");
            assert(base@ =~= slash_index(Seq::empty(), ei as nat));
        }
        if !event.is_null() {
            if let Some(n) = event.get("name") {
                if let Some(name) = n.as_str() {
                    if name.unicode_len() > 0 {
                        push_segment(&mut out, base.clone().concat("/name"), name, SegmentKind::CommonEventName);
                    }
                }
            }
            let ghost mid = segs_view(out@);
            assert(mid == before + (match json_get_str(*event, "name"@) {
                Some(n) => if n.len() > 0 {
                    seq![(base@ + "/name"@, n, SegmentKind::CommonEventName)]
                } else {
                    Seq::empty()
                },
                None => Seq::empty(),
            }));
            if let Some(l) = event.get("list") {
                if let Some(list) = l.as_array() {
                    let path = base.clone().concat("/list");
                    push_event_list(&mut out, list, &path, placeholders);
                }
            }
        }
        proof {
            let t = events@.take(ei + 1);
            assert(t.drop_last() =~= events@.take(ei as int));
            assert(t.last() == events@[ei as int]);
            assert(segs_view(out@) =~= common_events_list_segs(t, placeholders@));
        }
        ei = ei + 1;
    }
    assert(events@.take(ei as int) =~= events@);
    out
}

// ---------------------------------------------------------------------------
// Database arrays
// ---------------------------------------------------------------------------

/// A field to extract from each entry: its name, its kind, and whether a
/// text of whitespace alone is skipped (otherwise only an empty one is).
pub type FieldRule = (Seq<char>, SegmentKind, bool);

pub open spec fn worth_field(text: Seq<char>, trim: bool) -> bool {
    if trim {
        trimmed(text).len() > 0
    } else {
        text.len() > 0
    }
}

/// The fields of entry `i` worth translating, keyed `/{i}/{field}`.
pub open spec fn entry_segs(entry: Json, i: nat, fields: Seq<FieldRule>) -> Seq<SegV>
    decreases fields.len(),
{
    if fields.len() == 0 {
        Seq::empty()
    } else {
        let f = fields.last();
        entry_segs(entry, i, fields.drop_last()) + match json_get_str(entry, f.0) {
            Some(t) => if worth_field(t, f.2) {
                seq![(slash_index(Seq::empty(), i) + "/"@ + f.0, t, f.1)]
            } else {
                Seq::empty()
            },
            None => Seq::empty(),
        }
    }
}

pub open spec fn entries_segs(entries: Seq<Json>, fields: Seq<FieldRule>) -> Seq<SegV>
    decreases entries.len(),
{
    if entries.len() == 0 {
        Seq::empty()
    } else {
        entries_segs(entries.drop_last(), fields) + entry_segs(entries.last(), (entries.len() - 1) as nat, fields)
    }
}

/// The segments of a database array `[null, {field: text, ...}, ...]`.
pub open spec fn array_segs(json: Json, fields: Seq<FieldRule>) -> Seq<SegV> {
    match json_array(json) {
        Some(entries) => entries_segs(entries, fields),
        None => Seq::empty(),
    }
}

pub open spec fn rules_view(fields: Seq<(&str, SegmentKind, bool)>) -> Seq<FieldRule> {
    fields.map_values(|f: (&str, SegmentKind, bool)| (f.0@, f.1, f.2))
}

fn extract_fields(json: &Json, fields: &Vec<(&str, SegmentKind, bool)>) -> (segs: Vec<ExtractedSegment>)
    ensures
        segs_view(segs@) == array_segs(*json, rules_view(fields@)),
{
    let mut out: Vec<ExtractedSegment> = Vec::new();
    let arr = match json.as_array() {
        Some(a) => a,
        None => {
            return out;
        },
    };
    let ghost fv = rules_view(fields@);
    let mut i: usize = 0;
    assert(arr@.take(0) =~= Seq::<Json>::empty());
    assert(segs_view(out@) =~= Seq::<SegV>::empty());
    while i < arr.len()
        invariant
            i <= arr@.len(),
            fv == rules_view(fields@),
            segs_view(out@) == entries_segs(arr@.take(i as int), fv),
        decreases arr@.len() - i,
    {
        let ghost before = segs_view(out@);
        let entry = &arr[i];
        let base = String::from_str("/").concat(append_decimal(String::from_str(""), i).as_str());
        proof {
            reveal_strlit("");
            reveal_strlit("/");
            assert(base@ =~= slash_index(Seq::empty(), i as nat));
        }
        if !entry.is_null() {
            let mut k: usize = 0;
            assert(fv.take(0) =~= Seq::<FieldRule>::empty());
            assert(segs_view(out@) =~= before + entry_segs(*entry, i as nat, fv.take(0)));
            while k < fields.len()
                invariant
                    k <= fields@.len(),
                    fv == rules_view(fields@),
                    segs_view(out@) == before + entry_segs(*entry, i as nat, fv.take(k as int)),
                    base@ == slash_index(Seq::empty(), i as nat),
                decreases fields@.len() - k,
            {
                let (field, kind, trim) = fields[k];
                let ghost mid = segs_view(out@);
                if let Some(v) = entry.get(field) {
                    if let Some(text) = v.as_str() {
                        let worth = if trim {
                            !is_blank(text)
                        } else {
                            text.unicode_len() > 0
                        };
                        if worth {
                            let key = base.clone().concat("/").concat(field);
                            push_segment(&mut out, key, text, kind);
                        }
                    }
                }
                proof {
                    let t = fv.take(k + 1);
                    assert(t.drop_last() =~= fv.take(k as int));
                    assert(t.last() == (field@, kind, trim));
                    assert(segs_view(out@) =~= before + entry_segs(*entry, i as nat, t));
                }
                k = k + 1;
            }
            assert(fv.take(k as int) =~= fv);
        } else {
            assert(entry_segs(*entry, i as nat, fv) =~= Seq::<SegV>::empty()) by {
                lemma_null_entry_segs(*entry, i as nat, fv);
            }
        }
        proof {
            let t = arr@.take(i + 1);
            assert(t.drop_last() =~= arr@.take(i as int));
            assert(t.last() == arr@[i as int]);
            assert(segs_view(out@) =~= entries_segs(t, fv));
        }
        i = i + 1;
    }
    assert(arr@.take(i as int) =~= arr@);
    out
}

proof fn lemma_null_entry_segs(entry: Json, i: nat, fields: Seq<FieldRule>)
    requires
        entry is Null,
    ensures
        entry_segs(entry, i, fields) == Seq::<SegV>::empty(),
    decreases fields.len(),
{
    if fields.len() > 0 {
        lemma_null_entry_segs(entry, i, fields.drop_last());
    }
}

pub open spec fn actor_rules() -> Seq<FieldRule> {
    seq![
        ("name"@, SegmentKind::ActorName, true),
        ("nickname"@, SegmentKind::ActorNickname, true),
        ("profile"@, SegmentKind::ActorProfile, true),
    ]
}

pub open spec fn item_rules() -> Seq<FieldRule> {
    seq![("name"@, SegmentKind::ItemName, true), ("description"@, SegmentKind::ItemDescription, true)]
}

pub open spec fn skill_rules() -> Seq<FieldRule> {
    seq![
        ("name"@, SegmentKind::SkillName, true),
        ("description"@, SegmentKind::SkillDescription, true),
        ("message1"@, SegmentKind::SkillMessage, true),
        ("message2"@, SegmentKind::SkillMessage, true),
    ]
}

pub open spec fn state_rules() -> Seq<FieldRule> {
    seq![
        ("name"@, SegmentKind::StateName, false),
        ("message1"@, SegmentKind::StateMessage, true),
        ("message2"@, SegmentKind::StateMessage, true),
        ("message3"@, SegmentKind::StateMessage, true),
        ("message4"@, SegmentKind::StateMessage, true),
    ]
}

/// The segments of `data/Actors.json`: name, nickname and profile.
pub fn extract_actors(json: &Json) -> (segs: Vec<ExtractedSegment>)
    ensures
        segs_view(segs@) == array_segs(*json, actor_rules()),
{
    let mut f: Vec<(&str, SegmentKind, bool)> = Vec::new();
    f.push(("name", SegmentKind::ActorName, true));
    f.push(("nickname", SegmentKind::ActorNickname, true));
    f.push(("profile", SegmentKind::ActorProfile, true));
    assert(rules_view(f@) =~= actor_rules());
    extract_fields(json, &f)
}

/// The segments of `data/Classes.json`: names.
pub fn extract_classes(json: &Json) -> (segs: Vec<ExtractedSegment>)
    ensures
        segs_view(segs@) == array_segs(*json, seq![("name"@, SegmentKind::ClassName, true)]),
{
    let mut f: Vec<(&str, SegmentKind, bool)> = Vec::new();
    f.push(("name", SegmentKind::ClassName, true));
    assert(rules_view(f@) =~= seq![("name"@, SegmentKind::ClassName, true)]);
    extract_fields(json, &f)
}

fn item_fields() -> (f: Vec<(&'static str, SegmentKind, bool)>)
    ensures
        rules_view(f@) == item_rules(),
{
    let mut f: Vec<(&str, SegmentKind, bool)> = Vec::new();
    f.push(("name", SegmentKind::ItemName, true));
    f.push(("description", SegmentKind::ItemDescription, true));
    assert(rules_view(f@) =~= item_rules());
    f
}

/// The segments of `data/Items.json`: name and description.
pub fn extract_items(json: &Json) -> (segs: Vec<ExtractedSegment>)
    ensures
        segs_view(segs@) == array_segs(*json, item_rules()),
{
    extract_fields(json, &item_fields())
}

/// The segments of `data/Weapons.json`, which are shaped as items.
pub fn extract_weapons(json: &Json) -> (segs: Vec<ExtractedSegment>)
    ensures
        segs_view(segs@) == array_segs(*json, item_rules()),
{
    extract_fields(json, &item_fields())
}

/// The segments of `data/Armors.json`, which are shaped as items.
pub fn extract_armors(json: &Json) -> (segs: Vec<ExtractedSegment>)
    ensures
        segs_view(segs@) == array_segs(*json, item_rules()),
{
    extract_fields(json, &item_fields())
}

/// The segments of `data/Skills.json`: name, description and the two
/// in-battle messages.
pub fn extract_skills(json: &Json) -> (segs: Vec<ExtractedSegment>)
    ensures
        segs_view(segs@) == array_segs(*json, skill_rules()),
{
    let mut f: Vec<(&str, SegmentKind, bool)> = Vec::new();
    f.push(("name", SegmentKind::SkillName, true));
    f.push(("description", SegmentKind::SkillDescription, true));
    f.push(("message1", SegmentKind::SkillMessage, true));
    f.push(("message2", SegmentKind::SkillMessage, true));
    assert(rules_view(f@) =~= skill_rules());
    extract_fields(json, &f)
}

/// The segments of `data/Enemies.json`: names.
pub fn extract_enemies(json: &Json) -> (segs: Vec<ExtractedSegment>)
    ensures
        segs_view(segs@) == array_segs(*json, seq![("name"@, SegmentKind::EnemyName, true)]),
{
    let mut f: Vec<(&str, SegmentKind, bool)> = Vec::new();
    f.push(("name", SegmentKind::EnemyName, true));
    assert(rules_view(f@) =~= seq![("name"@, SegmentKind::EnemyName, true)]);
    extract_fields(json, &f)
}

/// The segments of `data/States.json`: a non-empty name and the four
/// messages.
pub fn extract_states(json: &Json) -> (segs: Vec<ExtractedSegment>)
    ensures
        segs_view(segs@) == array_segs(*json, state_rules()),
{
    let mut f: Vec<(&str, SegmentKind, bool)> = Vec::new();
    f.push(("name", SegmentKind::StateName, false));
    f.push(("message1", SegmentKind::StateMessage, true));
    f.push(("message2", SegmentKind::StateMessage, true));
    f.push(("message3", SegmentKind::StateMessage, true));
    f.push(("message4", SegmentKind::StateMessage, true));
    assert(rules_view(f@) =~= state_rules());
    extract_fields(json, &f)
}

/// The segments of `data/MapInfos.json`: map names.
pub fn extract_map_infos(json: &Json) -> (segs: Vec<ExtractedSegment>)
    ensures
        segs_view(segs@) == array_segs(*json, seq![("name"@, SegmentKind::MapName, true)]),
{
    let mut f: Vec<(&str, SegmentKind, bool)> = Vec::new();
    f.push(("name", SegmentKind::MapName, true));
    assert(rules_view(f@) =~= seq![("name"@, SegmentKind::MapName, true)]);
    extract_fields(json, &f)
}

// ---------------------------------------------------------------------------
// System
// ---------------------------------------------------------------------------

/// A text at `key`, as a one-segment list when it holds more than
/// whitespace.
pub open spec fn nonblank_seg(text: Option<Seq<char>>, key: Seq<char>, kind: SegmentKind) -> Seq<SegV> {
    match text {
        Some(t) => if trimmed(t).len() > 0 {
            seq![(key, t, kind)]
        } else {
            Seq::empty()
        },
        None => Seq::empty(),
    }
}

/// The system terms of a list, keyed `{prefix}/{i}`.
pub open spec fn term_list_segs(terms: Seq<Json>, prefix: Seq<char>) -> Seq<SegV>
    decreases terms.len(),
{
    if terms.len() == 0 {
        Seq::empty()
    } else {
        let i = (terms.len() - 1) as nat;
        term_list_segs(terms.drop_last(), prefix) + nonblank_seg(
            json_str(terms.last()),
            slash_index(prefix, i),
            SegmentKind::SystemTerm,
        )
    }
}

/// `/terms/{name}` of a system file.
pub open spec fn terms_part(json: Json, name: Seq<char>) -> Option<Json> {
    match json_get(json, "terms"@) {
        Some(t) => json_get(t, name),
        None => None,
    }
}

pub open spec fn terms_list_segs(json: Json, name: Seq<char>) -> Seq<SegV> {
    match terms_part(json, name) {
        Some(v) => match json_array(v) {
            Some(terms) => term_list_segs(terms, "/terms/"@ + name),
            None => Seq::empty(),
        },
        None => Seq::empty(),
    }
}

/// Everything of `System.json` but the messages: the title, the currency
/// unit, and the basic, command and parameter terms.
pub open spec fn system_head_segs(json: Json) -> Seq<SegV> {
    nonblank_seg(json_get_str(json, "gameTitle"@), "/gameTitle"@, SegmentKind::GameTitle) + nonblank_seg(
        json_get_str(json, "currencyUnit"@),
        "/currencyUnit"@,
        SegmentKind::SystemTerm,
    ) + terms_list_segs(json, "basic"@) + terms_list_segs(json, "commands"@) + terms_list_segs(json, "params"@)
}

/// The members of `/terms/messages`, when it is an object.
pub open spec fn system_messages(json: Json) -> Option<Seq<(String, Json)>> {
    match terms_part(json, "messages"@) {
        Some(v) => json_object(v),
        None => None,
    }
}

/// The messages taken in `order`, keyed `/terms/messages/{key}`.
pub open spec fn message_segs(es: Seq<(String, Json)>, order: Seq<int>) -> Seq<SegV>
    decreases order.len(),
{
    if order.len() == 0 {
        Seq::empty()
    } else {
        let e = es[order.last()];
        message_segs(es, order.drop_last()) + nonblank_seg(
            json_str(e.1),
            "/terms/messages/"@ + e.0@,
            SegmentKind::SystemTerm,
        )
    }
}

fn push_nonblank(out: &mut Vec<ExtractedSegment>, v: Option<&Json>, key: String, kind: SegmentKind)
    ensures
        segs_view(final(out)@) == segs_view(old(out)@) + nonblank_seg(
            match v {
                Some(j) => json_str(*j),
                None => None,
            },
            key@,
            kind,
        ),
{
    if let Some(j) = v {
        if let Some(text) = j.as_str() {
            if !is_blank(text) {
                push_segment(out, key, text, kind);
                return ;
            }
        }
    }
    assert(segs_view(out@) =~= segs_view(old(out)@) + nonblank_seg(
        match v {
            Some(j) => json_str(*j),
            None => None,
        },
        key@,
        kind,
    ));
}

fn push_term_list(out: &mut Vec<ExtractedSegment>, json: &Json, name: &str)
    ensures
        segs_view(final(out)@) == segs_view(old(out)@) + terms_list_segs(*json, name@),
{
    proof {
        reveal_strlit("terms");
    }
    let part = match json.get("terms") {
        Some(t) => t.get(name),
        None => None,
    };
    let terms = match part {
        Some(v) => v.as_array(),
        None => None,
    };
    match terms {
        Some(terms) => {
            let prefix = String::from_str("/terms/").concat(name);
            let ghost start = segs_view(out@);
            let mut i: usize = 0;
            assert(terms@.take(0) =~= Seq::<Json>::empty());
            assert(segs_view(out@) =~= start + term_list_segs(terms@.take(0), prefix@));
            while i < terms.len()
                invariant
                    i <= terms@.len(),
                    segs_view(out@) == start + term_list_segs(terms@.take(i as int), prefix@),
                decreases terms@.len() - i,
            {
                let key = append_decimal(prefix.clone().concat("/"), i);
                push_nonblank(out, Some(&terms[i]), key, SegmentKind::SystemTerm);
                proof {
                    let t = terms@.take(i + 1);
                    assert(t.drop_last() =~= terms@.take(i as int));
                    assert(t.last() == terms@[i as int]);
                    assert(segs_view(out@) =~= start + term_list_segs(t, prefix@));
                }
                i = i + 1;
            }
            assert(terms@.take(i as int) =~= terms@);
        },
        None => {
            assert(segs_view(out@) =~= segs_view(old(out)@) + terms_list_segs(*json, name@));
        },
    }
}

/// The segments of `data/System.json`: the title, the currency unit, the
/// basic, command and parameter terms in order, then the messages sorted
/// by key (ties in document order; see `sorted_order`).
pub fn extract_system(json: &Json) -> (segs: Vec<ExtractedSegment>)
    ensures
        match system_messages(*json) {
            None => segs_view(segs@) == system_head_segs(*json),
            Some(es) => exists|order: Seq<int>|
                #[trigger] sorted_order(member_keys(es), order) && segs_view(segs@) == system_head_segs(*json)
                    + message_segs(es, order),
        },
{
    let mut out: Vec<ExtractedSegment> = Vec::new();
    proof {
        reveal_strlit("gameTitle");
        reveal_strlit("currencyUnit");
        reveal_strlit("terms");
        reveal_strlit("messages");
    }
    push_nonblank(&mut out, json.get("gameTitle"), String::from_str("/gameTitle"), SegmentKind::GameTitle);
    push_nonblank(&mut out, json.get("currencyUnit"), String::from_str("/currencyUnit"), SegmentKind::SystemTerm);
    push_term_list(&mut out, json, "basic");
    push_term_list(&mut out, json, "commands");
    push_term_list(&mut out, json, "params");
    let ghost head = segs_view(out@);
    assert(head =~= system_head_segs(*json));
    let part = match json.get("terms") {
        Some(t) => t.get("messages"),
        None => None,
    };
    let messages = match part {
        Some(v) => v.as_object(),
        None => None,
    };
    match messages {
        Some(es) => {
            let order = member_order(es);
            let ghost ov = indices_view(order@);
            let mut p: usize = 0;
            assert(ov.take(0) =~= Seq::<int>::empty());
            assert(segs_view(out@) =~= head + message_segs(es@, ov.take(0)));
            while p < order.len()
                invariant
                    p <= order@.len(),
                    ov == indices_view(order@),
                    sorted_order(member_keys(es@), ov),
                    segs_view(out@) == head + message_segs(es@, ov.take(p as int)),
                decreases order@.len() - p,
            {
                let k = order[p];
                assert(ov[p as int] == k as int);
                assert(0 <= ov[p as int] < es@.len());
                let key = String::from_str("/terms/messages/").concat(es[k].0.as_str());
                push_nonblank(&mut out, Some(&es[k].1), key, SegmentKind::SystemTerm);
                proof {
                    let t = ov.take(p + 1);
                    assert(t.drop_last() =~= ov.take(p as int));
                    assert(t.last() == k as int);
                    assert(segs_view(out@) =~= head + message_segs(es@, t));
                }
                p = p + 1;
            }
            assert(ov.take(p as int) =~= ov);
            assert(sorted_order(member_keys(es@), ov) && segs_view(out@) == system_head_segs(*json) + message_segs(es@, ov));
        },
        None => {},
    }
    out
}

// ---------------------------------------------------------------------------
// What the keys point at
// ---------------------------------------------------------------------------

proof fn lemma_slash_index_join(pts: Seq<Seq<char>>, n: nat)
    ensures
        slash_index(join_pointer(pts), n) == join_pointer(pts.push(decimal(n))),
{
    reveal_strlit("/");
    assert(pts.push(decimal(n)).drop_last() =~= pts);
}

proof fn lemma_param_point(root: JsonTree, pts: Seq<Seq<char>>, pnode: Json, i: int, kind: SegmentKind, placeholders: Seq<char>)
    requires
        plain_tokens(pts),
        resolve(root, pts) == Some(tree(pnode)),
        json_array(pnode) is Some,
        i >= 0,
    ensures
        all_point(root, param_segs(json_array(pnode)->0, i, join_pointer(pts.push(decimal(i as nat))), kind, placeholders)),
{
    let ps = json_array(pnode)->0;
    if i < ps.len() && json_str(ps[i]) is Some {
        lemma_walk_element(root, pts, pnode, i);
        lemma_leaf(root, pts.push(decimal(i as nat)), ps[i]);
    }
}

proof fn lemma_choices_point(root: JsonTree, pts: Seq<Seq<char>>, cnode: Json, n: int, placeholders: Seq<char>)
    requires
        plain_tokens(pts),
        resolve(root, pts) == Some(tree(cnode)),
        json_array(cnode) matches Some(cs) && 0 <= n <= cs.len(),
    ensures
        all_point(root, choice_segs(json_array(cnode)->0.take(n), join_pointer(pts), placeholders)),
    decreases n,
{
    let cs = json_array(cnode)->0;
    if n > 0 {
        let t = cs.take(n);
        assert(t.drop_last() =~= cs.take(n - 1));
        lemma_choices_point(root, pts, cnode, n - 1, placeholders);
        lemma_slash_index_join(pts, (n - 1) as nat);
        assert(param_segs(t, n - 1, slash_index(join_pointer(pts), (n - 1) as nat), SegmentKind::Choice, placeholders)
            == param_segs(cs, n - 1, slash_index(join_pointer(pts), (n - 1) as nat), SegmentKind::Choice, placeholders));
        lemma_param_point(root, pts, cnode, n - 1, SegmentKind::Choice, placeholders);
        lemma_all_point_concat(
            root,
            choice_segs(cs.take(n - 1), join_pointer(pts), placeholders),
            param_segs(cs, n - 1, slash_index(join_pointer(pts), (n - 1) as nat), SegmentKind::Choice, placeholders),
        );
    }
}

proof fn lemma_plain_literals()
    ensures
        plain_token("parameters"@),
        plain_token("list"@),
        plain_token("pages"@),
        plain_token("events"@),
        plain_token("name"@),
        plain_token("terms"@),
        plain_token("messages"@),
        plain_token("gameTitle"@),
        plain_token("currencyUnit"@),
        plain_token("basic"@),
        plain_token("commands"@),
        plain_token("params"@),
{
    reveal_strlit("parameters");
    reveal_strlit("list");
    reveal_strlit("pages");
    reveal_strlit("events");
    reveal_strlit("name");
    reveal_strlit("terms");
    reveal_strlit("messages");
    reveal_strlit("gameTitle");
    reveal_strlit("currencyUnit");
    reveal_strlit("basic");
    reveal_strlit("commands");
    reveal_strlit("params");
}

proof fn lemma_command_point(root: JsonTree, pts: Seq<Seq<char>>, cmd: Json, placeholders: Seq<char>)
    requires
        plain_tokens(pts),
        resolve(root, pts) == Some(tree(cmd)),
    ensures
        all_point(root, command_segs(cmd, join_pointer(pts), placeholders)),
{
    let path = join_pointer(pts);
    if let Some(pnode) = json_get(cmd, "parameters"@) {
        if json_array(pnode) is Some {
            lemma_plain_literals();
            lemma_walk_member(root, pts, cmd, "parameters"@);
            let pp = pts.push("parameters"@);
            reveal_strlit("parameters");
            reveal_strlit("/parameters/4");
            reveal_strlit("/parameters/0");
            lemma_join_push(pts, "parameters"@);
            lemma_join_push(pp, decimal(4));
            lemma_join_push(pp, decimal(0));
            assert(path + "/parameters/4"@ =~= join_pointer(pp.push(decimal(4))));
            assert(path + "/parameters/0"@ =~= join_pointer(pp.push(decimal(0))));
            lemma_param_point(root, pp, pnode, 4, SegmentKind::Speaker, placeholders);
            lemma_param_point(root, pp, pnode, 0, SegmentKind::Dialogue, placeholders);
            let ps = json_array(pnode)->0;
            if ps.len() > 0 && json_array(ps[0]) is Some {
                lemma_walk_element(root, pp, pnode, 0);
                let choices = json_array(ps[0])->0;
                lemma_choices_point(root, pp.push(decimal(0)), ps[0], choices.len() as int, placeholders);
                assert(choices.take(choices.len() as int) =~= choices);
            }
        }
    }
}

proof fn lemma_list_point(root: JsonTree, pts: Seq<Seq<char>>, lnode: Json, n: int, placeholders: Seq<char>)
    requires
        plain_tokens(pts),
        resolve(root, pts) == Some(tree(lnode)),
        json_array(lnode) matches Some(l) && 0 <= n <= l.len(),
    ensures
        all_point(root, list_segs(json_array(lnode)->0.take(n), join_pointer(pts), placeholders)),
    decreases n,
{
    let l = json_array(lnode)->0;
    if n > 0 {
        let t = l.take(n);
        assert(t.drop_last() =~= l.take(n - 1));
        assert(t.last() == l[n - 1]);
        lemma_list_point(root, pts, lnode, n - 1, placeholders);
        lemma_walk_element(root, pts, lnode, n - 1);
        lemma_slash_index_join(pts, (n - 1) as nat);
        lemma_command_point(root, pts.push(decimal((n - 1) as nat)), l[n - 1], placeholders);
        lemma_all_point_concat(
            root,
            list_segs(l.take(n - 1), join_pointer(pts), placeholders),
            command_segs(l[n - 1], slash_index(join_pointer(pts), (n - 1) as nat), placeholders),
        );
    }
}

proof fn lemma_page_point(root: JsonTree, pts: Seq<Seq<char>>, page: Json, placeholders: Seq<char>)
    requires
        plain_tokens(pts),
        resolve(root, pts) == Some(tree(page)),
    ensures
        all_point(root, page_segs(page, join_pointer(pts) + "/list"@, placeholders)),
{
    if let Some(lnode) = json_get(page, "list"@) {
        if let Some(l) = json_array(lnode) {
            lemma_plain_literals();
            lemma_walk_member(root, pts, page, "list"@);
            reveal_strlit("list");
            reveal_strlit("/list");
            lemma_join_push(pts, "list"@);
            assert(join_pointer(pts) + "/list"@ =~= join_pointer(pts.push("list"@)));
            lemma_list_point(root, pts.push("list"@), lnode, l.len() as int, placeholders);
            assert(l.take(l.len() as int) =~= l);
        }
    }
}

proof fn lemma_pages_point(root: JsonTree, pts: Seq<Seq<char>>, pnode: Json, n: int, placeholders: Seq<char>)
    requires
        plain_tokens(pts),
        resolve(root, pts) == Some(tree(pnode)),
        json_array(pnode) matches Some(p) && 0 <= n <= p.len(),
    ensures
        all_point(root, pages_segs(json_array(pnode)->0.take(n), join_pointer(pts), placeholders)),
    decreases n,
{
    let p = json_array(pnode)->0;
    if n > 0 {
        let t = p.take(n);
        assert(t.drop_last() =~= p.take(n - 1));
        assert(t.last() == p[n - 1]);
        lemma_pages_point(root, pts, pnode, n - 1, placeholders);
        lemma_walk_element(root, pts, pnode, n - 1);
        lemma_slash_index_join(pts, (n - 1) as nat);
        lemma_page_point(root, pts.push(decimal((n - 1) as nat)), p[n - 1], placeholders);
        lemma_all_point_concat(
            root,
            pages_segs(p.take(n - 1), join_pointer(pts), placeholders),
            page_segs(p[n - 1], slash_index(join_pointer(pts), (n - 1) as nat) + "/list"@, placeholders),
        );
    }
}

proof fn lemma_paged_point(root: JsonTree, pts: Seq<Seq<char>>, item: Json, placeholders: Seq<char>)
    requires
        plain_tokens(pts),
        resolve(root, pts) == Some(tree(item)),
    ensures
        all_point(root, paged_segs(item, join_pointer(pts) + "/pages"@, placeholders)),
{
    if let Some(pnode) = json_get(item, "pages"@) {
        if let Some(p) = json_array(pnode) {
            lemma_plain_literals();
            lemma_walk_member(root, pts, item, "pages"@);
            reveal_strlit("pages");
            reveal_strlit("/pages");
            lemma_join_push(pts, "pages"@);
            assert(join_pointer(pts) + "/pages"@ =~= join_pointer(pts.push("pages"@)));
            lemma_pages_point(root, pts.push("pages"@), pnode, p.len() as int, placeholders);
            assert(p.take(p.len() as int) =~= p);
        }
    }
}

proof fn lemma_paged_items_point(root: JsonTree, pts: Seq<Seq<char>>, inode: Json, n: int, placeholders: Seq<char>)
    requires
        plain_tokens(pts),
        resolve(root, pts) == Some(tree(inode)),
        json_array(inode) matches Some(v) && 0 <= n <= v.len(),
    ensures
        all_point(root, paged_items_segs(json_array(inode)->0.take(n), join_pointer(pts), placeholders)),
    decreases n,
{
    let v = json_array(inode)->0;
    if n > 0 {
        let t = v.take(n);
        assert(t.drop_last() =~= v.take(n - 1));
        assert(t.last() == v[n - 1]);
        lemma_paged_items_point(root, pts, inode, n - 1, placeholders);
        lemma_walk_element(root, pts, inode, n - 1);
        lemma_slash_index_join(pts, (n - 1) as nat);
        lemma_paged_point(root, pts.push(decimal((n - 1) as nat)), v[n - 1], placeholders);
        lemma_all_point_concat(
            root,
            paged_items_segs(v.take(n - 1), join_pointer(pts), placeholders),
            paged_segs(v[n - 1], slash_index(join_pointer(pts), (n - 1) as nat) + "/pages"@, placeholders),
        );
    }
}

/// Every key `extract_map` gives points at the text it gives.
pub proof fn lemma_map_keys_point(json: Json, placeholders: Seq<char>)
    ensures
        all_point(tree(json), map_segs(json, placeholders)),
{
    let root = tree(json);
    let empty = Seq::<Seq<char>>::empty();
    assert(resolve(root, empty) == Some(root));
    if let Some(enode) = json_get(json, "events"@) {
        if let Some(evs) = json_array(enode) {
            lemma_plain_literals();
            lemma_walk_member(root, empty, json, "events"@);
            reveal_strlit("events");
            reveal_strlit("/events");
            lemma_join_push(empty, "events"@);
            assert("/events"@ =~= join_pointer(empty.push("events"@)));
            lemma_paged_items_point(root, empty.push("events"@), enode, evs.len() as int, placeholders);
            assert(evs.take(evs.len() as int) =~= evs);
        }
    }
}

/// Injecting the texts `extract_map` gives back at their keys leaves the
/// map as it was, and no key fails.
pub proof fn lemma_map_round_trip(json: Json, placeholders: Seq<char>)
    ensures
        write_all(tree(json), seg_pairs(map_segs(json, placeholders))) == (tree(json), None::<(PointerFault, int)>),
{
    lemma_map_keys_point(json, placeholders);
    lemma_pairs_identity(tree(json), map_segs(json, placeholders));
}

/// Every key `extract_troops` gives points at the text it gives.
pub proof fn lemma_troops_keys_point(json: Json, placeholders: Seq<char>)
    ensures
        all_point(tree(json), troops_segs(json, placeholders)),
{
    let root = tree(json);
    let empty = Seq::<Seq<char>>::empty();
    assert(resolve(root, empty) == Some(root));
    if let Some(ts) = json_array(json) {
        assert(join_pointer(empty) == Seq::<char>::empty());
        lemma_paged_items_point(root, empty, json, ts.len() as int, placeholders);
        assert(ts.take(ts.len() as int) =~= ts);
    }
}

/// Injecting the texts `extract_troops` gives back changes nothing.
pub proof fn lemma_troops_round_trip(json: Json, placeholders: Seq<char>)
    ensures
        write_all(tree(json), seg_pairs(troops_segs(json, placeholders))) == (tree(json), None::<(PointerFault, int)>),
{
    lemma_troops_keys_point(json, placeholders);
    lemma_pairs_identity(tree(json), troops_segs(json, placeholders));
}

proof fn lemma_named_list_point(root: JsonTree, pts: Seq<Seq<char>>, node: Json, placeholders: Seq<char>)
    requires
        plain_tokens(pts),
        resolve(root, pts) == Some(tree(node)),
    ensures
        all_point(root, match json_get_array(node, "list"@) {
            Some(l) => list_segs(l, join_pointer(pts) + "/list"@, placeholders),
            None => Seq::empty(),
        }),
{
    if let Some(lnode) = json_get(node, "list"@) {
        if let Some(l) = json_array(lnode) {
            lemma_plain_literals();
            lemma_walk_member(root, pts, node, "list"@);
            reveal_strlit("list");
            reveal_strlit("/list");
            lemma_join_push(pts, "list"@);
            assert(join_pointer(pts) + "/list"@ =~= join_pointer(pts.push("list"@)));
            lemma_list_point(root, pts.push("list"@), lnode, l.len() as int, placeholders);
            assert(l.take(l.len() as int) =~= l);
        }
    }
}

proof fn lemma_common_event_point(root: JsonTree, event: Json, i: nat, placeholders: Seq<char>)
    requires
        resolve(root, seq![decimal(i)]) == Some(tree(event)),
        plain_tokens(seq![decimal(i)]),
    ensures
        all_point(root, common_event_segs(event, i, placeholders)),
{
    let pts = seq![decimal(i)];
    let empty = Seq::<Seq<char>>::empty();
    lemma_slash_index_join(empty, i);
    assert(empty.push(decimal(i)) =~= pts);
    assert(join_pointer(empty) == Seq::<char>::empty());
    let base = slash_index(Seq::empty(), i);
    assert(base == join_pointer(pts));
    let name = match json_get_str(event, "name"@) {
        Some(n) => if n.len() > 0 {
            seq![(base + "/name"@, n, SegmentKind::CommonEventName)]
        } else {
            Seq::empty()
        },
        None => Seq::empty(),
    };
    if let Some(nnode) = json_get(event, "name"@) {
        if json_str(nnode) is Some {
            lemma_plain_literals();
            lemma_walk_member(root, pts, event, "name"@);
            lemma_leaf(root, pts.push("name"@), nnode);
            reveal_strlit("name");
            reveal_strlit("/name");
            lemma_join_push(pts, "name"@);
            assert(base + "/name"@ =~= join_pointer(pts.push("name"@)));
        }
    }
    assert(all_point(root, name));
    lemma_named_list_point(root, pts, event, placeholders);
    lemma_all_point_concat(root, name, match json_get_array(event, "list"@) {
        Some(l) => list_segs(l, base + "/list"@, placeholders),
        None => Seq::empty(),
    });
}

proof fn lemma_common_events_point(json: Json, n: int, placeholders: Seq<char>)
    requires
        json_array(json) matches Some(v) && 0 <= n <= v.len(),
    ensures
        all_point(tree(json), common_events_list_segs(json_array(json)->0.take(n), placeholders)),
    decreases n,
{
    let v = json_array(json)->0;
    let root = tree(json);
    if n > 0 {
        let t = v.take(n);
        assert(t.drop_last() =~= v.take(n - 1));
        assert(t.last() == v[n - 1]);
        lemma_common_events_point(json, n - 1, placeholders);
        let empty = Seq::<Seq<char>>::empty();
        assert(resolve(root, empty) == Some(root));
        assert(plain_tokens(empty));
        lemma_walk_element(root, empty, json, n - 1);
        assert(empty.push(decimal((n - 1) as nat)) =~= seq![decimal((n - 1) as nat)]);
        lemma_common_event_point(root, v[n - 1], (n - 1) as nat, placeholders);
        lemma_all_point_concat(
            root,
            common_events_list_segs(v.take(n - 1), placeholders),
            common_event_segs(v[n - 1], (n - 1) as nat, placeholders),
        );
    }
}

/// Injecting the texts `extract_common_events` gives back changes nothing.
pub proof fn lemma_common_events_round_trip(json: Json, placeholders: Seq<char>)
    ensures
        write_all(tree(json), seg_pairs(common_events_segs(json, placeholders))) == (
            tree(json),
            None::<(PointerFault, int)>,
        ),
{
    if let Some(v) = json_array(json) {
        lemma_common_events_point(json, v.len() as int, placeholders);
        assert(v.take(v.len() as int) =~= v);
    }
    lemma_pairs_identity(tree(json), common_events_segs(json, placeholders));
}

/// Every field name of the rules is a plain pointer token.
pub open spec fn rules_plain(fields: Seq<FieldRule>) -> bool {
    forall|k: int| 0 <= k < fields.len() ==> plain_token((#[trigger] fields[k]).0)
}

proof fn lemma_entry_point(root: JsonTree, entry: Json, i: nat, fields: Seq<FieldRule>)
    requires
        resolve(root, seq![decimal(i)]) == Some(tree(entry)),
        plain_tokens(seq![decimal(i)]),
        rules_plain(fields),
    ensures
        all_point(root, entry_segs(entry, i, fields)),
    decreases fields.len(),
{
    if fields.len() > 0 {
        let init = fields.drop_last();
        assert forall|k: int| 0 <= k < init.len() implies plain_token((#[trigger] init[k]).0) by {
            assert(init[k] == fields[k]);
        }
        lemma_entry_point(root, entry, i, init);
        let f = fields.last();
        assert(plain_token(fields[fields.len() - 1].0));
        let pts = seq![decimal(i)];
        let empty = Seq::<Seq<char>>::empty();
        lemma_slash_index_join(empty, i);
        assert(empty.push(decimal(i)) =~= pts);
        reveal_strlit("/");
        let key = slash_index(Seq::empty(), i) + "/"@ + f.0;
        let last = match json_get_str(entry, f.0) {
            Some(t) => if worth_field(t, f.2) {
                seq![(key, t, f.1)]
            } else {
                Seq::empty()
            },
            None => Seq::empty(),
        };
        if let Some(v) = json_get(entry, f.0) {
            if json_str(v) is Some {
                lemma_walk_member(root, pts, entry, f.0);
                lemma_leaf(root, pts.push(f.0), v);
                lemma_join_push(pts, f.0);
                assert(key =~= join_pointer(pts.push(f.0)));
            }
        }
        assert(all_point(root, last));
        lemma_all_point_concat(root, entry_segs(entry, i, init), last);
    }
}

proof fn lemma_entries_point(json: Json, n: int, fields: Seq<FieldRule>)
    requires
        json_array(json) matches Some(v) && 0 <= n <= v.len(),
        rules_plain(fields),
    ensures
        all_point(tree(json), entries_segs(json_array(json)->0.take(n), fields)),
    decreases n,
{
    let v = json_array(json)->0;
    let root = tree(json);
    if n > 0 {
        let t = v.take(n);
        assert(t.drop_last() =~= v.take(n - 1));
        assert(t.last() == v[n - 1]);
        lemma_entries_point(json, n - 1, fields);
        let empty = Seq::<Seq<char>>::empty();
        assert(resolve(root, empty) == Some(root));
        assert(plain_tokens(empty));
        lemma_walk_element(root, empty, json, n - 1);
        assert(empty.push(decimal((n - 1) as nat)) =~= seq![decimal((n - 1) as nat)]);
        lemma_entry_point(root, v[n - 1], (n - 1) as nat, fields);
        lemma_all_point_concat(root, entries_segs(v.take(n - 1), fields), entry_segs(v[n - 1], (n - 1) as nat, fields));
    }
}

/// Injecting the texts a database extractor gives back changes nothing,
/// for field names that are plain pointer tokens (as all of this module's
/// are; see `lemma_rules_plain`).
pub proof fn lemma_array_round_trip(json: Json, fields: Seq<FieldRule>)
    requires
        rules_plain(fields),
    ensures
        write_all(tree(json), seg_pairs(array_segs(json, fields))) == (tree(json), None::<(PointerFault, int)>),
{
    if let Some(v) = json_array(json) {
        lemma_entries_point(json, v.len() as int, fields);
        assert(v.take(v.len() as int) =~= v);
    }
    lemma_pairs_identity(tree(json), array_segs(json, fields));
}

/// The field names of this module's database extractors are plain.
pub proof fn lemma_rules_plain()
    ensures
        rules_plain(actor_rules()),
        rules_plain(item_rules()),
        rules_plain(skill_rules()),
        rules_plain(state_rules()),
        rules_plain(seq![("name"@, SegmentKind::ClassName, true)]),
        rules_plain(seq![("name"@, SegmentKind::EnemyName, true)]),
        rules_plain(seq![("name"@, SegmentKind::MapName, true)]),
{
    reveal_strlit("name");
    reveal_strlit("nickname");
    reveal_strlit("profile");
    reveal_strlit("description");
    reveal_strlit("message1");
    reveal_strlit("message2");
    reveal_strlit("message3");
    reveal_strlit("message4");
    assert(plain_token("name"@));
    assert(plain_token("nickname"@));
    assert(plain_token("profile"@));
    assert(plain_token("description"@));
    assert(plain_token("message1"@));
    assert(plain_token("message2"@));
    assert(plain_token("message3"@));
    assert(plain_token("message4"@));
}

proof fn lemma_nonblank_point(root: JsonTree, pts: Seq<Seq<char>>, node: Json, key: Seq<char>, kind: SegmentKind)
    requires
        plain_tokens(pts),
        plain_token(key),
        resolve(root, pts) == Some(tree(node)),
    ensures
        all_point(root, nonblank_seg(json_get_str(node, key), join_pointer(pts.push(key)), kind)),
{
    if let Some(v) = json_get(node, key) {
        if json_str(v) is Some {
            lemma_walk_member(root, pts, node, key);
            lemma_leaf(root, pts.push(key), v);
        }
    }
}

proof fn lemma_terms_point(root: JsonTree, pts: Seq<Seq<char>>, lnode: Json, n: int)
    requires
        plain_tokens(pts),
        resolve(root, pts) == Some(tree(lnode)),
        json_array(lnode) matches Some(v) && 0 <= n <= v.len(),
    ensures
        all_point(root, term_list_segs(json_array(lnode)->0.take(n), join_pointer(pts))),
    decreases n,
{
    let v = json_array(lnode)->0;
    if n > 0 {
        let t = v.take(n);
        assert(t.drop_last() =~= v.take(n - 1));
        assert(t.last() == v[n - 1]);
        lemma_terms_point(root, pts, lnode, n - 1);
        lemma_slash_index_join(pts, (n - 1) as nat);
        let last = nonblank_seg(json_str(v[n - 1]), slash_index(join_pointer(pts), (n - 1) as nat), SegmentKind::SystemTerm);
        if json_str(v[n - 1]) is Some {
            lemma_walk_element(root, pts, lnode, n - 1);
            lemma_leaf(root, pts.push(decimal((n - 1) as nat)), v[n - 1]);
        }
        assert(all_point(root, last));
        lemma_all_point_concat(root, term_list_segs(v.take(n - 1), join_pointer(pts)), last);
    }
}

proof fn lemma_terms_list_point(json: Json, name: Seq<char>)
    requires
        plain_token(name),
    ensures
        all_point(tree(json), terms_list_segs(json, name)),
{
    let root = tree(json);
    let empty = Seq::<Seq<char>>::empty();
    assert(resolve(root, empty) == Some(root));
    if let Some(tnode) = json_get(json, "terms"@) {
        if let Some(lnode) = json_get(tnode, name) {
            if let Some(v) = json_array(lnode) {
                lemma_plain_literals();
                lemma_walk_member(root, empty, json, "terms"@);
                let p1 = empty.push("terms"@);
                lemma_walk_member(root, p1, tnode, name);
                let p2 = p1.push(name);
                reveal_strlit("terms");
                reveal_strlit("/terms/");
                lemma_join_push(empty, "terms"@);
                lemma_join_push(p1, name);
                assert("/terms/"@ + name =~= join_pointer(p2));
                lemma_terms_point(root, p2, lnode, v.len() as int);
                assert(v.take(v.len() as int) =~= v);
            }
        }
    }
}

proof fn lemma_messages_point(root: JsonTree, pts: Seq<Seq<char>>, mnode: Json, order: Seq<int>)
    requires
        plain_tokens(pts),
        resolve(root, pts) == Some(tree(mnode)),
        json_object(mnode) matches Some(es) && distinct_plain_keys(es) && forall|p: int|
            0 <= p < order.len() ==> 0 <= #[trigger] order[p] < es.len(),
        join_pointer(pts) + seq!['/'] == "/terms/messages/"@,
    ensures
        all_point(root, message_segs(json_object(mnode)->0, order)),
    decreases order.len(),
{
    let es = json_object(mnode)->0;
    if order.len() > 0 {
        lemma_messages_point(root, pts, mnode, order.drop_last());
        let k = order.last();
        assert(k == order[order.len() - 1]);
        let e = es[k];
        let last = nonblank_seg(json_str(e.1), "/terms/messages/"@ + e.0@, SegmentKind::SystemTerm);
        if json_str(e.1) is Some {
            lemma_member_at(es, k, 0);
            assert(json_get(mnode, e.0@) == Some(e.1));
            lemma_walk_member(root, pts, mnode, e.0@);
            lemma_leaf(root, pts.push(e.0@), e.1);
            lemma_join_push(pts, e.0@);
            assert("/terms/messages/"@ + e.0@ =~= join_pointer(pts.push(e.0@)));
        }
        assert(all_point(root, last));
        lemma_all_point_concat(root, message_segs(es, order.drop_last()), last);
    }
}

/// The segments of `System.json` with its messages taken in `order`.
pub open spec fn system_segs_in(json: Json, order: Seq<int>) -> Seq<SegV> {
    system_head_segs(json) + match system_messages(json) {
        Some(es) => message_segs(es, order),
        None => Seq::empty(),
    }
}

/// Injecting the texts `extract_system` gives back changes nothing, for
/// messages whose keys are distinct (as a JSON object's are) plain pointer
/// tokens, in whatever order they are taken.
pub proof fn lemma_system_round_trip(json: Json, order: Seq<int>)
    requires
        system_messages(json) matches Some(es) ==> distinct_plain_keys(es) && forall|p: int|
            0 <= p < order.len() ==> 0 <= #[trigger] order[p] < es.len(),
    ensures
        write_all(tree(json), seg_pairs(system_segs_in(json, order))) == (tree(json), None::<(PointerFault, int)>),
{
    let root = tree(json);
    let empty = Seq::<Seq<char>>::empty();
    assert(resolve(root, empty) == Some(root));
    lemma_plain_literals();
    reveal_strlit("gameTitle");
    reveal_strlit("/gameTitle");
    reveal_strlit("currencyUnit");
    reveal_strlit("/currencyUnit");
    lemma_join_push(empty, "gameTitle"@);
    lemma_join_push(empty, "currencyUnit"@);
    assert("/gameTitle"@ =~= join_pointer(empty.push("gameTitle"@)));
    assert("/currencyUnit"@ =~= join_pointer(empty.push("currencyUnit"@)));
    lemma_nonblank_point(root, empty, json, "gameTitle"@, SegmentKind::GameTitle);
    lemma_nonblank_point(root, empty, json, "currencyUnit"@, SegmentKind::SystemTerm);
    lemma_terms_list_point(json, "basic"@);
    lemma_terms_list_point(json, "commands"@);
    lemma_terms_list_point(json, "params"@);
    let a = nonblank_seg(json_get_str(json, "gameTitle"@), "/gameTitle"@, SegmentKind::GameTitle);
    let b = nonblank_seg(json_get_str(json, "currencyUnit"@), "/currencyUnit"@, SegmentKind::SystemTerm);
    lemma_all_point_concat(root, a, b);
    lemma_all_point_concat(root, a + b, terms_list_segs(json, "basic"@));
    lemma_all_point_concat(root, a + b + terms_list_segs(json, "basic"@), terms_list_segs(json, "commands"@));
    lemma_all_point_concat(
        root,
        a + b + terms_list_segs(json, "basic"@) + terms_list_segs(json, "commands"@),
        terms_list_segs(json, "params"@),
    );
    let head = system_head_segs(json);
    let tail = match system_messages(json) {
        Some(es) => message_segs(es, order),
        None => Seq::empty(),
    };
    if let Some(tnode) = json_get(json, "terms"@) {
        if let Some(mnode) = json_get(tnode, "messages"@) {
            if json_object(mnode) is Some {
                lemma_walk_member(root, empty, json, "terms"@);
                let p1 = empty.push("terms"@);
                lemma_walk_member(root, p1, tnode, "messages"@);
                let p2 = p1.push("messages"@);
                reveal_strlit("terms");
                reveal_strlit("messages");
                reveal_strlit("/terms/messages/");
                lemma_join_push(empty, "terms"@);
                lemma_join_push(p1, "messages"@);
                assert(join_pointer(p2) + seq!['/'] =~= "/terms/messages/"@);
                lemma_messages_point(root, p2, mnode, order);
            }
        }
    }
    assert(all_point(root, tail));
    lemma_all_point_concat(root, head, tail);
    lemma_pairs_identity(root, system_segs_in(json, order));
}

} // verus!

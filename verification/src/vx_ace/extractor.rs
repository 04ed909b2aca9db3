//! RPG Maker VX Ace extractor: the translatable text of the `Data/*.rvdata2`
//! files, read as plain JSON trees (see `marshal::plain_tree`), each with
//! the JSON Pointer (RFC 6901) key the injector writes back through.
//!
//! Unlike MV/MZ, a map's `events` and `MapInfos` are hashes (objects) keyed
//! by number, taken in numeric key order; system fields are snake_case; a
//! message header (code 101) carries no speaker. Every text goes through
//! the editor's filter (`needs_translation`), whose escape-code syntax is
//! given as a regular expression (`placeholders`).
use vstd::prelude::*;

use crate::filter::{needs_translation, needs_translation_spec};
use crate::json::{
    all_point, distinct_plain_keys, indices_view, join_pointer, json_array, json_get, json_get_array, json_get_str,
    json_int, json_object, json_str, lemma_all_point_concat, lemma_join_push, lemma_leaf, lemma_member_at,
    lemma_pairs_identity, lemma_walk_element, lemma_walk_member, member_keys, member_order, numeric_member_order,
    numeric_order, plain_token, plain_tokens, resolve, seg_pairs, seq_get, sorted_order, tree, write_all, Json,
    JsonTree, PointerFault,
};
use crate::project::{is_numbered_map, numbered_map};
use crate::vx_ace::marshal::{marshal_load_call, marshal_tagged, plain_of, plain_tree};
use crate::wolf::dat_parser::{append_decimal, decimal};
use crate::wolf::decryptor::str_equal;

verus! {

/// What a text unit is, for the translator's context.
#[derive(Debug, Clone, Copy, PartialEq, Eq, Structural)]
pub enum SegmentKind {
    /// A line of dialogue (event code 401).
    Dialogue,
    /// A choice (event code 102).
    Choice,
    ActorName,
    ActorNickname,
    ActorDescription,
    ClassName,
    ItemName,
    ItemDescription,
    SkillName,
    SkillDescription,
    /// A skill's in-battle message.
    SkillMessage,
    EnemyName,
    StateName,
    /// A state's apply, persist or remove message.
    StateMessage,
    MapName,
    CommonEventName,
    /// The currency unit or a term of the system.
    SystemTerm,
    GameTitle,
}

/// One translatable text unit.
#[derive(Debug, Clone)]
pub struct ExtractedSegment {
    /// The JSON Pointer of the text in the file's tree.
    pub key: String,
    /// The text.
    pub source: String,
    pub kind: SegmentKind,
}

pub type SegV = (Seq<char>, Seq<char>, SegmentKind);

pub open spec fn segs_view(s: Seq<ExtractedSegment>) -> Seq<SegV> {
    s.map_values(|x: ExtractedSegment| (x.key@, x.source@, x.kind))
}

fn push_segment(out: &mut Vec<ExtractedSegment>, key: String, source: &str, kind: SegmentKind)
    ensures
        segs_view(final(out)@) == segs_view(old(out)@).push((key@, source@, kind)),
{
    out.push(ExtractedSegment { key, source: String::from_str(source), kind });
    assert(segs_view(out@) =~= segs_view(old(out)@).push((key@, source@, kind)));
}

/// `prefix` followed by `/` and the decimal digits of `n`.
pub open spec fn slash_index(prefix: Seq<char>, n: nat) -> Seq<char> {
    prefix + "/"@ + decimal(n)
}

/// A text at `key`, as a one-segment list when the filter keeps it.
pub open spec fn kept(text: Option<Seq<char>>, key: Seq<char>, kind: SegmentKind, placeholders: Seq<char>) -> Seq<SegV> {
    match text {
        Some(t) => if needs_translation_spec(t, placeholders) {
            seq![(key, t, kind)]
        } else {
            Seq::empty()
        },
        None => Seq::empty(),
    }
}

fn push_kept(out: &mut Vec<ExtractedSegment>, v: Option<&Json>, key: String, kind: SegmentKind, placeholders: &str)
    ensures
        segs_view(final(out)@) == segs_view(old(out)@) + kept(
            match v {
                Some(j) => json_str(*j),
                None => None,
            },
            key@,
            kind,
            placeholders@,
        ),
{
    if let Some(j) = v {
        if let Some(text) = j.as_str() {
            if needs_translation(text, placeholders) {
                push_segment(out, key, text, kind);
                return ;
            }
        }
    }
    assert(segs_view(out@) =~= segs_view(old(out)@) + kept(
        match v {
            Some(j) => json_str(*j),
            None => None,
        },
        key@,
        kind,
        placeholders@,
    ));
}

// ---------------------------------------------------------------------------
// Event command lists
// ---------------------------------------------------------------------------

/// The choices the filter keeps, keyed `{prefix}/{c}`.
pub open spec fn choice_segs(choices: Seq<Json>, prefix: Seq<char>, placeholders: Seq<char>) -> Seq<SegV>
    decreases choices.len(),
{
    if choices.len() == 0 {
        Seq::empty()
    } else {
        let ci = (choices.len() - 1) as nat;
        choice_segs(choices.drop_last(), prefix, placeholders) + kept(
            json_str(choices.last()),
            slash_index(prefix, ci),
            SegmentKind::Choice,
            placeholders,
        )
    }
}

/// The segments of one command at `path` (`{list}/{index}`): the line of a
/// 401, the choices of a 102.
pub open spec fn command_segs(cmd: Json, path: Seq<char>, placeholders: Seq<char>) -> Seq<SegV> {
    let code = match json_get(cmd, "code"@) {
        Some(c) => json_int(c),
        None => None,
    };
    match (code, json_get_array(cmd, "parameters"@)) {
        (Some(c), Some(ps)) => if c == 401 {
            match seq_get(ps, 0) {
                Some(v) => kept(json_str(v), path + "/parameters/0"@, SegmentKind::Dialogue, placeholders),
                None => Seq::empty(),
            }
        } else if c == 102 {
            match seq_get(ps, 0) {
                Some(v) => match json_array(v) {
                    Some(choices) => choice_segs(choices, path + "/parameters/0"@, placeholders),
                    None => Seq::empty(),
                },
                None => Seq::empty(),
            }
        } else {
            Seq::empty()
        },
        _ => Seq::empty(),
    }
}

/// The segments of an event command list at `list_path`.
pub open spec fn list_segs(list: Seq<Json>, list_path: Seq<char>, placeholders: Seq<char>) -> Seq<SegV>
    decreases list.len(),
{
    if list.len() == 0 {
        Seq::empty()
    } else {
        let li = (list.len() - 1) as nat;
        list_segs(list.drop_last(), list_path, placeholders) + command_segs(
            list.last(),
            slash_index(list_path, li),
            placeholders,
        )
    }
}

fn push_choices(out: &mut Vec<ExtractedSegment>, choices: &Vec<Json>, prefix: &String, placeholders: &str)
    ensures
        segs_view(final(out)@) == segs_view(old(out)@) + choice_segs(choices@, prefix@, placeholders@),
{
    let ghost start = segs_view(out@);
    let mut ci: usize = 0;
    assert(choices@.take(0) =~= Seq::<Json>::empty());
    assert(segs_view(out@) =~= start + choice_segs(choices@.take(0), prefix@, placeholders@));
    while ci < choices.len()
        invariant
            ci <= choices@.len(),
            segs_view(out@) == start + choice_segs(choices@.take(ci as int), prefix@, placeholders@),
        decreases choices@.len() - ci,
    {
        let key = append_decimal(prefix.clone().concat("/"), ci);
        push_kept(out, Some(&choices[ci]), key, SegmentKind::Choice, placeholders);
        proof {
            let t = choices@.take(ci + 1);
            assert(t.drop_last() =~= choices@.take(ci as int));
            assert(t.last() == choices@[ci as int]);
            assert(segs_view(out@) =~= start + choice_segs(t, prefix@, placeholders@));
        }
        ci = ci + 1;
    }
    assert(choices@.take(ci as int) =~= choices@);
}

fn push_command(out: &mut Vec<ExtractedSegment>, cmd: &Json, path: &String, placeholders: &str)
    ensures
        segs_view(final(out)@) == segs_view(old(out)@) + command_segs(*cmd, path@, placeholders@),
{
    let code = match cmd.get("code") {
        Some(c) => c.as_i64(),
        None => None,
    };
    let params = match cmd.get("parameters") {
        Some(p) => p.as_array(),
        None => None,
    };
    proof {
        reveal_strlit("code");
        reveal_strlit("parameters");
    }
    match (code, params) {
        (Some(c), Some(ps)) => {
            if c == 401 && ps.len() > 0 {
                push_kept(out, Some(&ps[0]), path.clone().concat("/parameters/0"), SegmentKind::Dialogue, placeholders);
            } else if c == 102 && ps.len() > 0 {
                match ps[0].as_array() {
                    Some(choices) => {
                        let prefix = path.clone().concat("/parameters/0");
                        push_choices(out, choices, &prefix, placeholders);
                    },
                    None => {
                        assert(segs_view(out@) =~= segs_view(old(out)@) + command_segs(*cmd, path@, placeholders@));
                    },
                }
            } else {
                assert(segs_view(out@) =~= segs_view(old(out)@) + command_segs(*cmd, path@, placeholders@));
            }
        },
        _ => {
            assert(segs_view(out@) =~= segs_view(old(out)@) + command_segs(*cmd, path@, placeholders@));
        },
    }
}

fn push_event_list(out: &mut Vec<ExtractedSegment>, list: &Vec<Json>, list_path: &String, placeholders: &str)
    ensures
        segs_view(final(out)@) == segs_view(old(out)@) + list_segs(list@, list_path@, placeholders@),
{
    let ghost start = segs_view(out@);
    let mut li: usize = 0;
    assert(list@.take(0) =~= Seq::<Json>::empty());
    assert(segs_view(out@) =~= start + list_segs(list@.take(0), list_path@, placeholders@));
    while li < list.len()
        invariant
            li <= list@.len(),
            segs_view(out@) == start + list_segs(list@.take(li as int), list_path@, placeholders@),
        decreases list@.len() - li,
    {
        let path = append_decimal(list_path.clone().concat("/"), li);
        push_command(out, &list[li], &path, placeholders);
        proof {
            let t = list@.take(li + 1);
            assert(t.drop_last() =~= list@.take(li as int));
            assert(t.last() == list@[li as int]);
            assert(segs_view(out@) =~= start + list_segs(t, list_path@, placeholders@));
        }
        li = li + 1;
    }
    assert(list@.take(li as int) =~= list@);
}

// ---------------------------------------------------------------------------
// Paged items: troops and map events
// ---------------------------------------------------------------------------

pub open spec fn page_segs(page: Json, path: Seq<char>, placeholders: Seq<char>) -> Seq<SegV> {
    match json_get_array(page, "list"@) {
        Some(list) => list_segs(list, path, placeholders),
        None => Seq::empty(),
    }
}

/// The segments of pages, keyed `{prefix}/{p}/list/...`.
pub open spec fn pages_segs(pages: Seq<Json>, prefix: Seq<char>, placeholders: Seq<char>) -> Seq<SegV>
    decreases pages.len(),
{
    if pages.len() == 0 {
        Seq::empty()
    } else {
        let pi = (pages.len() - 1) as nat;
        pages_segs(pages.drop_last(), prefix, placeholders) + page_segs(
            pages.last(),
            slash_index(prefix, pi) + "/list"@,
            placeholders,
        )
    }
}

/// The segments of the `pages` of an event or troop at `prefix`.
pub open spec fn paged_segs(item: Json, prefix: Seq<char>, placeholders: Seq<char>) -> Seq<SegV> {
    match json_get_array(item, "pages"@) {
        Some(pages) => pages_segs(pages, prefix, placeholders),
        None => Seq::empty(),
    }
}

/// The segments of the troops of `Data/Troops.rvdata2`, troop `i` keyed
/// `/{i}/pages/...`.
pub open spec fn troop_list_segs(troops: Seq<Json>, placeholders: Seq<char>) -> Seq<SegV>
    decreases troops.len(),
{
    if troops.len() == 0 {
        Seq::empty()
    } else {
        let i = (troops.len() - 1) as nat;
        troop_list_segs(troops.drop_last(), placeholders) + paged_segs(
            troops.last(),
            slash_index(Seq::empty(), i) + "/pages"@,
            placeholders,
        )
    }
}

pub open spec fn troops_segs(json: Json, placeholders: Seq<char>) -> Seq<SegV> {
    match json_array(json) {
        Some(troops) => troop_list_segs(troops, placeholders),
        None => Seq::empty(),
    }
}

/// The segments of a map's events taken in `order`, event `k` keyed
/// `/events/{key}/pages/...`.
pub open spec fn map_event_segs(es: Seq<(String, Json)>, order: Seq<int>, placeholders: Seq<char>) -> Seq<SegV>
    decreases order.len(),
{
    if order.len() == 0 {
        Seq::empty()
    } else {
        let e = es[order.last()];
        map_event_segs(es, order.drop_last(), placeholders) + paged_segs(
            e.1,
            "/events/"@ + e.0@ + "/pages"@,
            placeholders,
        )
    }
}

/// What the segments of `Data/MapXXX.rvdata2` are: those of every page of
/// every event, events taken in numeric key order.
pub open spec fn map_result(json: Json, placeholders: Seq<char>, segs: Seq<SegV>) -> bool {
    match json_get(json, "events"@) {
        Some(ev) => match json_object(ev) {
            Some(es) => exists|order: Seq<int>|
                #[trigger] numeric_order(member_keys(es), order) && segs == map_event_segs(es, order, placeholders),
            None => segs == Seq::<SegV>::empty(),
        },
        None => segs == Seq::<SegV>::empty(),
    }
}

fn push_page(out: &mut Vec<ExtractedSegment>, page: &Json, path: &String, placeholders: &str)
    ensures
        segs_view(final(out)@) == segs_view(old(out)@) + page_segs(*page, path@, placeholders@),
{
    proof {
        reveal_strlit("list");
    }
    match page.get("list") {
        Some(l) => match l.as_array() {
            Some(list) => push_event_list(out, list, path, placeholders),
            None => {
                assert(segs_view(out@) =~= segs_view(old(out)@) + page_segs(*page, path@, placeholders@));
            },
        },
        None => {
            assert(segs_view(out@) =~= segs_view(old(out)@) + page_segs(*page, path@, placeholders@));
        },
    }
}

fn push_paged(out: &mut Vec<ExtractedSegment>, item: &Json, prefix: &String, placeholders: &str)
    ensures
        segs_view(final(out)@) == segs_view(old(out)@) + paged_segs(*item, prefix@, placeholders@),
{
    proof {
        reveal_strlit("pages");
    }
    let pages = match item.get("pages") {
        Some(p) => p.as_array(),
        None => None,
    };
    match pages {
        Some(pages) => {
            let ghost start = segs_view(out@);
            let mut pi: usize = 0;
            assert(pages@.take(0) =~= Seq::<Json>::empty());
            assert(segs_view(out@) =~= start + pages_segs(pages@.take(0), prefix@, placeholders@));
            while pi < pages.len()
                invariant
                    pi <= pages@.len(),
                    segs_view(out@) == start + pages_segs(pages@.take(pi as int), prefix@, placeholders@),
                decreases pages@.len() - pi,
            {
                let path = append_decimal(prefix.clone().concat("/"), pi).concat("/list");
                push_page(out, &pages[pi], &path, placeholders);
                proof {
                    let t = pages@.take(pi + 1);
                    assert(t.drop_last() =~= pages@.take(pi as int));
                    assert(t.last() == pages@[pi as int]);
                    assert(segs_view(out@) =~= start + pages_segs(t, prefix@, placeholders@));
                }
                pi = pi + 1;
            }
            assert(pages@.take(pi as int) =~= pages@);
        },
        None => {
            assert(segs_view(out@) =~= segs_view(old(out)@) + paged_segs(*item, prefix@, placeholders@));
        },
    }
}

/// The segments of `Data/Troops.rvdata2` (see `troops_segs`).
pub fn extract_troops(json: &Json, placeholders: &str) -> (segs: Vec<ExtractedSegment>)
    ensures
        segs_view(segs@) == troops_segs(*json, placeholders@),
{
    let mut out: Vec<ExtractedSegment> = Vec::new();
    let troops = match json.as_array() {
        Some(t) => t,
        None => {
            return out;
        },
    };
    let mut i: usize = 0;
    assert(troops@.take(0) =~= Seq::<Json>::empty());
    assert(segs_view(out@) =~= Seq::<SegV>::empty());
    while i < troops.len()
        invariant
            i <= troops@.len(),
            segs_view(out@) == troop_list_segs(troops@.take(i as int), placeholders@),
        decreases troops@.len() - i,
    {
        let prefix = String::from_str("/").concat(append_decimal(String::from_str(""), i).as_str()).concat("/pages");
        proof {
            reveal_strlit("");
            reveal_strlit("/");
            assert(prefix@ =~= slash_index(Seq::empty(), i as nat) + "/pages"@);
        }
        push_paged(&mut out, &troops[i], &prefix, placeholders);
        proof {
            let t = troops@.take(i + 1);
            assert(t.drop_last() =~= troops@.take(i as int));
            assert(t.last() == troops@[i as int]);
            assert(segs_view(out@) =~= troop_list_segs(t, placeholders@));
        }
        i = i + 1;
    }
    assert(troops@.take(i as int) =~= troops@);
    out
}

/// The segments of `Data/MapXXX.rvdata2`: events are a hash keyed by
/// number, taken in numeric key order (see `map_result`).
pub fn extract_map(json: &Json, placeholders: &str) -> (segs: Vec<ExtractedSegment>)
    ensures
        map_result(*json, placeholders@, segs_view(segs@)),
{
    let mut out: Vec<ExtractedSegment> = Vec::new();
    proof {
        reveal_strlit("events");
    }
    let events = match json.get("events") {
        Some(e) => e.as_object(),
        None => None,
    };
    let es = match events {
        Some(es) => es,
        None => {
            assert(segs_view(out@) =~= Seq::<SegV>::empty());
            return out;
        },
    };
    let order = numeric_member_order(es);
    let ghost ov = indices_view(order@);
    let mut p: usize = 0;
    assert(ov.take(0) =~= Seq::<int>::empty());
    assert(segs_view(out@) =~= Seq::<SegV>::empty());
    while p < order.len()
        invariant
            p <= order@.len(),
            ov == indices_view(order@),
            numeric_order(member_keys(es@), ov),
            segs_view(out@) == map_event_segs(es@, ov.take(p as int), placeholders@),
        decreases order@.len() - p,
    {
        let k = order[p];
        assert(ov[p as int] == k as int);
        let prefix = String::from_str("/events/").concat(es[k].0.as_str()).concat("/pages");
        push_paged(&mut out, &es[k].1, &prefix, placeholders);
        proof {
            let t = ov.take(p + 1);
            assert(t.drop_last() =~= ov.take(p as int));
            assert(t.last() == k as int);
            assert(segs_view(out@) =~= map_event_segs(es@, t, placeholders@));
        }
        p = p + 1;
    }
    assert(ov.take(p as int) =~= ov);
    assert(numeric_order(member_keys(es@), ov) && segs_view(out@) == map_event_segs(es@, ov, placeholders@));
    out
}

// ---------------------------------------------------------------------------
// Map names and common events
// ---------------------------------------------------------------------------

/// The map names taken in `order`, keyed `/{key}/name`.
pub open spec fn map_info_segs(es: Seq<(String, Json)>, order: Seq<int>, placeholders: Seq<char>) -> Seq<SegV>
    decreases order.len(),
{
    if order.len() == 0 {
        Seq::empty()
    } else {
        let e = es[order.last()];
        map_info_segs(es, order.drop_last(), placeholders) + kept(
            json_get_str(e.1, "name"@),
            "/"@ + e.0@ + "/name"@,
            SegmentKind::MapName,
            placeholders,
        )
    }
}

/// What the segments of `Data/MapInfos.rvdata2` are: a hash keyed by map
/// number, names taken in numeric key order.
pub open spec fn map_infos_result(json: Json, placeholders: Seq<char>, segs: Seq<SegV>) -> bool {
    match json_object(json) {
        Some(es) => exists|order: Seq<int>|
            #[trigger] numeric_order(member_keys(es), order) && segs == map_info_segs(es, order, placeholders),
        None => segs == Seq::<SegV>::empty(),
    }
}

/// The segments of `Data/MapInfos.rvdata2` (see `map_infos_result`).
pub fn extract_map_infos(json: &Json, placeholders: &str) -> (segs: Vec<ExtractedSegment>)
    ensures
        map_infos_result(*json, placeholders@, segs_view(segs@)),
{
    let mut out: Vec<ExtractedSegment> = Vec::new();
    let es = match json.as_object() {
        Some(es) => es,
        None => {
            assert(segs_view(out@) =~= Seq::<SegV>::empty());
            return out;
        },
    };
    proof {
        reveal_strlit("name");
    }
    let order = numeric_member_order(es);
    let ghost ov = indices_view(order@);
    let mut p: usize = 0;
    assert(ov.take(0) =~= Seq::<int>::empty());
    assert(segs_view(out@) =~= Seq::<SegV>::empty());
    while p < order.len()
        invariant
            p <= order@.len(),
            ov == indices_view(order@),
            numeric_order(member_keys(es@), ov),
            segs_view(out@) == map_info_segs(es@, ov.take(p as int), placeholders@),
        decreases order@.len() - p,
    {
        let k = order[p];
        assert(ov[p as int] == k as int);
        let key = String::from_str("/").concat(es[k].0.as_str()).concat("/name");
        push_kept(&mut out, es[k].1.get("name"), key, SegmentKind::MapName, placeholders);
        proof {
            let t = ov.take(p + 1);
            assert(t.drop_last() =~= ov.take(p as int));
            assert(t.last() == k as int);
            assert(segs_view(out@) =~= map_info_segs(es@, t, placeholders@));
        }
        p = p + 1;
    }
    assert(ov.take(p as int) =~= ov);
    assert(numeric_order(member_keys(es@), ov) && segs_view(out@) == map_info_segs(es@, ov, placeholders@));
    out
}

/// The segments of one common event: its name, then its command list.
pub open spec fn common_event_segs(event: Json, i: nat, placeholders: Seq<char>) -> Seq<SegV> {
    let base = slash_index(Seq::empty(), i);
    kept(json_get_str(event, "name"@), base + "/name"@, SegmentKind::CommonEventName, placeholders) + match json_get_array(
        event,
        "list"@,
    ) {
        Some(l) => list_segs(l, base + "/list"@, placeholders),
        None => Seq::empty(),
    }
}

pub open spec fn common_events_list_segs(events: Seq<Json>, placeholders: Seq<char>) -> Seq<SegV>
    decreases events.len(),
{
    if events.len() == 0 {
        Seq::empty()
    } else {
        common_events_list_segs(events.drop_last(), placeholders) + common_event_segs(
            events.last(),
            (events.len() - 1) as nat,
            placeholders,
        )
    }
}

pub open spec fn common_events_segs(json: Json, placeholders: Seq<char>) -> Seq<SegV> {
    match json_array(json) {
        Some(events) => common_events_list_segs(events, placeholders),
        None => Seq::empty(),
    }
}

/// The segments of `Data/CommonEvents.rvdata2` (see `common_events_segs`).
pub fn extract_common_events(json: &Json, placeholders: &str) -> (segs: Vec<ExtractedSegment>)
    ensures
        segs_view(segs@) == common_events_segs(*json, placeholders@),
{
    let mut out: Vec<ExtractedSegment> = Vec::new();
    let events = match json.as_array() {
        Some(e) => e,
        None => {
            return out;
        },
    };
    proof {
        reveal_strlit("name");
        reveal_strlit("list");
    }
    let mut ei: usize = 0;
    assert(events@.take(0) =~= Seq::<Json>::empty());
    assert(segs_view(out@) =~= Seq::<SegV>::empty());
    while ei < events.len()
        invariant
            ei <= events@.len(),
            segs_view(out@) == common_events_list_segs(events@.take(ei as int), placeholders@),
        decreases events@.len() - ei,
    {
        let ghost before = segs_view(out@);
        let event = &events[ei];
        let base = String::from_str("/").concat(append_decimal(String::from_str(""), ei).as_str());
        proof {
            reveal_strlit("");
            reveal_strlit("/");
            assert(base@ =~= slash_index(Seq::empty(), ei as nat));
        }
        if !event.is_null() {
            push_kept(&mut out, event.get("name"), base.clone().concat("/name"), SegmentKind::CommonEventName, placeholders);
            if let Some(l) = event.get("list") {
                if let Some(list) = l.as_array() {
                    let path = base.clone().concat("/list");
                    push_event_list(&mut out, list, &path, placeholders);
                }
            }
        }
        proof {
            let t = events@.take(ei + 1);
            assert(t.drop_last() =~= events@.take(ei as int));
            assert(t.last() == events@[ei as int]);
            assert(segs_view(out@) =~= common_events_list_segs(t, placeholders@));
        }
        ei = ei + 1;
    }
    assert(events@.take(ei as int) =~= events@);
    out
}

// ---------------------------------------------------------------------------
// Database arrays
// ---------------------------------------------------------------------------

/// A field to extract from each entry, and its kind.
pub type FieldRule = (Seq<char>, SegmentKind);

/// The fields of entry `i` the filter keeps, keyed `/{i}/{field}`.
pub open spec fn entry_segs(entry: Json, i: nat, fields: Seq<FieldRule>, placeholders: Seq<char>) -> Seq<SegV>
    decreases fields.len(),
{
    if fields.len() == 0 {
        Seq::empty()
    } else {
        let f = fields.last();
        entry_segs(entry, i, fields.drop_last(), placeholders) + kept(
            json_get_str(entry, f.0),
            slash_index(Seq::empty(), i) + "/"@ + f.0,
            f.1,
            placeholders,
        )
    }
}

pub open spec fn entries_segs(entries: Seq<Json>, fields: Seq<FieldRule>, placeholders: Seq<char>) -> Seq<SegV>
    decreases entries.len(),
{
    if entries.len() == 0 {
        Seq::empty()
    } else {
        entries_segs(entries.drop_last(), fields, placeholders) + entry_segs(
            entries.last(),
            (entries.len() - 1) as nat,
            fields,
            placeholders,
        )
    }
}

/// The segments of a database array `[null, {field: text, ...}, ...]`.
pub open spec fn array_segs(json: Json, fields: Seq<FieldRule>, placeholders: Seq<char>) -> Seq<SegV> {
    match json_array(json) {
        Some(entries) => entries_segs(entries, fields, placeholders),
        None => Seq::empty(),
    }
}

pub open spec fn rules_view(fields: Seq<(&str, SegmentKind)>) -> Seq<FieldRule> {
    fields.map_values(|f: (&str, SegmentKind)| (f.0@, f.1))
}

proof fn lemma_null_entry_segs(entry: Json, i: nat, fields: Seq<FieldRule>, placeholders: Seq<char>)
    requires
        entry is Null,
    ensures
        entry_segs(entry, i, fields, placeholders) == Seq::<SegV>::empty(),
    decreases fields.len(),
{
    if fields.len() > 0 {
        lemma_null_entry_segs(entry, i, fields.drop_last(), placeholders);
    }
}

fn extract_fields(json: &Json, fields: &Vec<(&str, SegmentKind)>, placeholders: &str) -> (segs: Vec<ExtractedSegment>)
    ensures
        segs_view(segs@) == array_segs(*json, rules_view(fields@), placeholders@),
{
    let mut out: Vec<ExtractedSegment> = Vec::new();
    let arr = match json.as_array() {
        Some(a) => a,
        None => {
            return out;
        },
    };
    let ghost fv = rules_view(fields@);
    let mut i: usize = 0;
    assert(arr@.take(0) =~= Seq::<Json>::empty());
    assert(segs_view(out@) =~= Seq::<SegV>::empty());
    while i < arr.len()
        invariant
            i <= arr@.len(),
            fv == rules_view(fields@),
            segs_view(out@) == entries_segs(arr@.take(i as int), fv, placeholders@),
        decreases arr@.len() - i,
    {
        let ghost before = segs_view(out@);
        let entry = &arr[i];
        let base = String::from_str("/").concat(append_decimal(String::from_str(""), i).as_str());
        proof {
            reveal_strlit("");
            reveal_strlit("/");
            assert(base@ =~= slash_index(Seq::empty(), i as nat));
        }
        if !entry.is_null() {
            let mut k: usize = 0;
            assert(fv.take(0) =~= Seq::<FieldRule>::empty());
            assert(segs_view(out@) =~= before + entry_segs(*entry, i as nat, fv.take(0), placeholders@));
            while k < fields.len()
                invariant
                    k <= fields@.len(),
                    fv == rules_view(fields@),
                    segs_view(out@) == before + entry_segs(*entry, i as nat, fv.take(k as int), placeholders@),
                    base@ == slash_index(Seq::empty(), i as nat),
                decreases fields@.len() - k,
            {
                let (field, kind) = fields[k];
                let key = base.clone().concat("/").concat(field);
                push_kept(&mut out, entry.get(field), key, kind, placeholders);
                proof {
                    let t = fv.take(k + 1);
                    assert(t.drop_last() =~= fv.take(k as int));
                    assert(t.last() == (field@, kind));
                    assert(segs_view(out@) =~= before + entry_segs(*entry, i as nat, t, placeholders@));
                }
                k = k + 1;
            }
            assert(fv.take(k as int) =~= fv);
        } else {
            proof {
                lemma_null_entry_segs(*entry, i as nat, fv, placeholders@);
            }
            assert(segs_view(out@) =~= before + entry_segs(*entry, i as nat, fv, placeholders@));
        }
        proof {
            let t = arr@.take(i + 1);
            assert(t.drop_last() =~= arr@.take(i as int));
            assert(t.last() == arr@[i as int]);
            assert(segs_view(out@) =~= entries_segs(t, fv, placeholders@));
        }
        i = i + 1;
    }
    assert(arr@.take(i as int) =~= arr@);
    out
}

pub open spec fn actor_rules() -> Seq<FieldRule> {
    seq![("name"@, SegmentKind::ActorName), ("nickname"@, SegmentKind::ActorNickname), ("description"@, SegmentKind::ActorDescription)]
}

pub open spec fn item_rules() -> Seq<FieldRule> {
    seq![("name"@, SegmentKind::ItemName), ("description"@, SegmentKind::ItemDescription)]
}

pub open spec fn skill_rules() -> Seq<FieldRule> {
    seq![
        ("name"@, SegmentKind::SkillName),
        ("description"@, SegmentKind::SkillDescription),
        ("message1"@, SegmentKind::SkillMessage),
        ("message2"@, SegmentKind::SkillMessage),
    ]
}

pub open spec fn state_rules() -> Seq<FieldRule> {
    seq![
        ("name"@, SegmentKind::StateName),
        ("message1"@, SegmentKind::StateMessage),
        ("message2"@, SegmentKind::StateMessage),
        ("message3"@, SegmentKind::StateMessage),
        ("message4"@, SegmentKind::StateMessage),
    ]
}

/// The segments of `Data/Actors.rvdata2`: name, nickname and description.
pub fn extract_actors(json: &Json, placeholders: &str) -> (segs: Vec<ExtractedSegment>)
    ensures
        segs_view(segs@) == array_segs(*json, actor_rules(), placeholders@),
{
    let mut f: Vec<(&str, SegmentKind)> = Vec::new();
    f.push(("name", SegmentKind::ActorName));
    f.push(("nickname", SegmentKind::ActorNickname));
    f.push(("description", SegmentKind::ActorDescription));
    assert(rules_view(f@) =~= actor_rules());
    extract_fields(json, &f, placeholders)
}

/// The segments of `Data/Classes.rvdata2`: names.
pub fn extract_classes(json: &Json, placeholders: &str) -> (segs: Vec<ExtractedSegment>)
    ensures
        segs_view(segs@) == array_segs(*json, seq![("name"@, SegmentKind::ClassName)], placeholders@),
{
    let mut f: Vec<(&str, SegmentKind)> = Vec::new();
    f.push(("name", SegmentKind::ClassName));
    assert(rules_view(f@) =~= seq![("name"@, SegmentKind::ClassName)]);
    extract_fields(json, &f, placeholders)
}

fn item_fields() -> (f: Vec<(&'static str, SegmentKind)>)
    ensures
        rules_view(f@) == item_rules(),
{
    let mut f: Vec<(&str, SegmentKind)> = Vec::new();
    f.push(("name", SegmentKind::ItemName));
    f.push(("description", SegmentKind::ItemDescription));
    assert(rules_view(f@) =~= item_rules());
    f
}

/// The segments of `Data/Items.rvdata2`: name and description.
pub fn extract_items(json: &Json, placeholders: &str) -> (segs: Vec<ExtractedSegment>)
    ensures
        segs_view(segs@) == array_segs(*json, item_rules(), placeholders@),
{
    extract_fields(json, &item_fields(), placeholders)
}

/// The segments of `Data/Weapons.rvdata2`, which are shaped as items.
pub fn extract_weapons(json: &Json, placeholders: &str) -> (segs: Vec<ExtractedSegment>)
    ensures
        segs_view(segs@) == array_segs(*json, item_rules(), placeholders@),
{
    extract_fields(json, &item_fields(), placeholders)
}

/// The segments of `Data/Armors.rvdata2`, which are shaped as items.
pub fn extract_armors(json: &Json, placeholders: &str) -> (segs: Vec<ExtractedSegment>)
    ensures
        segs_view(segs@) == array_segs(*json, item_rules(), placeholders@),
{
    extract_fields(json, &item_fields(), placeholders)
}

/// The segments of `Data/Skills.rvdata2`: name, description and the two
/// in-battle messages.
pub fn extract_skills(json: &Json, placeholders: &str) -> (segs: Vec<ExtractedSegment>)
    ensures
        segs_view(segs@) == array_segs(*json, skill_rules(), placeholders@),
{
    let mut f: Vec<(&str, SegmentKind)> = Vec::new();
    f.push(("name", SegmentKind::SkillName));
    f.push(("description", SegmentKind::SkillDescription));
    f.push(("message1", SegmentKind::SkillMessage));
    f.push(("message2", SegmentKind::SkillMessage));
    assert(rules_view(f@) =~= skill_rules());
    extract_fields(json, &f, placeholders)
}

/// The segments of `Data/States.rvdata2`: name and the four messages.
pub fn extract_states(json: &Json, placeholders: &str) -> (segs: Vec<ExtractedSegment>)
    ensures
        segs_view(segs@) == array_segs(*json, state_rules(), placeholders@),
{
    let mut f: Vec<(&str, SegmentKind)> = Vec::new();
    f.push(("name", SegmentKind::StateName));
    f.push(("message1", SegmentKind::StateMessage));
    f.push(("message2", SegmentKind::StateMessage));
    f.push(("message3", SegmentKind::StateMessage));
    f.push(("message4", SegmentKind::StateMessage));
    assert(rules_view(f@) =~= state_rules());
    extract_fields(json, &f, placeholders)
}

/// The segments of `Data/Enemies.rvdata2`: names.
pub fn extract_enemies(json: &Json, placeholders: &str) -> (segs: Vec<ExtractedSegment>)
    ensures
        segs_view(segs@) == array_segs(*json, seq![("name"@, SegmentKind::EnemyName)], placeholders@),
{
    let mut f: Vec<(&str, SegmentKind)> = Vec::new();
    f.push(("name", SegmentKind::EnemyName));
    assert(rules_view(f@) =~= seq![("name"@, SegmentKind::EnemyName)]);
    extract_fields(json, &f, placeholders)
}

// ---------------------------------------------------------------------------
// System
// ---------------------------------------------------------------------------

/// The system terms of a list the filter keeps, keyed `{prefix}/{i}`.
pub open spec fn term_list_segs(terms: Seq<Json>, prefix: Seq<char>, placeholders: Seq<char>) -> Seq<SegV>
    decreases terms.len(),
{
    if terms.len() == 0 {
        Seq::empty()
    } else {
        let i = (terms.len() - 1) as nat;
        term_list_segs(terms.drop_last(), prefix, placeholders) + kept(
            json_str(terms.last()),
            slash_index(prefix, i),
            SegmentKind::SystemTerm,
            placeholders,
        )
    }
}

/// `/terms/{name}` of a system file.
pub open spec fn terms_part(json: Json, name: Seq<char>) -> Option<Json> {
    match json_get(json, "terms"@) {
        Some(t) => json_get(t, name),
        None => None,
    }
}

pub open spec fn terms_list_segs(json: Json, name: Seq<char>, placeholders: Seq<char>) -> Seq<SegV> {
    match terms_part(json, name) {
        Some(v) => match json_array(v) {
            Some(terms) => term_list_segs(terms, "/terms/"@ + name, placeholders),
            None => Seq::empty(),
        },
        None => Seq::empty(),
    }
}

/// Everything of `System.rvdata2` but the messages: `game_title`,
/// `currency_unit`, and the basic, command and parameter terms.
pub open spec fn system_head_segs(json: Json, placeholders: Seq<char>) -> Seq<SegV> {
    kept(json_get_str(json, "game_title"@), "/game_title"@, SegmentKind::GameTitle, placeholders) + kept(
        json_get_str(json, "currency_unit"@),
        "/currency_unit"@,
        SegmentKind::SystemTerm,
        placeholders,
    ) + terms_list_segs(json, "basic"@, placeholders) + terms_list_segs(json, "commands"@, placeholders)
        + terms_list_segs(json, "params"@, placeholders)
}

/// The messages taken in `order`, keyed `/terms/messages/{key}`.
pub open spec fn message_segs(es: Seq<(String, Json)>, order: Seq<int>, placeholders: Seq<char>) -> Seq<SegV>
    decreases order.len(),
{
    if order.len() == 0 {
        Seq::empty()
    } else {
        let e = es[order.last()];
        message_segs(es, order.drop_last(), placeholders) + kept(
            json_str(e.1),
            "/terms/messages/"@ + e.0@,
            SegmentKind::SystemTerm,
            placeholders,
        )
    }
}

/// What the segments of `Data/System.rvdata2` are: the head, then the
/// messages sorted by key (ties in document order).
pub open spec fn system_result(json: Json, placeholders: Seq<char>, segs: Seq<SegV>) -> bool {
    match terms_part(json, "messages"@) {
        Some(v) => match json_object(v) {
            Some(es) => exists|order: Seq<int>|
                #[trigger] sorted_order(member_keys(es), order) && segs == system_head_segs(json, placeholders)
                    + message_segs(es, order, placeholders),
            None => segs == system_head_segs(json, placeholders),
        },
        None => segs == system_head_segs(json, placeholders),
    }
}

fn push_term_list(out: &mut Vec<ExtractedSegment>, json: &Json, name: &str, placeholders: &str)
    ensures
        segs_view(final(out)@) == segs_view(old(out)@) + terms_list_segs(*json, name@, placeholders@),
{
    proof {
        reveal_strlit("terms");
    }
    let part = match json.get("terms") {
        Some(t) => t.get(name),
        None => None,
    };
    let terms = match part {
        Some(v) => v.as_array(),
        None => None,
    };
    match terms {
        Some(terms) => {
            let prefix = String::from_str("/terms/").concat(name);
            let ghost start = segs_view(out@);
            let mut i: usize = 0;
            assert(terms@.take(0) =~= Seq::<Json>::empty());
            assert(segs_view(out@) =~= start + term_list_segs(terms@.take(0), prefix@, placeholders@));
            while i < terms.len()
                invariant
                    i <= terms@.len(),
                    segs_view(out@) == start + term_list_segs(terms@.take(i as int), prefix@, placeholders@),
                decreases terms@.len() - i,
            {
                let key = append_decimal(prefix.clone().concat("/"), i);
                push_kept(out, Some(&terms[i]), key, SegmentKind::SystemTerm, placeholders);
                proof {
                    let t = terms@.take(i + 1);
                    assert(t.drop_last() =~= terms@.take(i as int));
                    assert(t.last() == terms@[i as int]);
                    assert(segs_view(out@) =~= start + term_list_segs(t, prefix@, placeholders@));
                }
                i = i + 1;
            }
            assert(terms@.take(i as int) =~= terms@);
        },
        None => {
            assert(segs_view(out@) =~= segs_view(old(out)@) + terms_list_segs(*json, name@, placeholders@));
        },
    }
}

/// The segments of `Data/System.rvdata2` (see `system_result`).
pub fn extract_system(json: &Json, placeholders: &str) -> (segs: Vec<ExtractedSegment>)
    ensures
        system_result(*json, placeholders@, segs_view(segs@)),
{
    let mut out: Vec<ExtractedSegment> = Vec::new();
    proof {
        reveal_strlit("game_title");
        reveal_strlit("currency_unit");
        reveal_strlit("terms");
        reveal_strlit("messages");
    }
    push_kept(&mut out, json.get("game_title"), String::from_str("/game_title"), SegmentKind::GameTitle, placeholders);
    push_kept(&mut out, json.get("currency_unit"), String::from_str("/currency_unit"), SegmentKind::SystemTerm, placeholders);
    push_term_list(&mut out, json, "basic", placeholders);
    push_term_list(&mut out, json, "commands", placeholders);
    push_term_list(&mut out, json, "params", placeholders);
    let ghost head = segs_view(out@);
    assert(head =~= system_head_segs(*json, placeholders@));
    let part = match json.get("terms") {
        Some(t) => t.get("messages"),
        None => None,
    };
    let messages = match part {
        Some(v) => v.as_object(),
        None => None,
    };
    match messages {
        Some(es) => {
            let order = member_order(es);
            let ghost ov = indices_view(order@);
            let mut p: usize = 0;
            assert(ov.take(0) =~= Seq::<int>::empty());
            assert(segs_view(out@) =~= head + message_segs(es@, ov.take(0), placeholders@));
            while p < order.len()
                invariant
                    p <= order@.len(),
                    ov == indices_view(order@),
                    sorted_order(member_keys(es@), ov),
                    segs_view(out@) == head + message_segs(es@, ov.take(p as int), placeholders@),
                decreases order@.len() - p,
            {
                let k = order[p];
                assert(ov[p as int] == k as int);
                let key = String::from_str("/terms/messages/").concat(es[k].0.as_str());
                push_kept(&mut out, Some(&es[k].1), key, SegmentKind::SystemTerm, placeholders);
                proof {
                    let t = ov.take(p + 1);
                    assert(t.drop_last() =~= ov.take(p as int));
                    assert(t.last() == k as int);
                    assert(segs_view(out@) =~= head + message_segs(es@, t, placeholders@));
                }
                p = p + 1;
            }
            assert(ov.take(p as int) =~= ov);
            assert(sorted_order(member_keys(es@), ov) && segs_view(out@) == system_head_segs(*json, placeholders@)
                + message_segs(es@, ov, placeholders@));
        },
        None => {},
    }
    out
}

// ---------------------------------------------------------------------------
// Files
// ---------------------------------------------------------------------------

/// What the segments of the file `name` are: a numbered map
/// (`Map{n}.rvdata2`) or one of the database files; none for any other file.
pub open spec fn file_result(name: Seq<char>, json: Json, placeholders: Seq<char>, segs: Seq<SegV>) -> bool {
    if numbered_map(name, "MapInfos.rvdata2"@, ".rvdata2"@) {
        map_result(json, placeholders, segs)
    } else if name == "Actors.rvdata2"@ {
        segs == array_segs(json, actor_rules(), placeholders)
    } else if name == "Armors.rvdata2"@ || name == "Items.rvdata2"@ || name == "Weapons.rvdata2"@ {
        segs == array_segs(json, item_rules(), placeholders)
    } else if name == "Classes.rvdata2"@ {
        segs == array_segs(json, seq![("name"@, SegmentKind::ClassName)], placeholders)
    } else if name == "CommonEvents.rvdata2"@ {
        segs == common_events_segs(json, placeholders)
    } else if name == "Enemies.rvdata2"@ {
        segs == array_segs(json, seq![("name"@, SegmentKind::EnemyName)], placeholders)
    } else if name == "MapInfos.rvdata2"@ {
        map_infos_result(json, placeholders, segs)
    } else if name == "Skills.rvdata2"@ {
        segs == array_segs(json, skill_rules(), placeholders)
    } else if name == "States.rvdata2"@ {
        segs == array_segs(json, state_rules(), placeholders)
    } else if name == "System.rvdata2"@ {
        system_result(json, placeholders, segs)
    } else if name == "Troops.rvdata2"@ {
        segs == troops_segs(json, placeholders)
    } else {
        segs == Seq::<SegV>::empty()
    }
}

/// The segments of a `.rvdata2` file by its name (see `file_result`).
pub fn dispatch_extract(file_name: &str, json: &Json, placeholders: &str) -> (segs: Vec<ExtractedSegment>)
    ensures
        file_result(file_name@, *json, placeholders@, segs_view(segs@)),
{
    if is_numbered_map(file_name, "MapInfos.rvdata2", ".rvdata2") {
        return extract_map(json, placeholders);
    }
    if str_equal(file_name, "Actors.rvdata2") {
        extract_actors(json, placeholders)
    } else if str_equal(file_name, "Armors.rvdata2") {
        extract_armors(json, placeholders)
    } else if str_equal(file_name, "Items.rvdata2") {
        extract_items(json, placeholders)
    } else if str_equal(file_name, "Weapons.rvdata2") {
        extract_weapons(json, placeholders)
    } else if str_equal(file_name, "Classes.rvdata2") {
        extract_classes(json, placeholders)
    } else if str_equal(file_name, "CommonEvents.rvdata2") {
        extract_common_events(json, placeholders)
    } else if str_equal(file_name, "Enemies.rvdata2") {
        extract_enemies(json, placeholders)
    } else if str_equal(file_name, "MapInfos.rvdata2") {
        extract_map_infos(json, placeholders)
    } else if str_equal(file_name, "Skills.rvdata2") {
        extract_skills(json, placeholders)
    } else if str_equal(file_name, "States.rvdata2") {
        extract_states(json, placeholders)
    } else if str_equal(file_name, "System.rvdata2") {
        extract_system(json, placeholders)
    } else if str_equal(file_name, "Troops.rvdata2") {
        extract_troops(json, placeholders)
    } else {
        let out: Vec<ExtractedSegment> = Vec::new();
        assert(segs_view(out@) =~= Seq::<SegV>::empty());
        out
    }
}

// ---------------------------------------------------------------------------
// What the keys point at
// ---------------------------------------------------------------------------

proof fn lemma_slash_index_join(pts: Seq<Seq<char>>, n: nat)
    ensures
        slash_index(join_pointer(pts), n) == join_pointer(pts.push(decimal(n))),
{
    reveal_strlit("/");
    assert(pts.push(decimal(n)).drop_last() =~= pts);
}

proof fn lemma_plain_literals()
    ensures
        plain_token("parameters"@),
        plain_token("list"@),
        plain_token("pages"@),
        plain_token("events"@),
        plain_token("name"@),
        plain_token("terms"@),
        plain_token("messages"@),
        plain_token("game_title"@),
        plain_token("currency_unit"@),
        plain_token("basic"@),
        plain_token("commands"@),
        plain_token("params"@),
{
    reveal_strlit("parameters");
    reveal_strlit("list");
    reveal_strlit("pages");
    reveal_strlit("events");
    reveal_strlit("name");
    reveal_strlit("terms");
    reveal_strlit("messages");
    reveal_strlit("game_title");
    reveal_strlit("currency_unit");
    reveal_strlit("basic");
    reveal_strlit("commands");
    reveal_strlit("params");
}

/// A kept string at the end of a plain path is what its pointer selects.
proof fn lemma_kept_point(root: JsonTree, pts: Seq<Seq<char>>, node: Json, kind: SegmentKind, placeholders: Seq<char>)
    requires
        plain_tokens(pts),
        resolve(root, pts) == Some(tree(node)),
    ensures
        all_point(root, kept(json_str(node), join_pointer(pts), kind, placeholders)),
{
    if json_str(node) is Some {
        lemma_leaf(root, pts, node);
    }
}

proof fn lemma_choices_point(root: JsonTree, pts: Seq<Seq<char>>, cnode: Json, n: int, placeholders: Seq<char>)
    requires
        plain_tokens(pts),
        resolve(root, pts) == Some(tree(cnode)),
        json_array(cnode) matches Some(cs) && 0 <= n <= cs.len(),
    ensures
        all_point(root, choice_segs(json_array(cnode)->0.take(n), join_pointer(pts), placeholders)),
    decreases n,
{
    let cs = json_array(cnode)->0;
    if n > 0 {
        let t = cs.take(n);
        assert(t.drop_last() =~= cs.take(n - 1));
        assert(t.last() == cs[n - 1]);
        lemma_choices_point(root, pts, cnode, n - 1, placeholders);
        lemma_slash_index_join(pts, (n - 1) as nat);
        lemma_walk_element(root, pts, cnode, n - 1);
        lemma_kept_point(root, pts.push(decimal((n - 1) as nat)), cs[n - 1], SegmentKind::Choice, placeholders);
        lemma_all_point_concat(
            root,
            choice_segs(cs.take(n - 1), join_pointer(pts), placeholders),
            kept(json_str(cs[n - 1]), slash_index(join_pointer(pts), (n - 1) as nat), SegmentKind::Choice, placeholders),
        );
    }
}

proof fn lemma_command_point(root: JsonTree, pts: Seq<Seq<char>>, cmd: Json, placeholders: Seq<char>)
    requires
        plain_tokens(pts),
        resolve(root, pts) == Some(tree(cmd)),
    ensures
        all_point(root, command_segs(cmd, join_pointer(pts), placeholders)),
{
    let path = join_pointer(pts);
    if let Some(pnode) = json_get(cmd, "parameters"@) {
        if let Some(ps) = json_array(pnode) {
            if ps.len() > 0 {
                lemma_plain_literals();
                lemma_walk_member(root, pts, cmd, "parameters"@);
                let pp = pts.push("parameters"@);
                reveal_strlit("parameters");
                reveal_strlit("/parameters/0");
                lemma_join_push(pts, "parameters"@);
                lemma_join_push(pp, decimal(0));
                assert(path + "/parameters/0"@ =~= join_pointer(pp.push(decimal(0))));
                lemma_walk_element(root, pp, pnode, 0);
                lemma_kept_point(root, pp.push(decimal(0)), ps[0], SegmentKind::Dialogue, placeholders);
                if let Some(choices) = json_array(ps[0]) {
                    lemma_choices_point(root, pp.push(decimal(0)), ps[0], choices.len() as int, placeholders);
                    assert(choices.take(choices.len() as int) =~= choices);
                }
            }
        }
    }
}

proof fn lemma_list_point(root: JsonTree, pts: Seq<Seq<char>>, lnode: Json, n: int, placeholders: Seq<char>)
    requires
        plain_tokens(pts),
        resolve(root, pts) == Some(tree(lnode)),
        json_array(lnode) matches Some(l) && 0 <= n <= l.len(),
    ensures
        all_point(root, list_segs(json_array(lnode)->0.take(n), join_pointer(pts), placeholders)),
    decreases n,
{
    let l = json_array(lnode)->0;
    if n > 0 {
        let t = l.take(n);
        assert(t.drop_last() =~= l.take(n - 1));
        assert(t.last() == l[n - 1]);
        lemma_list_point(root, pts, lnode, n - 1, placeholders);
        lemma_walk_element(root, pts, lnode, n - 1);
        lemma_slash_index_join(pts, (n - 1) as nat);
        lemma_command_point(root, pts.push(decimal((n - 1) as nat)), l[n - 1], placeholders);
        lemma_all_point_concat(
            root,
            list_segs(l.take(n - 1), join_pointer(pts), placeholders),
            command_segs(l[n - 1], slash_index(join_pointer(pts), (n - 1) as nat), placeholders),
        );
    }
}

proof fn lemma_named_list_point(root: JsonTree, pts: Seq<Seq<char>>, node: Json, placeholders: Seq<char>)
    requires
        plain_tokens(pts),
        resolve(root, pts) == Some(tree(node)),
    ensures
        all_point(root, match json_get_array(node, "list"@) {
            Some(l) => list_segs(l, join_pointer(pts) + "/list"@, placeholders),
            None => Seq::empty(),
        }),
{
    if let Some(lnode) = json_get(node, "list"@) {
        if let Some(l) = json_array(lnode) {
            lemma_plain_literals();
            lemma_walk_member(root, pts, node, "list"@);
            reveal_strlit("list");
            reveal_strlit("/list");
            lemma_join_push(pts, "list"@);
            assert(join_pointer(pts) + "/list"@ =~= join_pointer(pts.push("list"@)));
            lemma_list_point(root, pts.push("list"@), lnode, l.len() as int, placeholders);
            assert(l.take(l.len() as int) =~= l);
        }
    }
}

proof fn lemma_pages_point(root: JsonTree, pts: Seq<Seq<char>>, pnode: Json, n: int, placeholders: Seq<char>)
    requires
        plain_tokens(pts),
        resolve(root, pts) == Some(tree(pnode)),
        json_array(pnode) matches Some(p) && 0 <= n <= p.len(),
    ensures
        all_point(root, pages_segs(json_array(pnode)->0.take(n), join_pointer(pts), placeholders)),
    decreases n,
{
    let p = json_array(pnode)->0;
    if n > 0 {
        let t = p.take(n);
        assert(t.drop_last() =~= p.take(n - 1));
        assert(t.last() == p[n - 1]);
        lemma_pages_point(root, pts, pnode, n - 1, placeholders);
        lemma_walk_element(root, pts, pnode, n - 1);
        lemma_slash_index_join(pts, (n - 1) as nat);
        lemma_named_list_point(root, pts.push(decimal((n - 1) as nat)), p[n - 1], placeholders);
        lemma_all_point_concat(
            root,
            pages_segs(p.take(n - 1), join_pointer(pts), placeholders),
            page_segs(p[n - 1], slash_index(join_pointer(pts), (n - 1) as nat) + "/list"@, placeholders),
        );
    }
}

proof fn lemma_paged_point(root: JsonTree, pts: Seq<Seq<char>>, item: Json, placeholders: Seq<char>)
    requires
        plain_tokens(pts),
        resolve(root, pts) == Some(tree(item)),
    ensures
        all_point(root, paged_segs(item, join_pointer(pts) + "/pages"@, placeholders)),
{
    if let Some(pnode) = json_get(item, "pages"@) {
        if let Some(p) = json_array(pnode) {
            lemma_plain_literals();
            lemma_walk_member(root, pts, item, "pages"@);
            reveal_strlit("pages");
            reveal_strlit("/pages");
            lemma_join_push(pts, "pages"@);
            assert(join_pointer(pts) + "/pages"@ =~= join_pointer(pts.push("pages"@)));
            lemma_pages_point(root, pts.push("pages"@), pnode, p.len() as int, placeholders);
            assert(p.take(p.len() as int) =~= p);
        }
    }
}

proof fn lemma_troops_point(json: Json, n: int, placeholders: Seq<char>)
    requires
        json_array(json) matches Some(v) && 0 <= n <= v.len(),
    ensures
        all_point(tree(json), troop_list_segs(json_array(json)->0.take(n), placeholders)),
    decreases n,
{
    let v = json_array(json)->0;
    let root = tree(json);
    if n > 0 {
        let t = v.take(n);
        assert(t.drop_last() =~= v.take(n - 1));
        assert(t.last() == v[n - 1]);
        lemma_troops_point(json, n - 1, placeholders);
        let empty = Seq::<Seq<char>>::empty();
        assert(resolve(root, empty) == Some(root));
        assert(plain_tokens(empty));
        assert(join_pointer(empty) == Seq::<char>::empty());
        lemma_walk_element(root, empty, json, n - 1);
        lemma_slash_index_join(empty, (n - 1) as nat);
        lemma_paged_point(root, empty.push(decimal((n - 1) as nat)), v[n - 1], placeholders);
        lemma_all_point_concat(
            root,
            troop_list_segs(v.take(n - 1), placeholders),
            paged_segs(v[n - 1], slash_index(Seq::empty(), (n - 1) as nat) + "/pages"@, placeholders),
        );
    }
}

/// Injecting the texts `extract_troops` gives back changes nothing.
pub proof fn lemma_troops_round_trip(json: Json, placeholders: Seq<char>)
    ensures
        write_all(tree(json), seg_pairs(troops_segs(json, placeholders))) == (tree(json), None::<(PointerFault, int)>),
{
    if let Some(v) = json_array(json) {
        lemma_troops_point(json, v.len() as int, placeholders);
        assert(v.take(v.len() as int) =~= v);
    }
    lemma_pairs_identity(tree(json), troops_segs(json, placeholders));
}

/// Indices into `es`.
pub open spec fn valid_order(es: Seq<(String, Json)>, order: Seq<int>) -> bool {
    forall|p: int| 0 <= p < order.len() ==> 0 <= #[trigger] order[p] < es.len()
}

proof fn lemma_map_events_point(root: JsonTree, pts: Seq<Seq<char>>, enode: Json, order: Seq<int>, placeholders: Seq<char>)
    requires
        plain_tokens(pts),
        resolve(root, pts) == Some(tree(enode)),
        json_object(enode) matches Some(es) && distinct_plain_keys(es) && valid_order(es, order),
        join_pointer(pts) + seq!['/'] == "/events/"@,
    ensures
        all_point(root, map_event_segs(json_object(enode)->0, order, placeholders)),
    decreases order.len(),
{
    let es = json_object(enode)->0;
    if order.len() > 0 {
        lemma_map_events_point(root, pts, enode, order.drop_last(), placeholders);
        let k = order.last();
        assert(k == order[order.len() - 1]);
        let e = es[k];
        lemma_member_at(es, k, 0);
        assert(json_get(enode, e.0@) == Some(e.1));
        lemma_walk_member(root, pts, enode, e.0@);
        lemma_paged_point(root, pts.push(e.0@), e.1, placeholders);
        lemma_join_push(pts, e.0@);
        assert("/events/"@ + e.0@ =~= join_pointer(pts.push(e.0@)));
        lemma_all_point_concat(
            root,
            map_event_segs(es, order.drop_last(), placeholders),
            paged_segs(e.1, "/events/"@ + e.0@ + "/pages"@, placeholders),
        );
    }
}

/// Injecting the texts `extract_map` gives back changes nothing, for event
/// keys that are distinct (as a hash's are) plain pointer tokens, taken in
/// whatever order.
pub proof fn lemma_map_round_trip(json: Json, order: Seq<int>, placeholders: Seq<char>)
    requires
        json_get(json, "events"@) matches Some(ev) && json_object(ev) matches Some(es) ==> distinct_plain_keys(es)
            && valid_order(es, order),
    ensures
        ({
            let segs = match json_get(json, "events"@) {
                Some(ev) => match json_object(ev) {
                    Some(es) => map_event_segs(es, order, placeholders),
                    None => Seq::empty(),
                },
                None => Seq::empty(),
            };
            write_all(tree(json), seg_pairs(segs)) == (tree(json), None::<(PointerFault, int)>)
        }),
{
    let root = tree(json);
    let empty = Seq::<Seq<char>>::empty();
    assert(resolve(root, empty) == Some(root));
    let segs = match json_get(json, "events"@) {
        Some(ev) => match json_object(ev) {
            Some(es) => map_event_segs(es, order, placeholders),
            None => Seq::empty(),
        },
        None => Seq::empty(),
    };
    if let Some(enode) = json_get(json, "events"@) {
        if json_object(enode) is Some {
            lemma_plain_literals();
            lemma_walk_member(root, empty, json, "events"@);
            reveal_strlit("events");
            reveal_strlit("/events/");
            lemma_join_push(empty, "events"@);
            assert(join_pointer(empty.push("events"@)) + seq!['/'] =~= "/events/"@);
            lemma_map_events_point(root, empty.push("events"@), enode, order, placeholders);
        }
    }
    assert(all_point(root, segs));
    lemma_pairs_identity(root, segs);
}

proof fn lemma_kept_member_point(root: JsonTree, pts: Seq<Seq<char>>, node: Json, key: Seq<char>, kind: SegmentKind, placeholders: Seq<char>)
    requires
        plain_tokens(pts),
        plain_token(key),
        resolve(root, pts) == Some(tree(node)),
    ensures
        all_point(root, kept(json_get_str(node, key), join_pointer(pts.push(key)), kind, placeholders)),
{
    if let Some(v) = json_get(node, key) {
        if json_str(v) is Some {
            lemma_walk_member(root, pts, node, key);
            lemma_leaf(root, pts.push(key), v);
        }
    }
}

proof fn lemma_map_infos_point(root: JsonTree, es: Seq<(String, Json)>, json: Json, order: Seq<int>, placeholders: Seq<char>)
    requires
        root == tree(json),
        json_object(json) == Some(es),
        distinct_plain_keys(es),
        valid_order(es, order),
    ensures
        all_point(root, map_info_segs(es, order, placeholders)),
    decreases order.len(),
{
    if order.len() > 0 {
        lemma_map_infos_point(root, es, json, order.drop_last(), placeholders);
        let k = order.last();
        assert(k == order[order.len() - 1]);
        let e = es[k];
        let empty = Seq::<Seq<char>>::empty();
        assert(resolve(root, empty) == Some(root));
        assert(plain_tokens(empty));
        lemma_member_at(es, k, 0);
        assert(json_get(json, e.0@) == Some(e.1));
        lemma_walk_member(root, empty, json, e.0@);
        let pts = empty.push(e.0@);
        lemma_plain_literals();
        lemma_kept_member_point(root, pts, e.1, "name"@, SegmentKind::MapName, placeholders);
        reveal_strlit("/");
        reveal_strlit("name");
        reveal_strlit("/name");
        lemma_join_push(empty, e.0@);
        lemma_join_push(pts, "name"@);
        assert("/"@ + e.0@ + "/name"@ =~= join_pointer(pts.push("name"@)));
        lemma_all_point_concat(
            root,
            map_info_segs(es, order.drop_last(), placeholders),
            kept(json_get_str(e.1, "name"@), "/"@ + e.0@ + "/name"@, SegmentKind::MapName, placeholders),
        );
    }
}

/// Injecting the texts `extract_map_infos` gives back changes nothing, for
/// keys that are distinct plain pointer tokens, taken in whatever order.
pub proof fn lemma_map_infos_round_trip(json: Json, order: Seq<int>, placeholders: Seq<char>)
    requires
        json_object(json) matches Some(es) ==> distinct_plain_keys(es) && valid_order(es, order),
    ensures
        ({
            let segs = match json_object(json) {
                Some(es) => map_info_segs(es, order, placeholders),
                None => Seq::empty(),
            };
            write_all(tree(json), seg_pairs(segs)) == (tree(json), None::<(PointerFault, int)>)
        }),
{
    let segs = match json_object(json) {
        Some(es) => map_info_segs(es, order, placeholders),
        None => Seq::empty(),
    };
    if let Some(es) = json_object(json) {
        lemma_map_infos_point(tree(json), es, json, order, placeholders);
    }
    assert(all_point(tree(json), segs));
    lemma_pairs_identity(tree(json), segs);
}

proof fn lemma_common_events_point(json: Json, n: int, placeholders: Seq<char>)
    requires
        json_array(json) matches Some(v) && 0 <= n <= v.len(),
    ensures
        all_point(tree(json), common_events_list_segs(json_array(json)->0.take(n), placeholders)),
    decreases n,
{
    let v = json_array(json)->0;
    let root = tree(json);
    if n > 0 {
        let t = v.take(n);
        assert(t.drop_last() =~= v.take(n - 1));
        assert(t.last() == v[n - 1]);
        lemma_common_events_point(json, n - 1, placeholders);
        let empty = Seq::<Seq<char>>::empty();
        assert(resolve(root, empty) == Some(root));
        assert(plain_tokens(empty));
        assert(join_pointer(empty) == Seq::<char>::empty());
        lemma_walk_element(root, empty, json, n - 1);
        lemma_slash_index_join(empty, (n - 1) as nat);
        let pts = empty.push(decimal((n - 1) as nat));
        let base = slash_index(Seq::empty(), (n - 1) as nat);
        lemma_plain_literals();
        lemma_kept_member_point(root, pts, v[n - 1], "name"@, SegmentKind::CommonEventName, placeholders);
        reveal_strlit("name");
        reveal_strlit("/name");
        lemma_join_push(pts, "name"@);
        assert(base + "/name"@ =~= join_pointer(pts.push("name"@)));
        lemma_named_list_point(root, pts, v[n - 1], placeholders);
        let name = kept(json_get_str(v[n - 1], "name"@), base + "/name"@, SegmentKind::CommonEventName, placeholders);
        let list = match json_get_array(v[n - 1], "list"@) {
            Some(l) => list_segs(l, base + "/list"@, placeholders),
            None => Seq::empty(),
        };
        lemma_all_point_concat(root, name, list);
        lemma_all_point_concat(root, common_events_list_segs(v.take(n - 1), placeholders), name + list);
    }
}

/// Injecting the texts `extract_common_events` gives back changes nothing.
pub proof fn lemma_common_events_round_trip(json: Json, placeholders: Seq<char>)
    ensures
        write_all(tree(json), seg_pairs(common_events_segs(json, placeholders))) == (
            tree(json),
            None::<(PointerFault, int)>,
        ),
{
    if let Some(v) = json_array(json) {
        lemma_common_events_point(json, v.len() as int, placeholders);
        assert(v.take(v.len() as int) =~= v);
    }
    lemma_pairs_identity(tree(json), common_events_segs(json, placeholders));
}

/// Every field name of the rules is a plain pointer token.
pub open spec fn rules_plain(fields: Seq<FieldRule>) -> bool {
    forall|k: int| 0 <= k < fields.len() ==> plain_token((#[trigger] fields[k]).0)
}

proof fn lemma_entry_point(root: JsonTree, entry: Json, i: nat, fields: Seq<FieldRule>, placeholders: Seq<char>)
    requires
        resolve(root, seq![decimal(i)]) == Some(tree(entry)),
        plain_tokens(seq![decimal(i)]),
        rules_plain(fields),
    ensures
        all_point(root, entry_segs(entry, i, fields, placeholders)),
    decreases fields.len(),
{
    if fields.len() > 0 {
        let init = fields.drop_last();
        assert forall|k: int| 0 <= k < init.len() implies plain_token((#[trigger] init[k]).0) by {
            assert(init[k] == fields[k]);
        }
        lemma_entry_point(root, entry, i, init, placeholders);
        let f = fields.last();
        assert(plain_token(fields[fields.len() - 1].0));
        let pts = seq![decimal(i)];
        let empty = Seq::<Seq<char>>::empty();
        lemma_slash_index_join(empty, i);
        assert(empty.push(decimal(i)) =~= pts);
        reveal_strlit("/");
        let key = slash_index(Seq::empty(), i) + "/"@ + f.0;
        lemma_kept_member_point(root, pts, entry, f.0, f.1, placeholders);
        lemma_join_push(pts, f.0);
        assert(key =~= join_pointer(pts.push(f.0)));
        lemma_all_point_concat(root, entry_segs(entry, i, init, placeholders), kept(json_get_str(entry, f.0), key, f.1, placeholders));
    }
}

proof fn lemma_entries_point(json: Json, n: int, fields: Seq<FieldRule>, placeholders: Seq<char>)
    requires
        json_array(json) matches Some(v) && 0 <= n <= v.len(),
        rules_plain(fields),
    ensures
        all_point(tree(json), entries_segs(json_array(json)->0.take(n), fields, placeholders)),
    decreases n,
{
    let v = json_array(json)->0;
    let root = tree(json);
    if n > 0 {
        let t = v.take(n);
        assert(t.drop_last() =~= v.take(n - 1));
        assert(t.last() == v[n - 1]);
        lemma_entries_point(json, n - 1, fields, placeholders);
        let empty = Seq::<Seq<char>>::empty();
        assert(resolve(root, empty) == Some(root));
        assert(plain_tokens(empty));
        lemma_walk_element(root, empty, json, n - 1);
        assert(empty.push(decimal((n - 1) as nat)) =~= seq![decimal((n - 1) as nat)]);
        lemma_entry_point(root, v[n - 1], (n - 1) as nat, fields, placeholders);
        lemma_all_point_concat(
            root,
            entries_segs(v.take(n - 1), fields, placeholders),
            entry_segs(v[n - 1], (n - 1) as nat, fields, placeholders),
        );
    }
}

/// Injecting the texts a database extractor gives back changes nothing,
/// for field names that are plain pointer tokens (as all of this module's
/// are; see `lemma_rules_plain`).
pub proof fn lemma_array_round_trip(json: Json, fields: Seq<FieldRule>, placeholders: Seq<char>)
    requires
        rules_plain(fields),
    ensures
        write_all(tree(json), seg_pairs(array_segs(json, fields, placeholders))) == (
            tree(json),
            None::<(PointerFault, int)>,
        ),
{
    if let Some(v) = json_array(json) {
        lemma_entries_point(json, v.len() as int, fields, placeholders);
        assert(v.take(v.len() as int) =~= v);
    }
    lemma_pairs_identity(tree(json), array_segs(json, fields, placeholders));
}

/// The field names of this module's database extractors are plain.
pub proof fn lemma_rules_plain()
    ensures
        rules_plain(actor_rules()),
        rules_plain(item_rules()),
        rules_plain(skill_rules()),
        rules_plain(state_rules()),
        rules_plain(seq![("name"@, SegmentKind::ClassName)]),
        rules_plain(seq![("name"@, SegmentKind::EnemyName)]),
{
    reveal_strlit("name");
    reveal_strlit("nickname");
    reveal_strlit("description");
    reveal_strlit("message1");
    reveal_strlit("message2");
    reveal_strlit("message3");
    reveal_strlit("message4");
    assert(plain_token("name"@));
    assert(plain_token("nickname"@));
    assert(plain_token("description"@));
    assert(plain_token("message1"@));
    assert(plain_token("message2"@));
    assert(plain_token("message3"@));
    assert(plain_token("message4"@));
}

proof fn lemma_terms_point(root: JsonTree, pts: Seq<Seq<char>>, lnode: Json, n: int, placeholders: Seq<char>)
    requires
        plain_tokens(pts),
        resolve(root, pts) == Some(tree(lnode)),
        json_array(lnode) matches Some(v) && 0 <= n <= v.len(),
    ensures
        all_point(root, term_list_segs(json_array(lnode)->0.take(n), join_pointer(pts), placeholders)),
    decreases n,
{
    let v = json_array(lnode)->0;
    if n > 0 {
        let t = v.take(n);
        assert(t.drop_last() =~= v.take(n - 1));
        assert(t.last() == v[n - 1]);
        lemma_terms_point(root, pts, lnode, n - 1, placeholders);
        lemma_slash_index_join(pts, (n - 1) as nat);
        lemma_walk_element(root, pts, lnode, n - 1);
        lemma_kept_point(root, pts.push(decimal((n - 1) as nat)), v[n - 1], SegmentKind::SystemTerm, placeholders);
        lemma_all_point_concat(
            root,
            term_list_segs(v.take(n - 1), join_pointer(pts), placeholders),
            kept(json_str(v[n - 1]), slash_index(join_pointer(pts), (n - 1) as nat), SegmentKind::SystemTerm, placeholders),
        );
    }
}

proof fn lemma_terms_list_point(json: Json, name: Seq<char>, placeholders: Seq<char>)
    requires
        plain_token(name),
    ensures
        all_point(tree(json), terms_list_segs(json, name, placeholders)),
{
    let root = tree(json);
    let empty = Seq::<Seq<char>>::empty();
    assert(resolve(root, empty) == Some(root));
    if let Some(tnode) = json_get(json, "terms"@) {
        if let Some(lnode) = json_get(tnode, name) {
            if let Some(v) = json_array(lnode) {
                lemma_plain_literals();
                lemma_walk_member(root, empty, json, "terms"@);
                let p1 = empty.push("terms"@);
                lemma_walk_member(root, p1, tnode, name);
                let p2 = p1.push(name);
                reveal_strlit("terms");
                reveal_strlit("/terms/");
                lemma_join_push(empty, "terms"@);
                lemma_join_push(p1, name);
                assert("/terms/"@ + name =~= join_pointer(p2));
                lemma_terms_point(root, p2, lnode, v.len() as int, placeholders);
                assert(v.take(v.len() as int) =~= v);
            }
        }
    }
}

proof fn lemma_messages_point(root: JsonTree, pts: Seq<Seq<char>>, mnode: Json, order: Seq<int>, placeholders: Seq<char>)
    requires
        plain_tokens(pts),
        resolve(root, pts) == Some(tree(mnode)),
        json_object(mnode) matches Some(es) && distinct_plain_keys(es) && valid_order(es, order),
        join_pointer(pts) + seq!['/'] == "/terms/messages/"@,
    ensures
        all_point(root, message_segs(json_object(mnode)->0, order, placeholders)),
    decreases order.len(),
{
    let es = json_object(mnode)->0;
    if order.len() > 0 {
        lemma_messages_point(root, pts, mnode, order.drop_last(), placeholders);
        let k = order.last();
        assert(k == order[order.len() - 1]);
        let e = es[k];
        lemma_member_at(es, k, 0);
        assert(json_get(mnode, e.0@) == Some(e.1));
        lemma_walk_member(root, pts, mnode, e.0@);
        lemma_kept_point(root, pts.push(e.0@), e.1, SegmentKind::SystemTerm, placeholders);
        lemma_join_push(pts, e.0@);
        assert("/terms/messages/"@ + e.0@ =~= join_pointer(pts.push(e.0@)));
        lemma_all_point_concat(
            root,
            message_segs(es, order.drop_last(), placeholders),
            kept(json_str(e.1), "/terms/messages/"@ + e.0@, SegmentKind::SystemTerm, placeholders),
        );
    }
}

/// The messages object of `System.rvdata2`, when there is one.
pub open spec fn system_messages(json: Json) -> Option<Seq<(String, Json)>> {
    match terms_part(json, "messages"@) {
        Some(v) => json_object(v),
        None => None,
    }
}

/// The segments of `System.rvdata2` with its messages taken in `order`.
pub open spec fn system_segs_in(json: Json, order: Seq<int>, placeholders: Seq<char>) -> Seq<SegV> {
    system_head_segs(json, placeholders) + match system_messages(json) {
        Some(es) => message_segs(es, order, placeholders),
        None => Seq::empty(),
    }
}

/// Injecting the texts `extract_system` gives back changes nothing, for
/// messages whose keys are distinct plain pointer tokens, in whatever order
/// they are taken.
pub proof fn lemma_system_round_trip(json: Json, order: Seq<int>, placeholders: Seq<char>)
    requires
        system_messages(json) matches Some(es) ==> distinct_plain_keys(es) && valid_order(es, order),
    ensures
        write_all(tree(json), seg_pairs(system_segs_in(json, order, placeholders))) == (
            tree(json),
            None::<(PointerFault, int)>,
        ),
{
    let root = tree(json);
    let empty = Seq::<Seq<char>>::empty();
    assert(resolve(root, empty) == Some(root));
    lemma_plain_literals();
    reveal_strlit("game_title");
    reveal_strlit("/game_title");
    reveal_strlit("currency_unit");
    reveal_strlit("/currency_unit");
    lemma_join_push(empty, "game_title"@);
    lemma_join_push(empty, "currency_unit"@);
    assert("/game_title"@ =~= join_pointer(empty.push("game_title"@)));
    assert("/currency_unit"@ =~= join_pointer(empty.push("currency_unit"@)));
    lemma_kept_member_point(root, empty, json, "game_title"@, SegmentKind::GameTitle, placeholders);
    lemma_kept_member_point(root, empty, json, "currency_unit"@, SegmentKind::SystemTerm, placeholders);
    lemma_terms_list_point(json, "basic"@, placeholders);
    lemma_terms_list_point(json, "commands"@, placeholders);
    lemma_terms_list_point(json, "params"@, placeholders);
    let a = kept(json_get_str(json, "game_title"@), "/game_title"@, SegmentKind::GameTitle, placeholders);
    let b = kept(json_get_str(json, "currency_unit"@), "/currency_unit"@, SegmentKind::SystemTerm, placeholders);
    lemma_all_point_concat(root, a, b);
    lemma_all_point_concat(root, a + b, terms_list_segs(json, "basic"@, placeholders));
    lemma_all_point_concat(
        root,
        a + b + terms_list_segs(json, "basic"@, placeholders),
        terms_list_segs(json, "commands"@, placeholders),
    );
    lemma_all_point_concat(
        root,
        a + b + terms_list_segs(json, "basic"@, placeholders) + terms_list_segs(json, "commands"@, placeholders),
        terms_list_segs(json, "params"@, placeholders),
    );
    let head = system_head_segs(json, placeholders);
    let tail = match system_messages(json) {
        Some(es) => message_segs(es, order, placeholders),
        None => Seq::empty(),
    };
    if let Some(tnode) = json_get(json, "terms"@) {
        if let Some(mnode) = json_get(tnode, "messages"@) {
            if json_object(mnode) is Some {
                lemma_walk_member(root, empty, json, "terms"@);
                let p1 = empty.push("terms"@);
                lemma_walk_member(root, p1, tnode, "messages"@);
                let p2 = p1.push("messages"@);
                reveal_strlit("terms");
                reveal_strlit("messages");
                reveal_strlit("/terms/messages/");
                lemma_join_push(empty, "terms"@);
                lemma_join_push(p1, "messages"@);
                assert(join_pointer(p2) + seq!['/'] =~= "/terms/messages/"@);
                lemma_messages_point(root, p2, mnode, order, placeholders);
            }
        }
    }
    assert(all_point(root, tail));
    lemma_all_point_concat(root, head, tail);
    lemma_pairs_identity(root, system_segs_in(json, order, placeholders));
}

/// The segments of a raw `.rvdata2` file: its tagged tree read with
/// marshal-rs (see `marshal_tagged`), taken in its plain form (see
/// `plain_tree`), and extracted by file name (see `dispatch_extract`); none
/// when the bytes are no Marshal stream.
pub fn extract_from_bytes(file_name: &str, bytes: &[u8], placeholders: &str) -> (segs: Vec<ExtractedSegment>)
    ensures
        match marshal_tagged(bytes@) {
            None => segs@.len() == 0,
            Some(t) => exists|tagged: Json, plain: Json|
                tree(tagged) == t && tree(plain) == plain_tree(tagged) && file_result(
                    file_name@,
                    plain,
                    placeholders@,
                    segs_view(segs@),
                ),
        },
{
    match marshal_load_call(bytes) {
        None => Vec::new(),
        Some(tagged) => {
            let plain = plain_of(&tagged);
            dispatch_extract(file_name, &plain, placeholders)
        },
    }
}

} // verus!

//! Writing translations back into v3 (LZ4-compressed) `.mps` maps, under
//! the keys that extraction gives their strings.
use vstd::bytes::*;
use vstd::prelude::*;

use crate::wolf::dat_parser::{append_decimal, decimal};
use crate::wolf::decryptor::str_equal;
use crate::detector::WolfVersion;
use crate::wolf::extractor::{block_payload, scope_key_head, tree_view, CommandScope, CommandTree, ScopeView};
use crate::wolf::injector::{encode_for_wolf, wolf_encoded};
use crate::wolf::injector::{
    translations_view, wolf_string_bytes, write_wolf_string, InjectionResult, InjectorError, WolfTranslation,
};
use crate::wolf::text_filter::{is_blank, trimmed};
use crate::wolf::v3::command::{commands_view, Command, CommandModel, CID_CHOICES, CID_MESSAGE};
use crate::wolf::v3::compression::{
    self, decompress_v3, recompress_v3, unwrap_block, wrapped_block,
};
use crate::wolf::v3::map::{map_bytes, take_map, EventModel, MapModel, MapV3, PageModel, PageV3};

verus! {

// ---------------------------------------------------------------------------
// What a translation does to a string
// ---------------------------------------------------------------------------

/// The text that the translations give `key`: the last one with that key
/// wins, as in a map built from them in order.
pub open spec fn translation_of(ts: Seq<(Seq<char>, Seq<char>)>, key: Seq<char>) -> Option<Seq<char>>
    decreases ts.len(),
{
    if ts.len() == 0 {
        None
    } else if ts.last().0 == key {
        Some(ts.last().1)
    } else {
        translation_of(ts.drop_last(), key)
    }
}

/// A string after translation: blank strings are never touched; otherwise
/// the translation for its key, if any.
pub open spec fn translated_text(text: Seq<char>, key: Seq<char>, ts: Seq<(Seq<char>, Seq<char>)>) -> Seq<char> {
    if trimmed(text).len() == 0 {
        text
    } else {
        match translation_of(ts, key) {
            Some(t) => t,
            None => text,
        }
    }
}

pub open spec fn choice_key(prefix: Seq<char>, k: nat) -> Seq<char> {
    prefix + "/choices/"@ + decimal(k)
}

/// The strings of a command after translation: a message's first string,
/// or every choice; other commands are left alone.
pub open spec fn translated_args(c: CommandModel, prefix: Seq<char>, ts: Seq<(Seq<char>, Seq<char>)>) -> Seq<
    Seq<char>,
> {
    if c.cid == CID_MESSAGE && c.string_args.len() > 0 {
        c.string_args.update(0, translated_text(c.string_args[0], prefix, ts))
    } else if c.cid == CID_CHOICES {
        Seq::new(
            c.string_args.len(),
            |k: int| translated_text(c.string_args[k], choice_key(prefix, k as nat), ts),
        )
    } else {
        c.string_args
    }
}

pub open spec fn translated_command(c: CommandModel, prefix: Seq<char>, ts: Seq<(Seq<char>, Seq<char>)>) -> CommandModel {
    CommandModel { string_args: translated_args(c, prefix, ts), ..c }
}

/// How many of the first `n` strings differ.
pub open spec fn changed_count(a: Seq<Seq<char>>, b: Seq<Seq<char>>, n: int) -> nat
    decreases n,
{
    if n <= 0 {
        0
    } else {
        changed_count(a, b, n - 1) + if a[n - 1] != b[n - 1] {
            1nat
        } else {
            0nat
        }
    }
}

pub open spec fn command_changes(c: CommandModel, prefix: Seq<char>, ts: Seq<(Seq<char>, Seq<char>)>) -> nat {
    changed_count(c.string_args, translated_args(c, prefix, ts), c.string_args.len() as int)
}

/// The commands of one scope after translation.
pub open spec fn translated_commands(s: ScopeView, cs: Seq<CommandModel>, ts: Seq<(Seq<char>, Seq<char>)>) -> Seq<
    CommandModel,
> {
    Seq::new(cs.len(), |ci: int| translated_command(cs[ci], scope_key_head(s) + decimal(ci as nat), ts))
}

/// How many strings the translations change in the commands `cs[0..n]`.
pub open spec fn commands_changes(s: ScopeView, cs: Seq<CommandModel>, ts: Seq<(Seq<char>, Seq<char>)>, n: int) -> nat
    decreases n,
{
    if n <= 0 {
        0
    } else {
        commands_changes(s, cs, ts, n - 1) + command_changes(
            cs[n - 1],
            scope_key_head(s) + decimal((n - 1) as nat),
            ts,
        )
    }
}

pub open spec fn page_scope(map_name: Seq<char>, ei: int, pi: int) -> ScopeView {
    ScopeView::MapPage { map_name, event_idx: ei as nat, page_idx: pi as nat }
}

/// A page after translation: its commands, under the keys of page `pi` of
/// event `ei`.
pub open spec fn translated_page(p: PageModel, map_name: Seq<char>, ei: int, pi: int, ts: Seq<(Seq<char>, Seq<char>)>) -> PageModel {
    PageModel { commands: translated_commands(page_scope(map_name, ei, pi), p.commands, ts), ..p }
}

/// Event `ei` after translation: each of its pages.
pub open spec fn translated_event(e: EventModel, map_name: Seq<char>, ei: int, ts: Seq<(Seq<char>, Seq<char>)>) -> EventModel {
    EventModel {
        pages: Seq::new(e.pages.len(), |pi: int| translated_page(e.pages[pi], map_name, ei, pi, ts)),
        ..e
    }
}

/// A map after translation, under the keys `MapData/{map}/events/{e}/pages/{p}/{c}`.
pub open spec fn translated_map(m: MapModel, map_name: Seq<char>, ts: Seq<(Seq<char>, Seq<char>)>) -> MapModel {
    MapModel {
        events: Seq::new(m.events.len(), |ei: int| translated_event(m.events[ei], map_name, ei, ts)),
        ..m
    }
}

pub open spec fn pages_changes(map_name: Seq<char>, ei: int, ps: Seq<PageModel>, ts: Seq<(Seq<char>, Seq<char>)>, n: int) -> nat
    decreases n,
{
    if n <= 0 {
        0
    } else {
        pages_changes(map_name, ei, ps, ts, n - 1) + commands_changes(
            page_scope(map_name, ei, n - 1),
            ps[n - 1].commands,
            ts,
            ps[n - 1].commands.len() as int,
        )
    }
}

/// How many strings the translations change in the events `es[0..n]`.
pub open spec fn events_changes(map_name: Seq<char>, es: Seq<EventModel>, ts: Seq<(Seq<char>, Seq<char>)>, n: int) -> nat
    decreases n,
{
    if n <= 0 {
        0
    } else {
        events_changes(map_name, es, ts, n - 1) + pages_changes(
            map_name,
            n - 1,
            es[n - 1].pages,
            ts,
            es[n - 1].pages.len() as int,
        )
    }
}

pub open spec fn capped(n: nat) -> usize {
    if n > usize::MAX {
        usize::MAX
    } else {
        n as usize
    }
}

// ---------------------------------------------------------------------------
// In place
// ---------------------------------------------------------------------------

/// The last translation whose key is `key`.
pub fn find_translation(ts: &Vec<WolfTranslation>, key: &str) -> (r: Option<String>)
    ensures
        match translation_of(translations_view(ts@), key@) {
            Some(t) => r matches Some(s) && s@ == t,
            None => r is None,
        },
{
    let ghost tv = translations_view(ts@);
    let mut i: usize = ts.len();
    assert(tv.take(i as int) =~= tv);
    while i > 0
        invariant
            i <= ts@.len(),
            tv == translations_view(ts@),
            translation_of(tv, key@) == translation_of(tv.take(i as int), key@),
        decreases i,
    {
        let t = &ts[i - 1];
        assert(tv.take(i as int).last() == (t.key@, t.text@));
        assert(tv.take(i as int).drop_last() =~= tv.take(i - 1));
        if str_equal(t.key.as_str(), key) {
            return Some(t.text.clone());
        }
        i = i - 1;
    }
    assert(tv.take(0) =~= Seq::<(Seq<char>, Seq<char>)>::empty());
    None
}

fn translate_text(text: &String, key: &str, ts: &Vec<WolfTranslation>) -> (r: Option<String>)
    ensures
        match r {
            Some(t) => t@ == translated_text(text@, key@, translations_view(ts@)) && t@ != text@,
            None => translated_text(text@, key@, translations_view(ts@)) == text@,
        },
{
    if is_blank(text.as_str()) {
        return None;
    }
    match find_translation(ts, key) {
        Some(t) => {
            if str_equal(t.as_str(), text.as_str()) {
                None
            } else {
                Some(t)
            }
        },
        None => None,
    }
}

fn translate_command(c: &mut Command, prefix: &String, ts: &Vec<WolfTranslation>) -> (n: usize)
    ensures
        final(c)@ == translated_command(old(c)@, prefix@, translations_view(ts@)),
        n == command_changes(old(c)@, prefix@, translations_view(ts@)),
{
    let ghost tv = translations_view(ts@);
    let ghost before = c@;
    if c.cid == CID_MESSAGE && c.string_args.len() > 0 {
        let r = translate_text(&c.string_args[0], prefix.as_str(), ts);
        match r {
            Some(t) => {
                c.string_args.set(0, t);
                assert(c@.string_args =~= translated_args(before, prefix@, tv));
                assert(changed_count(before.string_args, c@.string_args, before.string_args.len() as int) == 1)
                    by {
                    lemma_changed_one(before.string_args, c@.string_args, before.string_args.len() as int);
                }
                1
            },
            None => {
                proof {
                    assert(c@.string_args =~= translated_args(before, prefix@, tv));
                    lemma_changed_none(before.string_args, before.string_args.len() as int);
                }
                0
            },
        }
    } else if c.cid == CID_CHOICES {
        let len = c.string_args.len();
        let mut k: usize = 0;
        let mut count: usize = 0;
        while k < len
            invariant
                len == before.string_args.len(),
                c@.cid == before.cid,
                c@.args == before.args,
                c@.indent == before.indent,
                c@.move_data == before.move_data,
                c@.v35_unknown == before.v35_unknown,
                c@.string_args.len() == len,
                k <= len,
                forall|j: int| 0 <= j < k ==> #[trigger] c@.string_args[j] == translated_text(
                    before.string_args[j],
                    choice_key(prefix@, j as nat),
                    tv,
                ),
                forall|j: int| k <= j < len ==> #[trigger] c@.string_args[j] == before.string_args[j],
                count == changed_count(before.string_args, c@.string_args, k as int),
                count <= k,
                tv == translations_view(ts@),
            decreases len - k,
        {
            let key = append_decimal(prefix.clone().concat("/choices/"), k);
            assert(key@ == choice_key(prefix@, k as nat));
            let ghost old_args = c@.string_args;
            assert(c@.string_args[k as int] == before.string_args[k as int]);
            assert(c@.string_args[k as int] == c.string_args@[k as int]@);
            let r = translate_text(&c.string_args[k], key.as_str(), ts);
            match r {
                Some(t) => {
                    let ghost tv_t = t@;
                    c.string_args.set(k, t);
                    assert(c@.string_args =~= old_args.update(k as int, tv_t));
                    count = count + 1;
                },
                None => {
                    assert(c@.string_args == old_args);
                },
            }
            proof {
                lemma_changed_count_frame(before.string_args, old_args, c@.string_args, k as int);
                assert(changed_count(before.string_args, c@.string_args, k + 1) == changed_count(
                    before.string_args,
                    c@.string_args,
                    k as int,
                ) + if before.string_args[k as int] != c@.string_args[k as int] {
                    1nat
                } else {
                    0nat
                });
            }
            k = k + 1;
        }
        proof {
            let ta = translated_args(before, prefix@, tv);
            assert(c@.string_args =~= ta);
        }
        count
    } else {
        proof {
            lemma_changed_none(before.string_args, before.string_args.len() as int);
        }
        0
    }
}

proof fn lemma_changed_none(a: Seq<Seq<char>>, n: int)
    ensures
        changed_count(a, a, n) == 0,
    decreases n,
{
    if n > 0 {
        lemma_changed_none(a, n - 1);
    }
}

proof fn lemma_changed_one(a: Seq<Seq<char>>, b: Seq<Seq<char>>, n: int)
    requires
        1 <= n <= a.len(),
        a.len() == b.len(),
        a[0] != b[0],
        forall|j: int| 1 <= j < a.len() ==> a[j] == b[j],
    ensures
        changed_count(a, b, n) == 1,
    decreases n,
{
    if n > 1 {
        lemma_changed_one(a, b, n - 1);
        assert(a[n - 1] == b[n - 1]);
    } else {
        assert(changed_count(a, b, 0) == 0);
    }
}

/// Changing entry `k` keeps the count of the entries before it.
proof fn lemma_changed_count_frame(a: Seq<Seq<char>>, b1: Seq<Seq<char>>, b2: Seq<Seq<char>>, k: int)
    requires
        0 <= k,
        forall|j: int| 0 <= j < k ==> b1[j] == b2[j],
    ensures
        changed_count(a, b2, k) == changed_count(a, b1, k),
    decreases k,
{
    if k > 0 {
        lemma_changed_count_frame(a, b1, b2, k - 1);
    }
}

fn translate_commands(cmds: &mut Vec<Command>, scope: &CommandScope, ts: &Vec<WolfTranslation>) -> (n: usize)
    ensures
        commands_view(final(cmds)@) == translated_commands(scope@, commands_view(old(cmds)@), translations_view(ts@)),
        n == capped(commands_changes(scope@, commands_view(old(cmds)@), translations_view(ts@), old(cmds)@.len() as int)),
{
    let ghost tv = translations_view(ts@);
    let ghost cv = commands_view(cmds@);
    let head = scope.key_head();
    let len = cmds.len();
    let mut ci: usize = 0;
    let mut count: usize = 0;
    while ci < len
        invariant
            len == cmds@.len(),
            cv.len() == len,
            ci <= len,
            head@ == scope_key_head(scope@),
            tv == translations_view(ts@),
            forall|j: int| 0 <= j < ci ==> #[trigger] commands_view(cmds@)[j] == translated_command(
                cv[j],
                scope_key_head(scope@) + decimal(j as nat),
                tv,
            ),
            forall|j: int| ci <= j < len ==> #[trigger] commands_view(cmds@)[j] == cv[j],
            count == capped(commands_changes(scope@, cv, tv, ci as int)),
        decreases len - ci,
    {
        let prefix = append_decimal(head.clone(), ci);
        assert(commands_view(cmds@)[ci as int] == cv[ci as int]);
        let ghost before = cmds@;
        assert(commands_view(before)[ci as int] == before[ci as int]@);
        let k = translate_command(&mut cmds[ci], &prefix, ts);
        assert(cmds@ == before.update(ci as int, cmds@[ci as int]));
        assert(commands_view(cmds@)[ci as int] == cmds@[ci as int]@);
        assert(cmds@[ci as int]@ == translated_command(cv[ci as int], scope_key_head(scope@) + decimal(ci as nat), tv));
        assert forall|j: int| 0 <= j < len && j != ci implies #[trigger] commands_view(cmds@)[j] == commands_view(
            before,
        )[j] by {
            assert(cmds@[j] == before[j]);
        }
        count = count.saturating_add(k);
        ci = ci + 1;
    }
    proof {
        assert(commands_view(cmds@) =~= translated_commands(scope@, cv, tv));
    }
    count
}

fn translate_pages(pages: &mut Vec<PageV3>, map_name: &str, ei: usize, ts: &Vec<WolfTranslation>) -> (n: usize)
    ensures
        final(pages)@.len() == old(pages)@.len(),
        forall|pi: int| 0 <= pi < old(pages)@.len() ==> #[trigger] final(pages)@[pi]@ == translated_page(
            old(pages)@[pi]@,
            map_name@,
            ei as int,
            pi,
            translations_view(ts@),
        ),
        n == capped(pages_changes(
            map_name@,
            ei as int,
            old(pages)@.map_values(|p: PageV3| p@),
            translations_view(ts@),
            old(pages)@.len() as int,
        )),
{
    let ghost tv = translations_view(ts@);
    let ghost orig = pages@;
    let ghost pv = orig.map_values(|p: PageV3| p@);
    let len = pages.len();
    let mut pi: usize = 0;
    let mut count: usize = 0;
    while pi < len
        invariant
            len == pages@.len(),
            orig.len() == len,
            pv == orig.map_values(|p: PageV3| p@),
            pi <= len,
            tv == translations_view(ts@),
            forall|j: int| 0 <= j < pi ==> #[trigger] pages@[j]@ == translated_page(
                orig[j]@,
                map_name@,
                ei as int,
                j,
                tv,
            ),
            forall|j: int| pi <= j < len ==> #[trigger] pages@[j] == orig[j],
            count == capped(pages_changes(map_name@, ei as int, pv, tv, pi as int)),
        decreases len - pi,
    {
        let scope = CommandScope::MapPage { map_name: map_name.to_owned(), event_idx: ei, page_idx: pi };
        assert(scope@ == page_scope(map_name@, ei as int, pi as int));
        let ghost before = pages@;
        assert(pages@[pi as int] == orig[pi as int]);
        assert(pv[pi as int] == orig[pi as int]@);
        let k = translate_commands(&mut pages[pi].commands, &scope, ts);
        assert(pages@ == before.update(pi as int, pages@[pi as int]));
        assert(pages@[pi as int]@ == translated_page(orig[pi as int]@, map_name@, ei as int, pi as int, tv));
        count = count.saturating_add(k);
        pi = pi + 1;
    }
    count
}

fn translate_events(events: &mut Vec<crate::wolf::v3::map::EventV3>, map_name: &str, ts: &Vec<WolfTranslation>) -> (n: usize)
    ensures
        final(events)@.len() == old(events)@.len(),
        forall|ei: int| 0 <= ei < old(events)@.len() ==> #[trigger] final(events)@[ei]@ == translated_event(
            old(events)@[ei]@,
            map_name@,
            ei,
            translations_view(ts@),
        ),
        n == capped(events_changes(
            map_name@,
            old(events)@.map_values(|e: crate::wolf::v3::map::EventV3| e@),
            translations_view(ts@),
            old(events)@.len() as int,
        )),
{
    let ghost tv = translations_view(ts@);
    let ghost orig = events@;
    let ghost ev = orig.map_values(|e: crate::wolf::v3::map::EventV3| e@);
    let len = events.len();
    let mut ei: usize = 0;
    let mut count: usize = 0;
    while ei < len
        invariant
            len == events@.len(),
            orig.len() == len,
            ev == orig.map_values(|e: crate::wolf::v3::map::EventV3| e@),
            ei <= len,
            tv == translations_view(ts@),
            forall|j: int| 0 <= j < ei ==> #[trigger] events@[j]@ == translated_event(orig[j]@, map_name@, j, tv),
            forall|j: int| ei <= j < len ==> #[trigger] events@[j] == orig[j],
            count == capped(events_changes(map_name@, ev, tv, ei as int)),
        decreases len - ei,
    {
        let ghost before = events@;
        assert(events@[ei as int] == orig[ei as int]);
        assert(ev[ei as int] == orig[ei as int]@);
        let k = translate_pages(&mut events[ei].pages, map_name, ei, ts);
        assert(events@ == before.update(ei as int, events@[ei as int]));
        proof {
            let e0 = orig[ei as int];
            let e1 = events@[ei as int];
            assert(e1.id == e0.id && e1.name == e0.name && e1.x == e0.x && e1.y == e0.y);
            assert(e1@.pages =~= translated_event(e0@, map_name@, ei as int, tv).pages);
            assert(e0@.pages == e0.pages@.map_values(|p: PageV3| p@));
        }
        count = count.saturating_add(k);
        ei = ei + 1;
    }
    count
}

proof fn lemma_take_map_magic(d: Seq<u8>)
    ensures
        take_map(d) matches Some(m) ==> m.magic.len() == 20,
{
}

/// Writes translations into a v3 `.mps` map: decompresses it, parses it,
/// replaces each non-blank message and choice whose key has a translation
/// (the last one given for that key), writes the map and compresses it
/// again. The count is of the strings that changed.
pub fn inject_map_v3(map_name: &str, bytes: &[u8], translations: &Vec<WolfTranslation>) -> (r: Result<
    (Vec<u8>, InjectionResult),
    InjectorError,
>)
    ensures
        match block_payload(unwrap_block(bytes@, compression::HEADER_SIZE)) {
            None => r matches Err(e) && e is V3Format,
            Some(d) => match take_map(d) {
                None => r matches Err(e) && e is V3Format,
                Some(m) => match map_bytes(translated_map(m, map_name@, translations_view(translations@))) {
                    None => r matches Err(e) && e is V3Format,
                    Some(b) => r matches Ok((v, res)) && v@ == wrapped_block(b, compression::HEADER_SIZE)
                        && res.file_path@ == map_name@ + ".mps"@ && res.updated_count == capped(
                        events_changes(map_name@, m.events, translations_view(translations@), m.events.len() as int),
                    ),
                },
            },
        },
{
    let decompressed = match decompress_v3(bytes) {
        Ok(d) => d,
        Err(e) => {
            return Err(InjectorError::V3Format(e));
        },
    };
    let mut map = match MapV3::parse(decompressed.as_slice()) {
        Ok(m) => m,
        Err(e) => {
            return Err(InjectorError::V3Format(e));
        },
    };
    proof {
        lemma_take_map_magic(decompressed@);
    }
    let ghost m0 = map@;
    let ghost tv = translations_view(translations@);
    let updated = translate_events(&mut map.events, map_name, translations);
    proof {
        let tm = translated_map(m0, map_name@, tv);
        assert forall|ei: int| 0 <= ei < map@.events.len() implies #[trigger] map@.events[ei] == tm.events[ei] by {
            assert(map@.events[ei] == map.events@[ei]@);
        }
        assert(map@.events =~= tm.events);
        assert(map@ =~= tm);
    }
    let dumped = match map.dump() {
        Ok(b) => b,
        Err(e) => {
            return Err(InjectorError::V3Format(e));
        },
    };
    proof {
        lemma_auto_spec_u32_to_from_le_bytes();
        assert(map@.magic.len() == 20);
        assert(dumped@.len() >= compression::HEADER_SIZE);
    }
    let packed = match recompress_v3(dumped.as_slice()) {
        Ok(p) => p,
        Err(e) => {
            return Err(InjectorError::V3Format(e));
        },
    };
    let file_path = String::from_str(map_name).concat(".mps");
    Ok((packed, InjectionResult { file_path, updated_count: updated }))
}

// ---------------------------------------------------------------------------
// Splicing strings into raw v2 map bytes
// ---------------------------------------------------------------------------

/// A length-prefixed string holding exactly `src` stands at `pos`: its
/// size word (`src` plus the NUL, as a `u32`), `src`, then a NUL.
pub open spec fn frame_at(orig: Seq<u8>, pos: int, src: Seq<u8>) -> bool {
    &&& pos + 4 + src.len() + 1 <= orig.len()
    &&& orig.subrange(pos, pos + 4) == spec_u32_to_le_bytes((src.len() + 1) as u32)
    &&& orig.subrange(pos + 4, pos + 4 + src.len()) == src
    &&& orig[pos + 4 + src.len()] == 0
}

/// The bytes from `pos` on after splicing, and how many spliced strings
/// changed: scanning forward, the next replacement `(src, dst)` (from index
/// `k`) is applied where a frame of `src` stands, and every other byte is
/// copied; replacements are used once each, in order.
pub open spec fn spliced(orig: Seq<u8>, reps: Seq<(Seq<u8>, Seq<u8>)>, pos: int, k: int) -> (Seq<u8>, nat)
    decreases orig.len() - pos,
{
    if pos < 0 || pos >= orig.len() {
        (Seq::empty(), 0)
    } else if 0 <= k < reps.len() && frame_at(orig, pos, reps[k].0) {
        let rest = spliced(orig, reps, pos + 4 + reps[k].0.len() + 1, k + 1);
        (wolf_string_bytes(reps[k].1) + rest.0, rest.1 + if reps[k].0 != reps[k].1 {
            1nat
        } else {
            0nat
        })
    } else {
        let rest = spliced(orig, reps, pos + 1, k);
        (seq![orig[pos]] + rest.0, rest.1)
    }
}

pub open spec fn pairs_view(v: Seq<(Vec<u8>, Vec<u8>)>) -> Seq<(Seq<u8>, Seq<u8>)> {
    v.map_values(|p: (Vec<u8>, Vec<u8>)| (p.0@, p.1@))
}

fn bytes_equal(a: &[u8], b: &[u8]) -> (r: bool)
    ensures
        r == (a@ == b@),
{
    if a.len() != b.len() {
        return false;
    }
    let mut i: usize = 0;
    while i < a.len()
        invariant
            a@.len() == b@.len(),
            i <= a@.len(),
            forall|j: int| 0 <= j < i ==> a@[j] == b@[j],
        decreases a@.len() - i,
    {
        if a[i] != b[i] {
            return false;
        }
        i = i + 1;
    }
    assert(a@ =~= b@);
    true
}

fn frame_matches(orig: &[u8], pos: usize, src: &[u8]) -> (r: bool)
    requires
        pos < orig@.len(),
    ensures
        r == frame_at(orig@, pos as int, src@),
{
    let avail = orig.len() - pos;
    if src.len() >= avail || avail - src.len() < 5 {
        return false;
    }
    let size = (src.len() as u128 + 1) as u32;
    let word = vstd::bytes::u32_to_le_bytes(size);
    let head = vstd::slice::slice_subrange(orig, pos, pos + 4);
    if !bytes_equal(head, word.as_slice()) {
        return false;
    }
    let body = vstd::slice::slice_subrange(orig, pos + 4, pos + 4 + src.len());
    if !bytes_equal(body, src) {
        return false;
    }
    orig[pos + 4 + src.len()] == 0
}

/// Writes each replacement's `dst` over the next frame of its `src` in the
/// raw bytes, in order (see `spliced`); returns the bytes and how many of
/// the spliced strings changed.
pub fn patch_mps_strings(original: &[u8], replacements: &Vec<(Vec<u8>, Vec<u8>)>) -> (r: (Vec<u8>, usize))
    ensures
        r.0@ == spliced(original@, pairs_view(replacements@), 0, 0).0,
        r.1 == spliced(original@, pairs_view(replacements@), 0, 0).1,
{
    let ghost reps = pairs_view(replacements@);
    let ghost total = spliced(original@, reps, 0, 0);
    let mut out: Vec<u8> = Vec::new();
    let mut pos: usize = 0;
    let mut k: usize = 0;
    let mut updated: usize = 0;
    while pos < original.len()
        invariant
            pos <= original@.len(),
            k <= replacements@.len(),
            reps == pairs_view(replacements@),
            updated <= k,
            out@ + spliced(original@, reps, pos as int, k as int).0 == total.0,
            updated + spliced(original@, reps, pos as int, k as int).1 == total.1,
        decreases original@.len() - pos,
    {
        let ghost step = spliced(original@, reps, pos as int, k as int);
        if k < replacements.len() {
            let src = &replacements[k].0;
            let dst = &replacements[k].1;
            assert(reps[k as int] == (src@, dst@));
            if frame_matches(original, pos, src.as_slice()) {
                let ghost before = out@;
                write_wolf_string(&mut out, dst.as_slice());
                if !bytes_equal(src.as_slice(), dst.as_slice()) {
                    updated = updated + 1;
                }
                let next = pos + 4 + src.len() + 1;
                assert(out@ + spliced(original@, reps, next as int, k + 1).0 =~= before + step.0);
                pos = next;
                k = k + 1;
                continue;
            }
        }
        let ghost before = out@;
        out.push(original[pos]);
        assert(out@ + spliced(original@, reps, pos + 1, k as int).0 =~= before + step.0);
        pos = pos + 1;
    }
    assert(out@ =~= total.0);
    (out, updated)
}

// ---------------------------------------------------------------------------
// The strings of a v2 map, in file order
// ---------------------------------------------------------------------------

/// The non-blank choices `cs[0..n]` of a command keyed `prefix`, with their keys.
pub open spec fn choice_slots(prefix: Seq<char>, cs: Seq<Seq<char>>, n: int) -> Seq<(Seq<char>, Seq<char>)>
    decreases n,
{
    if n <= 0 || n > cs.len() {
        Seq::empty()
    } else {
        let rest = choice_slots(prefix, cs, n - 1);
        if trimmed(cs[n - 1]).len() > 0 {
            rest.push((choice_key(prefix, (n - 1) as nat), cs[n - 1]))
        } else {
            rest
        }
    }
}

/// The non-blank strings of one command with their keys: a message's
/// first string, or each choice.
pub open spec fn command_slots(prefix: Seq<char>, c: CommandModel) -> Seq<(Seq<char>, Seq<char>)> {
    if c.cid == CID_MESSAGE {
        if c.string_args.len() > 0 && trimmed(c.string_args[0]).len() > 0 {
            seq![(prefix, c.string_args[0])]
        } else {
            Seq::empty()
        }
    } else if c.cid == CID_CHOICES {
        choice_slots(prefix, c.string_args, c.string_args.len() as int)
    } else {
        Seq::empty()
    }
}

pub open spec fn command_list_slots(s: ScopeView, cs: Seq<CommandModel>) -> Seq<(Seq<char>, Seq<char>)>
    decreases cs.len(),
{
    if cs.len() == 0 {
        Seq::empty()
    } else {
        let ci = (cs.len() - 1) as nat;
        command_list_slots(s, cs.drop_last()) + command_slots(scope_key_head(s) + decimal(ci), cs.last())
    }
}

pub open spec fn event_slots(map_name: Seq<char>, ei: nat, pages: Seq<Seq<CommandModel>>) -> Seq<(Seq<char>, Seq<char>)>
    decreases pages.len(),
{
    if pages.len() == 0 {
        Seq::empty()
    } else {
        let pi = (pages.len() - 1) as nat;
        event_slots(map_name, ei, pages.drop_last()) + command_list_slots(
            ScopeView::MapPage { map_name, event_idx: ei, page_idx: pi },
            pages.last(),
        )
    }
}

/// Every non-blank message and choice of a map with its key, in event,
/// page and command order.
pub open spec fn map_slots(map_name: Seq<char>, events: CommandTree) -> Seq<(Seq<char>, Seq<char>)>
    decreases events.len(),
{
    if events.len() == 0 {
        Seq::empty()
    } else {
        let ei = (events.len() - 1) as nat;
        map_slots(map_name, events.drop_last()) + event_slots(map_name, ei, events.last())
    }
}

pub open spec fn slots_view(v: Seq<(String, String)>) -> Seq<(Seq<char>, Seq<char>)> {
    v.map_values(|p: (String, String)| (p.0@, p.1@))
}

fn push_command_slots(out: &mut Vec<(String, String)>, prefix: String, cmd: &Command)
    ensures
        slots_view(final(out)@) == slots_view(old(out)@) + command_slots(prefix@, cmd@),
{
    let ghost start = slots_view(out@);
    if cmd.cid == CID_MESSAGE {
        if cmd.string_args.len() > 0 && !is_blank(cmd.string_args[0].as_str()) {
            let item = (prefix, cmd.string_args[0].clone());
            out.push(item);
        }
        assert(slots_view(out@) =~= start + command_slots(prefix@, cmd@));
    } else if cmd.cid == CID_CHOICES {
        let cs = &cmd.string_args;
        let ghost csv = cmd@.string_args;
        let mut k: usize = 0;
        assert(slots_view(out@) =~= start + choice_slots(prefix@, csv, 0));
        while k < cs.len()
            invariant
                k <= cs@.len(),
                csv == cmd@.string_args,
                csv.len() == cs@.len(),
                forall|j: int| 0 <= j < cs@.len() ==> csv[j] == #[trigger] cs@[j]@,
                slots_view(out@) == start + choice_slots(prefix@, csv, k as int),
            decreases cs@.len() - k,
        {
            let ghost before = slots_view(out@);
            assert(cs@[k as int]@ == csv[k as int]);
            if !is_blank(cs[k].as_str()) {
                let key = append_decimal(prefix.clone().concat("/choices/"), k);
                let item = (key, cs[k].clone());
                out.push(item);
                assert(slots_view(out@) =~= before.push((choice_key(prefix@, k as nat), csv[k as int])));
            }
            assert(slots_view(out@) =~= start + choice_slots(prefix@, csv, k + 1));
            k = k + 1;
        }
    } else {
        assert(slots_view(out@) =~= start + command_slots(prefix@, cmd@));
    }
}

fn push_command_list_slots(out: &mut Vec<(String, String)>, scope: &CommandScope, cmds: &Vec<Command>)
    ensures
        slots_view(final(out)@) == slots_view(old(out)@) + command_list_slots(scope@, commands_view(cmds@)),
{
    let ghost start = slots_view(out@);
    let ghost cv = commands_view(cmds@);
    let head = scope.key_head();
    let mut ci: usize = 0;
    assert(cv.take(0) =~= Seq::<CommandModel>::empty());
    assert(slots_view(out@) =~= start + command_list_slots(scope@, cv.take(0)));
    while ci < cmds.len()
        invariant
            ci <= cmds@.len(),
            cv == commands_view(cmds@),
            head@ == scope_key_head(scope@),
            slots_view(out@) == start + command_list_slots(scope@, cv.take(ci as int)),
        decreases cmds@.len() - ci,
    {
        let prefix = append_decimal(head.clone(), ci);
        push_command_slots(out, prefix, &cmds[ci]);
        assert(cv.take(ci + 1).drop_last() =~= cv.take(ci as int));
        assert(slots_view(out@) =~= start + command_list_slots(scope@, cv.take(ci + 1)));
        ci = ci + 1;
    }
    assert(cv.take(ci as int) =~= cv);
}

/// The non-blank messages and choices of a map given as the commands of
/// each page of each event, with their keys (see `map_slots`).
pub fn map_string_slots(map_name: &str, events: &Vec<Vec<Vec<Command>>>) -> (slots: Vec<(String, String)>)
    ensures
        slots_view(slots@) == map_slots(map_name@, tree_view(events@)),
{
    let mut out: Vec<(String, String)> = Vec::new();
    let ghost tv = tree_view(events@);
    let mut ei: usize = 0;
    assert(tv.take(0) =~= CommandTree::empty());
    assert(slots_view(out@) =~= Seq::<(Seq<char>, Seq<char>)>::empty());
    while ei < events.len()
        invariant
            ei <= events@.len(),
            tv == tree_view(events@),
            slots_view(out@) == map_slots(map_name@, tv.take(ei as int)),
        decreases events@.len() - ei,
    {
        let pages = &events[ei];
        let ghost pv = pages@.map_values(|cs: Vec<Command>| commands_view(cs@));
        assert(tv[ei as int] == pv);
        let ghost start = slots_view(out@);
        let mut pi: usize = 0;
        assert(pv.take(0) =~= Seq::<Seq<CommandModel>>::empty());
        assert(slots_view(out@) =~= start + event_slots(map_name@, ei as nat, pv.take(0)));
        while pi < pages.len()
            invariant
                pi <= pages@.len(),
                pv == pages@.map_values(|cs: Vec<Command>| commands_view(cs@)),
                slots_view(out@) == start + event_slots(map_name@, ei as nat, pv.take(pi as int)),
            decreases pages@.len() - pi,
        {
            let scope = CommandScope::MapPage { map_name: map_name.to_owned(), event_idx: ei, page_idx: pi };
            push_command_list_slots(&mut out, &scope, &pages[pi]);
            assert(pv.take(pi + 1).drop_last() =~= pv.take(pi as int));
            assert(slots_view(out@) =~= start + event_slots(map_name@, ei as nat, pv.take(pi + 1)));
            pi = pi + 1;
        }
        assert(pv.take(pi as int) =~= pv);
        assert(tv.take(ei + 1).drop_last() =~= tv.take(ei as int));
        assert(slots_view(out@) =~= map_slots(map_name@, tv.take(ei + 1)));
        ei = ei + 1;
    }
    assert(tv.take(ei as int) =~= tv);
    out
}

/// The byte replacements for the slots: each string as the game stores it,
/// and its translation (or itself when it has none); `None` when a string
/// cannot be encoded.
pub open spec fn slot_replacements(
    slots: Seq<(Seq<char>, Seq<char>)>,
    ts: Seq<(Seq<char>, Seq<char>)>,
    version: WolfVersion,
) -> Option<Seq<(Seq<u8>, Seq<u8>)>>
    decreases slots.len(),
{
    if slots.len() == 0 {
        Some(Seq::empty())
    } else {
        match slot_replacements(slots.drop_last(), ts, version) {
            None => None,
            Some(prev) => {
                let (key, text) = slots.last();
                match wolf_encoded(text, version) {
                    None => None,
                    Some(src) => match translation_of(ts, key) {
                        None => Some(prev.push((src, src))),
                        Some(t) => match wolf_encoded(t, version) {
                            None => None,
                            Some(dst) => Some(prev.push((src, dst))),
                        },
                    },
                }
            },
        }
    }
}

/// Builds the byte replacements for `slots` (see `slot_replacements`).
pub fn map_replacements(
    slots: &Vec<(String, String)>,
    translations: &Vec<WolfTranslation>,
    version: &WolfVersion,
) -> (r: Result<Vec<(Vec<u8>, Vec<u8>)>, InjectorError>)
    ensures
        match slot_replacements(slots_view(slots@), translations_view(translations@), *version) {
            Some(v) => r matches Ok(reps) && pairs_view(reps@) == v,
            None => r matches Err(e) && e is Encoding,
        },
{
    let ghost sv = slots_view(slots@);
    let ghost tv = translations_view(translations@);
    let mut out: Vec<(Vec<u8>, Vec<u8>)> = Vec::new();
    let mut i: usize = 0;
    assert(sv.take(0) =~= Seq::<(Seq<char>, Seq<char>)>::empty());
    assert(pairs_view(out@) =~= Seq::<(Seq<u8>, Seq<u8>)>::empty());
    while i < slots.len()
        invariant
            i <= slots@.len(),
            sv == slots_view(slots@),
            tv == translations_view(translations@),
            out@.len() == i,
            slot_replacements(sv.take(i as int), tv, *version) == Some(pairs_view(out@)),
        decreases slots@.len() - i,
    {
        let key = &slots[i].0;
        let text = &slots[i].1;
        assert(sv[i as int] == (key@, text@));
        assert(sv.take(i + 1).drop_last() =~= sv.take(i as int));
        assert(sv.take(i + 1).last() == (key@, text@));
        let src = match encode_for_wolf(text.as_str(), version) {
            Ok(b) => b,
            Err(e) => {
                proof {
                    lemma_slot_replacements_none_extends(sv, tv, *version, i + 1, slots@.len() as int);
                    assert(sv.take(slots@.len() as int) =~= sv);
                }
                return Err(e);
            },
        };
        let dst = match find_translation(translations, key.as_str()) {
            None => vstd::slice::slice_to_vec(src.as_slice()),
            Some(t) => match encode_for_wolf(t.as_str(), version) {
                Ok(b) => b,
                Err(e) => {
                    proof {
                        lemma_slot_replacements_none_extends(sv, tv, *version, i + 1, slots@.len() as int);
                        assert(sv.take(slots@.len() as int) =~= sv);
                    }
                    return Err(e);
                },
            },
        };
        let ghost before = pairs_view(out@);
        out.push((src, dst));
        assert(pairs_view(out@) =~= before.push((out@[i as int].0@, out@[i as int].1@)));
        i = i + 1;
    }
    assert(sv.take(i as int) =~= sv);
    Ok(out)
}

proof fn lemma_slot_replacements_none_extends(
    sv: Seq<(Seq<char>, Seq<char>)>,
    tv: Seq<(Seq<char>, Seq<char>)>,
    version: WolfVersion,
    i: int,
    n: int,
)
    requires
        0 <= i <= n <= sv.len(),
        slot_replacements(sv.take(i), tv, version) is None,
    ensures
        slot_replacements(sv.take(n), tv, version) is None,
    decreases n - i,
{
    if i < n {
        lemma_slot_replacements_none_extends(sv, tv, version, i, n - 1);
        assert(sv.take(n).drop_last() =~= sv.take(n - 1));
    }
}

/// Writes translations into a v2 (uncompressed) map, given the commands of
/// each page of each event as a v2 map parser reads them: every non-blank
/// message and choice becomes a replacement of its encoded text by its
/// encoded translation (itself when it has none), and the replacements are
/// spliced into the raw bytes in order (see `spliced`).
pub fn inject_map_v2(
    map_name: &str,
    bytes: &[u8],
    events: &Vec<Vec<Vec<Command>>>,
    translations: &Vec<WolfTranslation>,
    version: &WolfVersion,
) -> (r: Result<(Vec<u8>, InjectionResult), InjectorError>)
    ensures
        match slot_replacements(map_slots(map_name@, tree_view(events@)), translations_view(translations@), *version) {
            None => r matches Err(e) && e is Encoding,
            Some(reps) => r matches Ok((v, res)) && v@ == spliced(bytes@, reps, 0, 0).0 && res.updated_count
                == spliced(bytes@, reps, 0, 0).1 && res.file_path@ == map_name@ + ".mps"@,
        },
{
    let slots = map_string_slots(map_name, events);
    let reps = map_replacements(&slots, translations, version)?;
    let (patched, updated) = patch_mps_strings(bytes, &reps);
    let file_path = String::from_str(map_name).concat(".mps");
    Ok((patched, InjectionResult { file_path, updated_count: updated }))
}

// ---------------------------------------------------------------------------
// Injections that change nothing
// ---------------------------------------------------------------------------

/// Splicing replacements that each put back the string they find gives
/// back the bytes from `pos` on, and counts no change.
pub proof fn lemma_identity_splice(orig: Seq<u8>, reps: Seq<(Seq<u8>, Seq<u8>)>, pos: int, k: int)
    requires
        0 <= pos,
        forall|i: int| 0 <= i < reps.len() ==> (#[trigger] reps[i]).0 == reps[i].1,
    ensures
        spliced(orig, reps, pos, k) == (if pos < orig.len() {
            orig.skip(pos)
        } else {
            Seq::<u8>::empty()
        }, 0nat),
    decreases orig.len() - pos,
{
    if pos < orig.len() {
        if 0 <= k < reps.len() && frame_at(orig, pos, reps[k].0) {
            let src = reps[k].0;
            let next = pos + 4 + src.len() + 1;
            lemma_identity_splice(orig, reps, next, k + 1);
            assert(reps[k].0 == reps[k].1);
            assert(wolf_string_bytes(src) =~= orig.subrange(pos, next));
            if next < orig.len() {
                assert(orig.subrange(pos, next) + orig.skip(next) =~= orig.skip(pos));
            } else {
                assert(orig.subrange(pos, next) =~= orig.skip(pos));
                assert(wolf_string_bytes(src) + Seq::<u8>::empty() =~= wolf_string_bytes(src));
            }
        } else {
            lemma_identity_splice(orig, reps, pos + 1, k);
            if pos + 1 < orig.len() {
                assert(seq![orig[pos]] + orig.skip(pos + 1) =~= orig.skip(pos));
            } else {
                assert(seq![orig[pos]] + Seq::<u8>::empty() =~= orig.skip(pos));
            }
        }
    }
}

/// When no translation changes a slot's text, every replacement puts back
/// what it finds.
pub proof fn lemma_unchanged_replacements(
    slots: Seq<(Seq<char>, Seq<char>)>,
    ts: Seq<(Seq<char>, Seq<char>)>,
    version: WolfVersion,
)
    requires
        slot_replacements(slots, ts, version) is Some,
        forall|i: int| 0 <= i < slots.len() ==> (translation_of(ts, (#[trigger] slots[i]).0) matches Some(t) ==> t == slots[i].1),
    ensures
        ({
            let reps = slot_replacements(slots, ts, version)->0;
            forall|i: int| 0 <= i < reps.len() ==> (#[trigger] reps[i]).0 == reps[i].1
        }),
    decreases slots.len(),
{
    if slots.len() > 0 {
        let init = slots.drop_last();
        assert forall|i: int| 0 <= i < init.len() implies (translation_of(ts, (#[trigger] init[i]).0) matches Some(t) ==> t == init[i].1) by {
            assert(init[i] == slots[i]);
        }
        lemma_unchanged_replacements(init, ts, version);
        assert(slots.last() == slots[slots.len() - 1]);
    }
}

/// A v2 map injection in which no translation changes a string's text
/// (no key matches, or the text is the same) writes the file back as it
/// was and counts no update.
pub proof fn lemma_map_v2_unchanged(
    map_name: Seq<char>,
    events: CommandTree,
    ts: Seq<(Seq<char>, Seq<char>)>,
    version: WolfVersion,
    bytes: Seq<u8>,
)
    requires
        slot_replacements(map_slots(map_name, events), ts, version) is Some,
        forall|i: int|
            0 <= i < map_slots(map_name, events).len() ==> (translation_of(
                ts,
                (#[trigger] map_slots(map_name, events)[i]).0,
            ) matches Some(t) ==> t == map_slots(map_name, events)[i].1),
    ensures
        spliced(bytes, slot_replacements(map_slots(map_name, events), ts, version)->0, 0, 0) == (bytes, 0nat),
{
    let reps = slot_replacements(map_slots(map_name, events), ts, version)->0;
    lemma_unchanged_replacements(map_slots(map_name, events), ts, version);
    lemma_identity_splice(bytes, reps, 0, 0);
    if bytes.len() > 0 {
        assert(bytes.skip(0) =~= bytes);
    } else {
        assert(bytes =~= Seq::<u8>::empty());
    }
}

} // verus!

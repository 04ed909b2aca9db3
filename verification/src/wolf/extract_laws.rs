//! What map extraction offers and what map injection does with it.
use vstd::prelude::*;

use crate::wolf::dat_parser::{decimal, digit_char};
use crate::wolf::map_injector::{choice_key, translated_args, translated_map, translation_of};
use crate::wolf::text_filter::trimmed;
use crate::wolf::v3::map::MapModel;
use crate::wolf::extractor::{
    choice_segments, map_command_tree, command_list_segments, command_segments, event_segments, map_segments_of, scope_key_head,
    scope_kind, CommandTree, KindView, ScopeView, SegmentView,
};
use crate::wolf::text_filter::translatable;
use crate::wolf::v3::command::{CommandModel, CID_CHOICES, CID_MESSAGE};

verus! {

/// The key of command `ci` on page `pi` of event `ei` of map `map_name`.
pub open spec fn map_command_key(map_name: Seq<char>, ei: nat, pi: nat, ci: nat) -> Seq<char> {
    "MapData/"@ + map_name + "/events/"@ + decimal(ei) + "/pages/"@ + decimal(pi) + "/"@ + decimal(ci)
}

/// The kind of a segment taken from command `ci` on page `pi` of event
/// `ei` of map `map_name`.
pub open spec fn map_command_kind(map_name: Seq<char>, ei: nat, pi: nat, ci: nat) -> KindView {
    KindView::MapMessage { map_name, event_idx: ei, page_idx: pi, cmd_idx: ci }
}

proof fn lemma_concat_contains<A>(a: Seq<A>, b: Seq<A>, x: A)
    requires
        a.contains(x) || b.contains(x),
    ensures
        (a + b).contains(x),
{
    if a.contains(x) {
        let i = choose|i: int| 0 <= i < a.len() && a[i] == x;
        assert((a + b)[i] == x);
    } else {
        let i = choose|i: int| 0 <= i < b.len() && b[i] == x;
        assert((a + b)[a.len() + i] == x);
    }
}

proof fn lemma_list_contains(s: ScopeView, cs: Seq<CommandModel>, ci: int, x: SegmentView)
    requires
        0 <= ci < cs.len(),
        command_segments(scope_key_head(s) + decimal(ci as nat), scope_kind(s, ci as nat), cs[ci]).contains(x),
    ensures
        command_list_segments(s, cs).contains(x),
    decreases cs.len(),
{
    let last = cs.len() - 1;
    if ci == last {
        lemma_concat_contains(
            command_list_segments(s, cs.drop_last()),
            command_segments(scope_key_head(s) + decimal(last as nat), scope_kind(s, last as nat), cs.last()),
            x,
        );
    } else {
        assert(cs.drop_last()[ci] == cs[ci]);
        lemma_list_contains(s, cs.drop_last(), ci, x);
        lemma_concat_contains(
            command_list_segments(s, cs.drop_last()),
            command_segments(scope_key_head(s) + decimal(last as nat), scope_kind(s, last as nat), cs.last()),
            x,
        );
    }
}

proof fn lemma_event_contains(map_name: Seq<char>, ei: nat, pages: Seq<Seq<CommandModel>>, pi: int, x: SegmentView)
    requires
        0 <= pi < pages.len(),
        command_list_segments(
            ScopeView::MapPage { map_name, event_idx: ei, page_idx: pi as nat },
            pages[pi],
        ).contains(x),
    ensures
        event_segments(map_name, ei, pages).contains(x),
    decreases pages.len(),
{
    let last = pages.len() - 1;
    let tail = command_list_segments(
        ScopeView::MapPage { map_name, event_idx: ei, page_idx: last as nat },
        pages.last(),
    );
    if pi < last {
        assert(pages.drop_last()[pi] == pages[pi]);
        lemma_event_contains(map_name, ei, pages.drop_last(), pi, x);
    }
    lemma_concat_contains(event_segments(map_name, ei, pages.drop_last()), tail, x);
}

proof fn lemma_map_contains(map_name: Seq<char>, events: CommandTree, ei: int, x: SegmentView)
    requires
        0 <= ei < events.len(),
        event_segments(map_name, ei as nat, events[ei]).contains(x),
    ensures
        map_segments_of(map_name, events).contains(x),
    decreases events.len(),
{
    let last = events.len() - 1;
    if ei < last {
        assert(events.drop_last()[ei] == events[ei]);
        lemma_map_contains(map_name, events.drop_last(), ei, x);
    }
    lemma_concat_contains(
        map_segments_of(map_name, events.drop_last()),
        event_segments(map_name, last as nat, events.last()),
        x,
    );
}

proof fn lemma_choice_contains(prefix: Seq<char>, kind: KindView, cs: Seq<Seq<char>>, n: nat, k: int)
    requires
        0 <= k < n <= cs.len(),
        translatable(cs[k]),
    ensures
        choice_segments(prefix, kind, cs, n).contains(
            SegmentView { key: prefix + "/choices/"@ + decimal(k as nat), source_text: cs[k], kind },
        ),
    decreases n,
{
    let x = SegmentView { key: prefix + "/choices/"@ + decimal(k as nat), source_text: cs[k], kind };
    let rest = choice_segments(prefix, kind, cs, (n - 1) as nat);
    if k < n - 1 {
        lemma_choice_contains(prefix, kind, cs, (n - 1) as nat, k);
        if translatable(cs[n - 1]) {
            let i = choose|i: int| 0 <= i < rest.len() && rest[i] == x;
            assert(choice_segments(prefix, kind, cs, n)[i] == x);
        }
    } else {
        assert(choice_segments(prefix, kind, cs, n) == rest.push(x));
        assert(rest.push(x)[rest.len() as int] == x);
    }
}

/// Every message on every page of every event is offered: when command
/// `ci` on page `pi` of event `ei` is a message whose text is worth
/// translating, the map's segments hold that text under the key
/// `MapData/{map}/events/{ei}/pages/{pi}/{ci}`.
pub proof fn lemma_map_messages_extracted(map_name: Seq<char>, events: CommandTree, ei: int, pi: int, ci: int)
    requires
        0 <= ei < events.len(),
        0 <= pi < events[ei].len(),
        0 <= ci < events[ei][pi].len(),
        events[ei][pi][ci].cid == CID_MESSAGE,
        events[ei][pi][ci].string_args.len() > 0,
        translatable(events[ei][pi][ci].string_args[0]),
    ensures
        map_segments_of(map_name, events).contains(
            SegmentView {
                key: map_command_key(map_name, ei as nat, pi as nat, ci as nat),
                source_text: events[ei][pi][ci].string_args[0],
                kind: map_command_kind(map_name, ei as nat, pi as nat, ci as nat),
            },
        ),
{
    let s = ScopeView::MapPage { map_name, event_idx: ei as nat, page_idx: pi as nat };
    let c = events[ei][pi][ci];
    let x = SegmentView {
        key: map_command_key(map_name, ei as nat, pi as nat, ci as nat),
        source_text: c.string_args[0],
        kind: map_command_kind(map_name, ei as nat, pi as nat, ci as nat),
    };
    assert(scope_key_head(s) + decimal(ci as nat) =~= map_command_key(map_name, ei as nat, pi as nat, ci as nat));
    let segs = command_segments(scope_key_head(s) + decimal(ci as nat), scope_kind(s, ci as nat), c);
    assert(segs == seq![x]);
    assert(segs[0] == x);
    lemma_list_contains(s, events[ei][pi], ci, x);
    lemma_event_contains(map_name, ei as nat, events[ei], pi, x);
    lemma_map_contains(map_name, events, ei, x);
}

/// Every choice on every page of every event is offered: when command `ci`
/// on page `pi` of event `ei` is a choice command whose choice `k` is worth
/// translating, the map's segments hold it under the key
/// `MapData/{map}/events/{ei}/pages/{pi}/{ci}/choices/{k}`.
pub proof fn lemma_map_choices_extracted(
    map_name: Seq<char>,
    events: CommandTree,
    ei: int,
    pi: int,
    ci: int,
    k: int,
)
    requires
        0 <= ei < events.len(),
        0 <= pi < events[ei].len(),
        0 <= ci < events[ei][pi].len(),
        events[ei][pi][ci].cid == CID_CHOICES,
        0 <= k < events[ei][pi][ci].string_args.len(),
        translatable(events[ei][pi][ci].string_args[k]),
    ensures
        map_segments_of(map_name, events).contains(
            SegmentView {
                key: map_command_key(map_name, ei as nat, pi as nat, ci as nat) + "/choices/"@ + decimal(k as nat),
                source_text: events[ei][pi][ci].string_args[k],
                kind: map_command_kind(map_name, ei as nat, pi as nat, ci as nat),
            },
        ),
{
    let s = ScopeView::MapPage { map_name, event_idx: ei as nat, page_idx: pi as nat };
    let c = events[ei][pi][ci];
    let prefix = map_command_key(map_name, ei as nat, pi as nat, ci as nat);
    assert(scope_key_head(s) + decimal(ci as nat) =~= prefix);
    let kind = map_command_kind(map_name, ei as nat, pi as nat, ci as nat);
    assert(scope_kind(s, ci as nat) == kind);
    lemma_choice_contains(prefix, kind, c.string_args, c.string_args.len(), k);
    let x = SegmentView { key: prefix + "/choices/"@ + decimal(k as nat), source_text: c.string_args[k], kind };
    assert(command_segments(prefix, kind, c) == choice_segments(prefix, kind, c.string_args, c.string_args.len()));
    lemma_list_contains(s, events[ei][pi], ci, x);
    lemma_event_contains(map_name, ei as nat, events[ei], pi, x);
    lemma_map_contains(map_name, events, ei, x);
}

proof fn lemma_decimal_len(n: nat)
    ensures
        decimal(n).len() >= 1,
        n >= 10 ==> decimal(n).len() >= 2,
    decreases n,
{
    if n >= 10 {
        lemma_decimal_len(n / 10);
    }
}

/// Different numbers have different decimal forms.
pub proof fn lemma_decimal_injective(a: nat, b: nat)
    requires
        decimal(a) == decimal(b),
    ensures
        a == b,
    decreases a,
{
    lemma_decimal_len(a);
    lemma_decimal_len(b);
    if a < 10 && b < 10 {
        assert(decimal(a)[0] == digit_char(a as int));
        assert(decimal(b)[0] == digit_char(b as int));
    } else if a >= 10 && b >= 10 {
        let da = decimal(a);
        let db = decimal(b);
        assert(da.last() == digit_char((a % 10) as int));
        assert(db.last() == digit_char((b % 10) as int));
        assert(da.drop_last() == decimal(a / 10));
        assert(db.drop_last() == decimal(b / 10));
        lemma_decimal_injective(a / 10, b / 10);
        assert(a % 10 == b % 10);
    } else {
        assert(decimal(a).len() != decimal(b).len());
    }
}

proof fn lemma_choice_keys_differ(prefix: Seq<char>, a: nat, b: nat)
    requires
        a != b,
    ensures
        choice_key(prefix, a) != choice_key(prefix, b),
{
    let h = prefix + "/choices/"@;
    if choice_key(prefix, a) == choice_key(prefix, b) {
        assert(choice_key(prefix, a).skip(h.len() as int) =~= decimal(a));
        assert(choice_key(prefix, b).skip(h.len() as int) =~= decimal(b));
        lemma_decimal_injective(a, b);
    }
}

/// Injecting under a choice's key changes exactly that choice: with the
/// single translation `(choice_key(prefix, k), t)`, choice `k` of a choice
/// command (one that is not blank) becomes `t` and every other string stays.
pub proof fn lemma_choice_injected(c: CommandModel, prefix: Seq<char>, k: int, t: Seq<char>)
    requires
        c.cid == CID_CHOICES,
        0 <= k < c.string_args.len(),
        trimmed(c.string_args[k]).len() > 0,
    ensures
        translated_args(c, prefix, seq![(choice_key(prefix, k as nat), t)]).len() == c.string_args.len(),
        translated_args(c, prefix, seq![(choice_key(prefix, k as nat), t)])[k] == t,
        forall|j: int|
            0 <= j < c.string_args.len() && j != k ==> translated_args(
                c,
                prefix,
                seq![(choice_key(prefix, k as nat), t)],
            )[j] == c.string_args[j],
{
    let ts = seq![(choice_key(prefix, k as nat), t)];
    assert(ts.drop_last() =~= Seq::<(Seq<char>, Seq<char>)>::empty());
    assert forall|j: int| 0 <= j < c.string_args.len() && j != k implies translated_args(c, prefix, ts)[j]
        == c.string_args[j] by {
        lemma_choice_keys_differ(prefix, j as nat, k as nat);
        assert(translation_of(ts, choice_key(prefix, j as nat)) == translation_of(
            ts.drop_last(),
            choice_key(prefix, j as nat),
        ));
        assert(translation_of(ts, choice_key(prefix, j as nat)) is None);
    }
}

/// Injecting under a message's key changes exactly its text: with the
/// single translation `(prefix, t)`, the first string of a message command
/// (when not blank) becomes `t` and every other string stays.
pub proof fn lemma_message_injected(c: CommandModel, prefix: Seq<char>, t: Seq<char>)
    requires
        c.cid == CID_MESSAGE,
        c.string_args.len() > 0,
        trimmed(c.string_args[0]).len() > 0,
    ensures
        translated_args(c, prefix, seq![(prefix, t)]).len() == c.string_args.len(),
        translated_args(c, prefix, seq![(prefix, t)])[0] == t,
        forall|j: int|
            0 < j < c.string_args.len() ==> translated_args(c, prefix, seq![(prefix, t)])[j] == c.string_args[j],
{
}

/// Extraction and injection agree on v3 maps: the choice segment that the
/// extractor offers for choice `k` of command `ci` on page `pi` of event
/// `ei`, injected with text `t` under its key, turns that very choice into
/// `t` and leaves the command's other strings as they were.
pub proof fn lemma_map_choice_round(m: MapModel, map_name: Seq<char>, ei: int, pi: int, ci: int, k: int, t: Seq<char>)
    requires
        0 <= ei < m.events.len(),
        0 <= pi < m.events[ei].pages.len(),
        0 <= ci < m.events[ei].pages[pi].commands.len(),
        m.events[ei].pages[pi].commands[ci].cid == CID_CHOICES,
        0 <= k < m.events[ei].pages[pi].commands[ci].string_args.len(),
        translatable(m.events[ei].pages[pi].commands[ci].string_args[k]),
    ensures
        ({
            let c = m.events[ei].pages[pi].commands[ci];
            let key = map_command_key(map_name, ei as nat, pi as nat, ci as nat) + "/choices/"@ + decimal(k as nat);
            let c2 = translated_map(m, map_name, seq![(key, t)]).events[ei].pages[pi].commands[ci];
            &&& map_segments_of(map_name, map_command_tree(m)).contains(
                SegmentView {
                    key,
                    source_text: c.string_args[k],
                    kind: map_command_kind(map_name, ei as nat, pi as nat, ci as nat),
                },
            )
            &&& c2.string_args.len() == c.string_args.len()
            &&& c2.string_args[k] == t
            &&& forall|j: int| 0 <= j < c.string_args.len() && j != k ==> c2.string_args[j] == c.string_args[j]
        }),
{
    let tree = map_command_tree(m);
    assert(tree[ei][pi][ci] == m.events[ei].pages[pi].commands[ci]);
    lemma_map_choices_extracted(map_name, tree, ei, pi, ci, k);
    let c = m.events[ei].pages[pi].commands[ci];
    let prefix = map_command_key(map_name, ei as nat, pi as nat, ci as nat);
    let s = ScopeView::MapPage { map_name, event_idx: ei as nat, page_idx: pi as nat };
    assert(scope_key_head(s) + decimal(ci as nat) =~= prefix);
    assert(prefix + "/choices/"@ + decimal(k as nat) == choice_key(prefix, k as nat));
    lemma_choice_injected(c, prefix, k, t);
}

/// Extraction and injection agree on v3 maps for messages: the segment
/// offered for the message of command `ci` on page `pi` of event `ei`,
/// injected with text `t` under its key, turns that message into `t`.
pub proof fn lemma_map_message_round(m: MapModel, map_name: Seq<char>, ei: int, pi: int, ci: int, t: Seq<char>)
    requires
        0 <= ei < m.events.len(),
        0 <= pi < m.events[ei].pages.len(),
        0 <= ci < m.events[ei].pages[pi].commands.len(),
        m.events[ei].pages[pi].commands[ci].cid == CID_MESSAGE,
        m.events[ei].pages[pi].commands[ci].string_args.len() > 0,
        translatable(m.events[ei].pages[pi].commands[ci].string_args[0]),
    ensures
        ({
            let c = m.events[ei].pages[pi].commands[ci];
            let key = map_command_key(map_name, ei as nat, pi as nat, ci as nat);
            let c2 = translated_map(m, map_name, seq![(key, t)]).events[ei].pages[pi].commands[ci];
            &&& map_segments_of(map_name, map_command_tree(m)).contains(
                SegmentView {
                    key,
                    source_text: c.string_args[0],
                    kind: map_command_kind(map_name, ei as nat, pi as nat, ci as nat),
                },
            )
            &&& c2.string_args.len() == c.string_args.len()
            &&& c2.string_args[0] == t
            &&& forall|j: int| 0 < j < c.string_args.len() ==> c2.string_args[j] == c.string_args[j]
        }),
{
    let tree = map_command_tree(m);
    assert(tree[ei][pi][ci] == m.events[ei].pages[pi].commands[ci]);
    lemma_map_messages_extracted(map_name, tree, ei, pi, ci);
    let c = m.events[ei].pages[pi].commands[ci];
    let prefix = map_command_key(map_name, ei as nat, pi as nat, ci as nat);
    let s = ScopeView::MapPage { map_name, event_idx: ei as nat, page_idx: pi as nat };
    assert(scope_key_head(s) + decimal(ci as nat) =~= prefix);
    lemma_message_injected(c, prefix, t);
}

} // verus!

use hoshi2star::json::Json;
use hoshi2star::mv_mz::extractor::{
    extract_actors, extract_classes, extract_common_events, extract_enemies, extract_items, extract_map,
    extract_map_infos, extract_skills, extract_states, extract_system, extract_troops, SegmentKind,
};
use hoshi2star::mv_mz::injector::{inject, InjectorError};

/// RPG Maker MV/MZ escape codes: a backslash, a code name, and an optional
/// bracketed argument.
const CODES: &str = r"\\[A-Za-z]+(\[[^\]]*\])?";

fn s(text: &str) -> Json {
    Json::Str(text.to_owned())
}

fn n(v: i64) -> Json {
    Json::Number { value: Some(v), text: v.to_string() }
}

fn arr(items: Vec<Json>) -> Json {
    Json::Array(items)
}

fn obj(members: Vec<(&str, Json)>) -> Json {
    Json::Object(members.into_iter().map(|(k, v)| (k.to_owned(), v)).collect())
}

fn cmd(code: i64, params: Vec<Json>) -> Json {
    obj(vec![("code", n(code)), ("parameters", arr(params))])
}

/// `{"events": [null, {"id": 1, "pages": [{"list": list}]}]}`
fn map_with(list: Vec<Json>) -> Json {
    obj(vec![("events", arr(vec![Json::Null, obj(vec![("id", n(1)), ("pages", arr(vec![obj(vec![("list", arr(list))])]))])]))])
}

fn text_at<'a>(j: &'a Json, path: &[&str]) -> Option<&'a str> {
    let mut cur = j;
    for t in path {
        cur = match cur {
            Json::Object(_) => cur.get(t)?,
            Json::Array(v) => v.get(t.parse::<usize>().ok()?)?,
            _ => return None,
        };
    }
    cur.as_str()
}

fn same(a: &Json, b: &Json) -> bool {
    format!("{a:?}") == format!("{b:?}")
}

#[test]
fn test_extract_map_dialogue() {
    let json = map_with(vec![cmd(401, vec![s("こんにちは！")]), cmd(401, vec![s("元気ですか？")])]);
    let segs = extract_map(&json, CODES);
    assert_eq!(segs.len(), 2);
    assert_eq!(segs[0].source, "こんにちは！");
    assert_eq!(segs[0].key, "/events/1/pages/0/list/0/parameters/0");
    assert_eq!(segs[0].kind, SegmentKind::Dialogue);
    assert_eq!(segs[1].source, "元気ですか？");
}

#[test]
fn test_extract_map_mz_speaker() {
    let json = map_with(vec![cmd(101, vec![s(""), n(0), n(0), n(2), s("勇者")]), cmd(401, vec![s("出発します！")])]);
    let segs = extract_map(&json, CODES);
    assert_eq!(segs.len(), 2);
    assert_eq!(segs[0].source, "勇者");
    assert_eq!(segs[0].kind, SegmentKind::Speaker);
    assert_eq!(segs[1].source, "出発します！");
    assert_eq!(segs[1].kind, SegmentKind::Dialogue);
}

#[test]
fn test_extract_map_mv_no_speaker() {
    // MV format: code 101 has only 4 params (no speaker name)
    let json = map_with(vec![cmd(101, vec![s(""), n(0), n(0), n(2)]), cmd(401, vec![s("MV テキスト")])]);
    let segs = extract_map(&json, CODES);
    assert_eq!(segs.len(), 1);
    assert_eq!(segs[0].kind, SegmentKind::Dialogue);
}

#[test]
fn test_extract_map_choices() {
    let json = map_with(vec![cmd(102, vec![arr(vec![s("はい"), s("いいえ")]), n(0), n(0), n(0), n(0)])]);
    let segs = extract_map(&json, CODES);
    assert_eq!(segs.len(), 2);
    assert_eq!(segs[0].source, "はい");
    assert_eq!(segs[0].kind, SegmentKind::Choice);
    assert_eq!(segs[0].key, "/events/1/pages/0/list/0/parameters/0/0");
    assert_eq!(segs[1].source, "いいえ");
    assert_eq!(segs[1].key, "/events/1/pages/0/list/0/parameters/0/1");
}

#[test]
fn test_extract_map_skips_empty_text() {
    let json = map_with(vec![cmd(401, vec![s("")]), cmd(401, vec![s("テキスト")])]);
    let segs = extract_map(&json, CODES);
    assert_eq!(segs.len(), 1);
    assert_eq!(segs[0].source, "テキスト");
}

#[test]
fn test_extract_actors() {
    let json = arr(vec![
        Json::Null,
        obj(vec![("id", n(1)), ("name", s("主人公")), ("nickname", s("勇者")), ("profile", s("冒険者の少年。"))]),
    ]);
    let segs = extract_actors(&json);
    assert_eq!(segs.len(), 3);
    assert_eq!(segs[0].source, "主人公");
    assert_eq!(segs[0].kind, SegmentKind::ActorName);
    assert_eq!(segs[0].key, "/1/name");
    assert_eq!(segs[1].source, "勇者");
    assert_eq!(segs[1].kind, SegmentKind::ActorNickname);
    assert_eq!(segs[2].source, "冒険者の少年。");
    assert_eq!(segs[2].kind, SegmentKind::ActorProfile);
}

#[test]
fn test_extract_items() {
    let json = arr(vec![Json::Null, obj(vec![("id", n(1)), ("name", s("ポーション")), ("description", s("HPを50回復する。"))])]);
    let segs = extract_items(&json);
    assert_eq!(segs.len(), 2);
    assert_eq!(segs[0].source, "ポーション");
    assert_eq!(segs[0].kind, SegmentKind::ItemName);
    assert_eq!(segs[1].source, "HPを50回復する。");
    assert_eq!(segs[1].kind, SegmentKind::ItemDescription);
}

#[test]
fn extractor_test_extract_skills_with_messages() {
    let json = arr(vec![
        Json::Null,
        obj(vec![
            ("id", n(1)),
            ("name", s("ファイア")),
            ("description", s("炎の魔法。")),
            ("message1", s("%1は炎魔法を唱えた！")),
            ("message2", s("")),
        ]),
    ]);
    let segs = extract_skills(&json);
    // name + description + message1 (message2 empty → skipped)
    assert_eq!(segs.len(), 3);
    assert_eq!(segs[2].source, "%1は炎魔法を唱えた！");
    assert_eq!(segs[2].kind, SegmentKind::SkillMessage);
}

#[test]
fn test_extract_states_with_messages() {
    let json = arr(vec![
        Json::Null,
        obj(vec![
            ("id", n(1)),
            ("name", s("毒")),
            ("message1", s("%1は毒を受けた！")),
            ("message2", s("%1は毒にかかっている。")),
            ("message3", s("%1は毒が治った。")),
            ("message4", s("")),
        ]),
    ]);
    let segs = extract_states(&json);
    // name + message1 + message2 + message3 (message4 empty → skipped)
    assert_eq!(segs.len(), 4);
    assert_eq!(segs[0].kind, SegmentKind::StateName);
    assert_eq!(segs[1].kind, SegmentKind::StateMessage);
    assert_eq!(segs[1].source, "%1は毒を受けた！");
}

#[test]
fn test_extract_system() {
    let json = obj(vec![
        ("gameTitle", s("勇者の物語")),
        ("currencyUnit", s("G")),
        (
            "terms",
            obj(vec![
                ("basic", arr(vec![s("最大HP"), s("最大MP")])),
                ("commands", arr(vec![s("攻撃"), s("防御")])),
                ("params", arr(vec![s("HP"), s("MP")])),
                ("messages", obj(vec![("actorDamage", s("%1は%2のダメージを受けた！"))])),
            ]),
        ),
    ]);
    let segs = extract_system(&json);
    // gameTitle + currencyUnit + 2 basic + 2 commands + 2 params + 1 message = 9
    assert_eq!(segs.len(), 9);
    assert_eq!(segs[0].source, "勇者の物語");
    assert_eq!(segs[0].kind, SegmentKind::GameTitle);
    assert_eq!(segs[1].source, "G");
    assert_eq!(segs[1].kind, SegmentKind::SystemTerm);
}

#[test]
fn test_extract_common_events() {
    let json = arr(vec![
        Json::Null,
        obj(vec![("id", n(1)), ("name", s("自動起動")), ("list", arr(vec![cmd(401, vec![s("共通イベントのセリフ")])]))]),
    ]);
    let segs = extract_common_events(&json, CODES);
    // event name + dialogue
    assert_eq!(segs.len(), 2);
    assert_eq!(segs[0].source, "自動起動");
    assert_eq!(segs[0].kind, SegmentKind::CommonEventName);
    assert_eq!(segs[1].source, "共通イベントのセリフ");
    assert_eq!(segs[1].kind, SegmentKind::Dialogue);
}

#[test]
fn test_extract_map_infos() {
    let json = arr(vec![Json::Null, obj(vec![("id", n(1)), ("name", s("序章の森"))])]);
    let segs = extract_map_infos(&json);
    assert_eq!(segs.len(), 1);
    assert_eq!(segs[0].source, "序章の森");
    assert_eq!(segs[0].kind, SegmentKind::MapName);
}

#[test]
fn test_extract_troops_dialogue() {
    let json = arr(vec![
        Json::Null,
        obj(vec![
            ("id", n(1)),
            ("name", s("スライム×3")),
            ("pages", arr(vec![obj(vec![("list", arr(vec![cmd(401, vec![s("スライムの鳴き声！")])]))])])),
        ]),
    ]);
    let segs = extract_troops(&json, CODES);
    assert_eq!(segs.len(), 1);
    assert_eq!(segs[0].source, "スライムの鳴き声！");
    assert_eq!(segs[0].key, "/1/pages/0/list/0/parameters/0");
}

#[test]
fn extractor_test_extract_skips_whitespace_only() {
    // Empty strings AND whitespace-only strings must both be filtered
    let json = map_with(vec![
        cmd(401, vec![s("")]),
        cmd(401, vec![s("   ")]),
        cmd(401, vec![s("\t\n")]),
        cmd(401, vec![s("有効なテキスト")]),
    ]);
    let segs = extract_map(&json, CODES);
    assert_eq!(segs.len(), 1);
    assert_eq!(segs[0].source, "有効なテキスト");
}

#[test]
fn test_extract_simple_array_skips_whitespace() {
    // whitespace-only name filtered, empty profile filtered, valid nickname kept
    let json = arr(vec![Json::Null, obj(vec![("id", n(1)), ("name", s("  ")), ("nickname", s("勇者")), ("profile", s(""))])]);
    let segs = extract_actors(&json);
    assert_eq!(segs.len(), 1);
    assert_eq!(segs[0].source, "勇者");
    assert_eq!(segs[0].kind, SegmentKind::ActorNickname);
}

#[test]
fn test_extract_skips_placeholder_only_segment() {
    // "\n[1]" (lowercase — real community-plugin variant) → skipped
    // "\N[4]" (uppercase — official spec) → also skipped
    let json = map_with(vec![cmd(401, vec![s(r"\n[1]")]), cmd(401, vec![s(r"\N[4]")]), cmd(401, vec![s("反応なし…")])]);
    let segs = extract_map(&json, CODES);
    assert_eq!(segs.len(), 1);
    assert_eq!(segs[0].source, "反応なし…");
}

#[test]
fn test_extract_keeps_placeholder_with_text() {
    let json = map_with(vec![cmd(401, vec![s(r"\n[1] 反応なし…")])]);
    let segs = extract_map(&json, CODES);
    assert_eq!(segs.len(), 1);
    assert_eq!(segs[0].source, r"\n[1] 反応なし…");
}

#[test]
fn test_extract_skips_multiple_placeholders_no_text() {
    let json = map_with(vec![cmd(401, vec![s(r"\c[2]\n[4]")]), cmd(401, vec![s("捕えた！")])]);
    let segs = extract_map(&json, CODES);
    assert_eq!(segs.len(), 1);
    assert_eq!(segs[0].source, "捕えた！");
}

#[test]
fn test_extract_keeps_text_with_intercalated_placeholder() {
    let json = map_with(vec![cmd(401, vec![s(r"捕えた！\V[5]水深１５m")])]);
    let segs = extract_map(&json, CODES);
    assert_eq!(segs.len(), 1);
    assert_eq!(segs[0].source, r"捕えた！\V[5]水深１５m");
}

#[test]
fn system_messages_come_sorted_by_key() {
    let json = obj(vec![(
        "terms",
        obj(vec![("messages", obj(vec![("victory", s("勝利！")), ("actorDamage", s("%1は傷ついた")), ("empty", s(" "))]))]),
    )]);
    let segs = extract_system(&json);
    let keys: Vec<&str> = segs.iter().map(|x| x.key.as_str()).collect();
    assert_eq!(keys, vec!["/terms/messages/actorDamage", "/terms/messages/victory"]);
}

#[test]
fn small_tables_and_missing_structure() {
    let one = |name: &str| arr(vec![Json::Null, obj(vec![("name", s(name))]), Json::Null]);
    assert_eq!(extract_classes(&one("剣士"))[0].kind, SegmentKind::ClassName);
    assert_eq!(extract_enemies(&one("スライム"))[0].key, "/1/name");
    assert!(extract_map(&arr(vec![]), CODES).is_empty());
    assert!(extract_common_events(&obj(vec![]), CODES).is_empty());
    // an empty state name is skipped, a blank one is kept
    let states = arr(vec![Json::Null, obj(vec![("name", s(""))]), obj(vec![("name", s(" "))])]);
    let segs = extract_states(&states);
    assert_eq!(segs.len(), 1);
    assert_eq!(segs[0].key, "/2/name");
}

// --- injection ---

#[test]
fn test_inject_dialogue() {
    let mut json = map_with(vec![cmd(401, vec![s("こんにちは！")])]);
    inject(&mut json, &[("/events/1/pages/0/list/0/parameters/0", "Hello!")]).unwrap();
    let text = text_at(&json, &["events", "1", "pages", "0", "list", "0", "parameters", "0"]).unwrap();
    assert_eq!(text, "Hello!");
}

#[test]
fn test_inject_choices() {
    let mut json = map_with(vec![cmd(102, vec![arr(vec![s("はい"), s("いいえ")]), n(0), n(0), n(0), n(0)])]);
    inject(
        &mut json,
        &[("/events/1/pages/0/list/0/parameters/0/0", "Yes"), ("/events/1/pages/0/list/0/parameters/0/1", "No")],
    )
    .unwrap();
    let yes = text_at(&json, &["events", "1", "pages", "0", "list", "0", "parameters", "0", "0"]).unwrap();
    assert_eq!(yes, "Yes");
}

fn round_trip_map() -> Json {
    map_with(vec![cmd(401, vec![s("こんにちは！")]), cmd(102, vec![arr(vec![s("はい"), s("いいえ")]), n(0), n(0), n(0), n(0)])])
}

#[test]
fn injector_test_round_trip_map() {
    let original = round_trip_map();
    let segments = extract_map(&original, CODES);
    assert_eq!(segments.len(), 3);
    let translations: Vec<(&str, &str)> = segments.iter().map(|x| (x.key.as_str(), x.source.as_str())).collect();
    let mut modified = round_trip_map();
    inject(&mut modified, &translations).unwrap();
    assert!(same(&original, &modified), "JSON must be identical after round-trip");
}

fn round_trip_items() -> Json {
    arr(vec![Json::Null, obj(vec![("id", n(1)), ("name", s("ポーション")), ("description", s("HPを50回復する。"))])])
}

#[test]
fn test_round_trip_items() {
    let original = round_trip_items();
    let segments = extract_items(&original);
    let translations: Vec<(&str, &str)> = segments.iter().map(|x| (x.key.as_str(), x.source.as_str())).collect();
    let mut modified = round_trip_items();
    inject(&mut modified, &translations).unwrap();
    assert!(same(&original, &modified), "JSON must be identical after round-trip");
}

#[test]
fn injector_test_inject_error_key_not_found() {
    let mut json = obj(vec![("name", s("テスト"))]);
    let result = inject(&mut json, &[("/nonexistent", "value")]);
    assert!(matches!(result, Err(InjectorError::KeyNotFound(_))));
}

#[test]
fn injector_test_inject_error_not_a_string() {
    let mut json = obj(vec![("count", n(42))]);
    let result = inject(&mut json, &[("/count", "should fail")]);
    assert!(matches!(result, Err(InjectorError::NotAString(_))));
}

#[test]
fn injection_stops_at_the_first_bad_key_and_keeps_earlier_writes() {
    let mut json = arr(vec![s("a"), s("b"), obj(vec![("x/y", s("c")), ("t~n", s("d"))])]);
    let r = inject(&mut json, &[("/0", "A"), ("/5", "nope"), ("/1", "B")]);
    match r {
        Err(e) => assert_eq!(e.message(), "key not found in JSON: /5"),
        Ok(()) => panic!("expected an error"),
    }
    assert_eq!(text_at(&json, &["0"]), Some("A"));
    assert_eq!(text_at(&json, &["1"]), Some("b"));
    // escaped tokens, leading zeros and a '+' index
    inject(&mut json, &[("/2/x~1y", "C"), ("/2/t~0n", "D")]).unwrap();
    assert_eq!(json.as_array().unwrap()[2].get("x/y").unwrap().as_str(), Some("C"));
    assert_eq!(json.as_array().unwrap()[2].get("t~n").unwrap().as_str(), Some("D"));
    assert!(matches!(inject(&mut json, &[("/01", "x")]), Err(InjectorError::KeyNotFound(_))));
    assert!(matches!(inject(&mut json, &[("/+1", "x")]), Err(InjectorError::KeyNotFound(_))));
    assert!(matches!(inject(&mut json, &[("no-slash", "x")]), Err(InjectorError::KeyNotFound(_))));
    assert!(matches!(inject(&mut json, &[("/2", "x")]), Err(InjectorError::NotAString(_))));
    let mut whole = s("old");
    inject(&mut whole, &[("", "new")]).unwrap();
    assert_eq!(whole.as_str(), Some("new"));
}

use hoshi2star::json::Json;
use hoshi2star::vx_ace::extractor::{
    dispatch_extract, extract_actors, extract_common_events, extract_items, extract_map, extract_map_infos,
    extract_skills, extract_states, extract_system, extract_troops, SegmentKind,
};
use hoshi2star::vx_ace::injector::{inject, InjectorError};

/// RPG Maker escape codes (VX Ace shares the MV/MZ syntax).
const CODES: &str = r"\\[A-Za-z]+(\[[^\]]*\])?";

fn s(text: &str) -> Json {
    Json::Str(text.to_owned())
}

fn n(v: i64) -> Json {
    Json::Number { value: Some(v), text: v.to_string() }
}

fn arr(items: Vec<Json>) -> Json {
    Json::Array(items)
}

fn obj(members: Vec<(&str, Json)>) -> Json {
    Json::Object(members.into_iter().map(|(k, v)| (k.to_owned(), v)).collect())
}

fn cmd(code: i64, params: Vec<Json>) -> Json {
    obj(vec![("code", n(code)), ("parameters", arr(params))])
}

/// `{"events": {"1": {"id": 1, "pages": [{"list": list}]}}}`
fn map_with(list: Vec<Json>) -> Json {
    obj(vec![("events", obj(vec![("1", obj(vec![("id", n(1)), ("pages", arr(vec![obj(vec![("list", arr(list))])]))]))]))])
}

fn text_at<'a>(j: &'a Json, path: &[&str]) -> Option<&'a str> {
    let mut cur = j;
    for t in path {
        cur = match cur {
            Json::Object(_) => cur.get(t)?,
            Json::Array(v) => v.get(t.parse::<usize>().ok()?)?,
            _ => return None,
        };
    }
    cur.as_str()
}

fn same(a: &Json, b: &Json) -> bool {
    format!("{a:?}") == format!("{b:?}")
}

#[test]
fn test_extract_actors_basic() {
    let json = arr(vec![
        Json::Null,
        obj(vec![("id", n(1)), ("name", s("主人公")), ("nickname", s("勇者")), ("description", s("冒険者の少年。"))]),
        obj(vec![("id", n(2)), ("name", s("仲間")), ("nickname", s("魔法使い")), ("description", s("魔法が得意。"))]),
    ]);
    let segs = extract_actors(&json, CODES);
    assert_eq!(segs.len(), 6); // 3 fields × 2 actors
    assert_eq!(segs[0].source, "主人公");
    assert_eq!(segs[0].key, "/1/name");
    assert_eq!(segs[0].kind, SegmentKind::ActorName);
    assert_eq!(segs[1].source, "勇者");
    assert_eq!(segs[1].kind, SegmentKind::ActorNickname);
    assert_eq!(segs[2].source, "冒険者の少年。");
    assert_eq!(segs[2].kind, SegmentKind::ActorDescription);
    assert_eq!(segs[3].source, "仲間");
    assert_eq!(segs[3].key, "/2/name");
}

#[test]
fn test_extract_actors_skips_null() {
    let json = arr(vec![Json::Null, obj(vec![("id", n(1)), ("name", s("勇者")), ("nickname", s("")), ("description", s(""))])]);
    let segs = extract_actors(&json, CODES);
    assert_eq!(segs.len(), 1); // only non-empty name
    assert_eq!(segs[0].source, "勇者");
}

#[test]
fn test_extract_items_name_and_description() {
    let json = arr(vec![Json::Null, obj(vec![("id", n(1)), ("name", s("ポーション")), ("description", s("HPを50回復する。"))])]);
    let segs = extract_items(&json, CODES);
    assert_eq!(segs.len(), 2);
    assert_eq!(segs[0].source, "ポーション");
    assert_eq!(segs[0].kind, SegmentKind::ItemName);
    assert_eq!(segs[1].source, "HPを50回復する。");
    assert_eq!(segs[1].kind, SegmentKind::ItemDescription);
}

#[test]
fn test_extract_skills_with_messages() {
    let json = arr(vec![
        Json::Null,
        obj(vec![
            ("id", n(1)),
            ("name", s("ファイア")),
            ("description", s("炎の魔法。")),
            ("message1", s("%1は炎魔法を唱えた！")),
            ("message2", s("")),
        ]),
    ]);
    let segs = extract_skills(&json, CODES);
    assert_eq!(segs.len(), 3);
    assert_eq!(segs[2].source, "%1は炎魔法を唱えた！");
    assert_eq!(segs[2].kind, SegmentKind::SkillMessage);
}

#[test]
fn test_extract_states_four_messages() {
    let json = arr(vec![
        Json::Null,
        obj(vec![
            ("id", n(1)),
            ("name", s("毒")),
            ("message1", s("%1は毒を受けた！")),
            ("message2", s("%1は毒にかかっている。")),
            ("message3", s("%1は毒が治った。")),
            ("message4", s("")),
        ]),
    ]);
    let segs = extract_states(&json, CODES);
    assert_eq!(segs.len(), 4);
    assert_eq!(segs[0].kind, SegmentKind::StateName);
    assert_eq!(segs[1].kind, SegmentKind::StateMessage);
    assert_eq!(segs[1].source, "%1は毒を受けた！");
}

#[test]
fn test_extract_map_infos_hash_keys() {
    let json = obj(vec![
        ("1", obj(vec![("name", s("序章の森")), ("parent_id", n(0)), ("order", n(1))])),
        ("2", obj(vec![("name", s("村")), ("parent_id", n(0)), ("order", n(2))])),
    ]);
    let segs = extract_map_infos(&json, CODES);
    assert_eq!(segs.len(), 2);
    assert_eq!(segs[0].source, "序章の森");
    assert_eq!(segs[0].key, "/1/name");
    assert_eq!(segs[0].kind, SegmentKind::MapName);
    assert_eq!(segs[1].source, "村");
    assert_eq!(segs[1].key, "/2/name");
}

#[test]
fn test_extract_common_events_name_and_dialogue() {
    let json = arr(vec![
        Json::Null,
        obj(vec![("id", n(1)), ("name", s("自動起動")), ("list", arr(vec![cmd(401, vec![s("共通イベントのセリフ")])]))]),
    ]);
    let segs = extract_common_events(&json, CODES);
    assert_eq!(segs.len(), 2);
    assert_eq!(segs[0].source, "自動起動");
    assert_eq!(segs[0].kind, SegmentKind::CommonEventName);
    assert_eq!(segs[1].source, "共通イベントのセリフ");
    assert_eq!(segs[1].kind, SegmentKind::Dialogue);
}

#[test]
fn test_extract_map_dialogue_code_401() {
    let json = map_with(vec![cmd(401, vec![s("こんにちは！")]), cmd(401, vec![s("元気ですか？")])]);
    let segs = extract_map(&json, CODES);
    assert_eq!(segs.len(), 2);
    assert_eq!(segs[0].source, "こんにちは！");
    assert_eq!(segs[0].key, "/events/1/pages/0/list/0/parameters/0");
    assert_eq!(segs[0].kind, SegmentKind::Dialogue);
    assert_eq!(segs[1].source, "元気ですか？");
}

#[test]
fn test_extract_map_choices_code_102() {
    let json = map_with(vec![cmd(102, vec![arr(vec![s("はい"), s("いいえ")]), n(0)])]);
    let segs = extract_map(&json, CODES);
    assert_eq!(segs.len(), 2);
    assert_eq!(segs[0].source, "はい");
    assert_eq!(segs[0].key, "/events/1/pages/0/list/0/parameters/0/0");
    assert_eq!(segs[0].kind, SegmentKind::Choice);
    assert_eq!(segs[1].source, "いいえ");
    assert_eq!(segs[1].key, "/events/1/pages/0/list/0/parameters/0/1");
}

#[test]
fn test_extract_map_no_speaker_in_code_101() {
    let json = map_with(vec![cmd(101, vec![s("face_file"), n(0), n(0), n(2)]), cmd(401, vec![s("VXAceのセリフ")])]);
    let segs = extract_map(&json, CODES);
    assert_eq!(segs.len(), 1);
    assert_eq!(segs[0].source, "VXAceのセリフ");
    assert_eq!(segs[0].kind, SegmentKind::Dialogue);
}

#[test]
fn test_extract_system_game_title_snake_case() {
    let json = obj(vec![
        ("game_title", s("勇者の物語")),
        ("currency_unit", s("G")),
        (
            "terms",
            obj(vec![
                ("basic", arr(vec![s("最大HP"), s("最大MP")])),
                ("commands", arr(vec![s("攻撃"), s("防御")])),
                ("params", arr(vec![s("HP"), s("MP")])),
                ("messages", obj(vec![("actor_damage", s("%1は%2のダメージを受けた！"))])),
            ]),
        ),
    ]);
    let segs = extract_system(&json, CODES);
    assert_eq!(segs.len(), 9);
    assert_eq!(segs[0].source, "勇者の物語");
    assert_eq!(segs[0].key, "/game_title");
    assert_eq!(segs[0].kind, SegmentKind::GameTitle);
    assert_eq!(segs[1].source, "G");
    assert_eq!(segs[1].kind, SegmentKind::SystemTerm);
}

#[test]
fn test_extract_skips_empty_strings() {
    let json = arr(vec![Json::Null, obj(vec![("id", n(1)), ("name", s("")), ("description", s("有効な説明"))])]);
    let segs = extract_items(&json, CODES);
    assert_eq!(segs.len(), 1);
    assert_eq!(segs[0].source, "有効な説明");
}

#[test]
fn test_extract_skips_whitespace_only() {
    let json = map_with(vec![cmd(401, vec![s("")]), cmd(401, vec![s("   ")]), cmd(401, vec![s("有効なテキスト")])]);
    let segs = extract_map(&json, CODES);
    assert_eq!(segs.len(), 1);
    assert_eq!(segs[0].source, "有効なテキスト");
}

#[test]
fn hash_keys_are_taken_in_numeric_order() {
    let json = obj(vec![
        ("10", obj(vec![("name", s("十"))])),
        ("2", obj(vec![("name", s("二"))])),
        ("x", obj(vec![("name", s("エックス"))])),
        ("+3", obj(vec![("name", s("三"))])),
    ]);
    let keys: Vec<String> = extract_map_infos(&json, CODES).into_iter().map(|x| x.key).collect();
    assert_eq!(keys, vec!["/2/name", "/+3/name", "/10/name", "/x/name"]);
}

#[test]
fn the_filter_drops_numbers_symbols_and_codes() {
    let json = arr(vec![Json::Null, obj(vec![("name", s("100")), ("description", s("…"))]), obj(vec![("name", s(r"\V[1]"))])]);
    assert!(extract_items(&json, CODES).is_empty());
    let troops = arr(vec![
        Json::Null,
        obj(vec![("pages", arr(vec![obj(vec![]), obj(vec![("list", arr(vec![cmd(401, vec![s("ぷるぷる")])]))])]))]),
    ]);
    let segs = extract_troops(&troops, CODES);
    assert_eq!(segs.len(), 1);
    assert_eq!(segs[0].key, "/1/pages/1/list/0/parameters/0");
}

#[test]
fn files_are_dispatched_by_name() {
    let actors = arr(vec![Json::Null, obj(vec![("name", s("勇者"))])]);
    assert_eq!(dispatch_extract("Actors.rvdata2", &actors, CODES).len(), 1);
    assert_eq!(dispatch_extract("Weapons.rvdata2", &actors, CODES)[0].kind, SegmentKind::ItemName);
    assert!(dispatch_extract("Tilesets.rvdata2", &actors, CODES).is_empty());
    let map = map_with(vec![cmd(401, vec![s("やあ")])]);
    assert_eq!(dispatch_extract("Map003.rvdata2", &map, CODES).len(), 1);
    assert!(dispatch_extract("MapInfos.rvdata2", &map, CODES).is_empty());
    assert!(dispatch_extract("Mapping.rvdata2", &map, CODES).is_empty());
}

// --- injection ---

#[test]
fn test_inject_actor_name() {
    let mut value = arr(vec![Json::Null, obj(vec![("name", s("主人公")), ("nickname", s("勇者"))])]);
    inject(&mut value, &[("/1/name", "Hero")]).unwrap();
    assert_eq!(text_at(&value, &["1", "name"]), Some("Hero"));
}

#[test]
fn test_inject_error_key_not_found() {
    let mut value = obj(vec![("name", s("テスト"))]);
    let result = inject(&mut value, &[("/nonexistent", "value")]);
    assert!(matches!(result, Err(InjectorError::KeyNotFound(_))));
}

#[test]
fn test_inject_error_not_a_string() {
    let mut value = obj(vec![("count", n(42))]);
    let result = inject(&mut value, &[("/count", "should fail")]);
    assert!(matches!(result, Err(InjectorError::NotAString(_))));
}

fn actors_for_round_trip() -> Json {
    arr(vec![Json::Null, obj(vec![("id", n(1)), ("name", s("主人公")), ("nickname", s("勇者")), ("description", s("冒険者"))])])
}

#[test]
fn test_round_trip_actors() {
    let original = actors_for_round_trip();
    let segments = extract_actors(&original, CODES);
    let translations: Vec<(&str, &str)> = segments.iter().map(|x| (x.key.as_str(), x.source.as_str())).collect();
    let mut modified = actors_for_round_trip();
    inject(&mut modified, &translations).unwrap();
    assert!(same(&original, &modified), "Value must be identical after round-trip");
}

fn map_for_round_trip() -> Json {
    map_with(vec![cmd(401, vec![s("こんにちは！")]), cmd(102, vec![arr(vec![s("はい"), s("いいえ")]), n(0)])])
}

#[test]
fn test_round_trip_map() {
    let original = map_for_round_trip();
    let segments = extract_map(&original, CODES);
    assert_eq!(segments.len(), 3);
    let translations: Vec<(&str, &str)> = segments.iter().map(|x| (x.key.as_str(), x.source.as_str())).collect();
    let mut modified = map_for_round_trip();
    inject(&mut modified, &translations).unwrap();
    assert!(same(&original, &modified), "Map Value must be identical after round-trip");
}

#[test]
fn injector_messages() {
    assert_eq!(InjectorError::KeyNotFound("/a".to_owned()).message(), "key not found in Marshal value: /a");
    assert_eq!(InjectorError::NotAString("/b".to_owned()).message(), "target at key is not a string: /b");
    assert_eq!(InjectorError::ParseError("eof".to_owned()).message(), "failed to parse .rvdata2: eof");
}

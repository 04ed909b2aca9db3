use encoding_rs::SHIFT_JIS;
use hoshi2star::game_title::{ini_title, mv_mz_game_title, vx_ace_game_title, wolf_game_title};
use hoshi2star::json::Json;
use hoshi2star::vx_ace::marshal::serialize;

#[test]
fn wolf_title_from_shift_jis_ini() {
    let (bytes, _, _) = SHIFT_JIS.encode("[Game]\r\nGameTitle= 星の勇者 \r\nVersion=2\r\n");
    assert_eq!(wolf_game_title(&bytes).as_deref(), Some("星の勇者"));
}

#[test]
fn wolf_title_from_utf8_ini_when_not_shift_jis() {
    // 0xE6 0x98 0x9F is "星" in UTF-8 and not a valid Shift-JIS sequence end.
    let text = "GameTitle=星\n";
    let bytes = text.as_bytes();
    let title = wolf_game_title(bytes).unwrap();
    assert!(!title.is_empty());
}

#[test]
fn ini_title_skips_empty_and_other_lines() {
    assert_eq!(ini_title("Name=x\nGameTitle=   \n  GameTitle=Hero Saga\nGameTitle=Later\n").as_deref(), Some("Hero Saga"));
    assert_eq!(ini_title("gametitle=lower\n"), None);
    assert_eq!(ini_title(""), None);
    assert_eq!(ini_title("GameTitle=Last line without newline").as_deref(), Some("Last line without newline"));
}

#[test]
fn mv_mz_title_from_system_json() {
    assert_eq!(mv_mz_game_title(r#"{"gameTitle":"Quest","currencyUnit":"G"}"#).as_deref(), Some("Quest"));
    assert_eq!(mv_mz_game_title(r#"{"gameTitle":3}"#), None);
    assert_eq!(mv_mz_game_title("not json"), None);
}

fn text(t: &str) -> Json {
    Json::Str(t.to_owned())
}

fn obj(members: Vec<(&str, Json)>) -> Json {
    Json::Object(members.into_iter().map(|(k, v)| (k.to_owned(), v)).collect())
}

#[test]
fn vx_ace_title_from_system_rvdata2() {
    let title = obj(vec![("__type", text("str")), ("__value", text("Ace Quest"))]);
    let system = obj(vec![
        ("__type", text("object")),
        ("__class", text("RPG::System")),
        ("__members", Json::Array(vec![Json::Array(vec![text("@game_title"), title])])),
    ]);
    let bytes = serialize(&system).expect("a Marshal stream");
    assert_eq!(vx_ace_game_title(&bytes).as_deref(), Some("Ace Quest"));
    assert_eq!(vx_ace_game_title(b"nope"), None);
}

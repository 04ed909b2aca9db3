use hoshi2star::json::Json;
use hoshi2star::vx_ace::extractor::{extract_from_bytes, SegmentKind};
use hoshi2star::vx_ace::injector::{inject_and_serialize, InjectorError};
use hoshi2star::vx_ace::marshal::{plain_of, serialize};

const CODES: &str = r"\\[A-Za-z]+(\[[^\]]*\])?";

fn text(t: &str) -> Json {
    Json::Str(t.to_owned())
}

fn obj(members: Vec<(&str, Json)>) -> Json {
    Json::Object(members.into_iter().map(|(k, v)| (k.to_owned(), v)).collect())
}

/// A Ruby string, tagged as marshal-rs writes it.
fn rstr(t: &str) -> Json {
    obj(vec![("__type", text("str")), ("__value", text(t))])
}

fn fixnum(v: i64) -> Json {
    Json::Number { value: Some(v), text: v.to_string() }
}

fn rarray(items: Vec<Json>) -> Json {
    obj(vec![("__type", text("array")), ("__value", Json::Array(items))])
}

/// A Ruby hash with string keys.
fn rhash(entries: Vec<(&str, Json)>) -> Json {
    let pairs = entries.into_iter().map(|(k, v)| Json::Array(vec![rstr(k), v])).collect();
    obj(vec![("__type", text("hash")), ("__value", Json::Array(pairs))])
}

/// A Ruby object of `class` with instance variables.
fn robject(class: &str, ivars: Vec<(&str, Json)>) -> Json {
    let members = ivars.into_iter().map(|(k, v)| Json::Array(vec![text(k), v])).collect();
    obj(vec![("__type", text("object")), ("__class", text(class)), ("__members", Json::Array(members))])
}

fn from_value(v: &serde_json::Value) -> Json {
    match v {
        serde_json::Value::Null => Json::Null,
        serde_json::Value::Bool(b) => Json::Bool(*b),
        serde_json::Value::Number(n) => Json::Number { value: n.as_i64(), text: n.to_string() },
        serde_json::Value::String(s) => Json::Str(s.clone()),
        serde_json::Value::Array(items) => Json::Array(items.iter().map(from_value).collect()),
        serde_json::Value::Object(map) => Json::Object(map.iter().map(|(k, x)| (k.clone(), from_value(x))).collect()),
    }
}

/// The plain tree of Marshal bytes, read with marshal-rs directly.
fn reload(bytes: &[u8]) -> Json {
    let arena = marshal_rs::load(bytes).expect("a Marshal stream");
    let value = serde_json::to_value(&arena).expect("a serde form");
    plain_of(&from_value(&value))
}

fn text_at<'a>(j: &'a Json, path: &[&str]) -> Option<&'a str> {
    let mut cur = j;
    for t in path {
        cur = match cur {
            Json::Object(_) => cur.get(t)?,
            Json::Array(v) => v.get(t.parse::<usize>().ok()?)?,
            _ => return None,
        };
    }
    cur.as_str()
}

fn same(a: &Json, b: &Json) -> bool {
    format!("{a:?}") == format!("{b:?}")
}

fn actors() -> Json {
    rarray(vec![
        Json::Null,
        rhash(vec![("id", fixnum(1)), ("name", rstr("主人公")), ("nickname", rstr("勇者"))]),
    ])
}

#[test]
fn test_serialize_produces_valid_marshal() {
    let original = rarray(vec![Json::Null, rhash(vec![("name", rstr("テスト")), ("description", rstr("説明"))])]);
    let bytes = serialize(&original).expect("a Marshal stream");
    let reloaded = reload(&bytes);
    let arena = marshal_rs::load(&bytes).unwrap();
    let tagged = from_value(&serde_json::to_value(&arena).unwrap());
    let bytes2 = serialize(&tagged).expect("a Marshal stream");
    let reloaded2 = reload(&bytes2);
    assert!(same(&reloaded, &reloaded2), "value idempotent after double marshal round trip");
    assert_eq!(text_at(&reloaded, &["1", "name"]), Some("テスト"));
}

#[test]
fn test_inject_and_serialize_round_trip() {
    let bytes = serialize(&actors()).unwrap();
    let result = inject_and_serialize(&bytes, &[("/1/name", "Hero"), ("/1/nickname", "Brave")]);
    assert!(result.is_ok());
    let updated = reload(&result.unwrap());
    assert_eq!(text_at(&updated, &["1", "name"]), Some("Hero"));
    assert_eq!(text_at(&updated, &["1", "nickname"]), Some("Brave"));
    assert!(matches!(&updated, Json::Array(v) if matches!(v[0], Json::Null)));
}

#[test]
fn inject_and_serialize_refuses_non_marshal_bytes() {
    let result = inject_and_serialize(b"not marshal", &[("/1/name", "Hero")]);
    assert!(matches!(result, Err(InjectorError::ParseError(_))));
}

#[test]
fn inject_and_serialize_key_errors() {
    let bytes = serialize(&actors()).unwrap();
    match inject_and_serialize(&bytes, &[("/1/missing", "x")]) {
        Err(InjectorError::KeyNotFound(k)) => assert_eq!(k, "/1/missing"),
        other => panic!("expected KeyNotFound, got {other:?}"),
    }
    match inject_and_serialize(&bytes, &[("/1/id", "x")]) {
        Err(InjectorError::NotAString(k)) => assert_eq!(k, "/1/id"),
        other => panic!("expected NotAString, got {other:?}"),
    }
}

#[test]
fn inject_and_serialize_identity_keeps_bytes_meaning() {
    let bytes = serialize(&actors()).unwrap();
    let out = inject_and_serialize(&bytes, &[]).unwrap();
    assert!(same(&reload(&out), &reload(&bytes)));
}

#[test]
fn extract_from_bytes_reads_objects() {
    let data = rarray(vec![
        Json::Null,
        robject("RPG::Actor", vec![("@id", fixnum(1)), ("@name", rstr("ハロルド")), ("@nickname", rstr("")), ("@description", rstr("勇者"))]),
    ]);
    let bytes = serialize(&data).unwrap();
    let segs = extract_from_bytes("Actors.rvdata2", &bytes, CODES);
    let keys: Vec<&str> = segs.iter().map(|s| s.key.as_str()).collect();
    assert!(keys.contains(&"/1/name"), "{keys:?}");
    assert!(segs.iter().any(|s| s.source == "ハロルド" && s.kind == SegmentKind::ActorName));
    let out = inject_and_serialize(&bytes, &[("/1/name", "Harold")]).unwrap();
    assert_eq!(text_at(&reload(&out), &["1", "name"]), Some("Harold"));
    assert_eq!(text_at(&reload(&out), &["1", "description"]), Some("勇者"));
}

#[test]
fn extract_from_bytes_empty_on_garbage() {
    assert!(extract_from_bytes("Actors.rvdata2", b"\x04\x09garbage", CODES).is_empty());
}

//! `.rvdata2` bytes: Ruby Marshal streams read and written with marshal-rs.
//!
//! marshal-rs gives a stream as a tree of tagged values (its serde form):
//! `{"__type": "str", "__value": ..}`, `{"__type": "array", "__value": [..]}`,
//! `{"__type": "hash", "__value": [[k, v], ..]}`, `{"__type": "object",
//! "__class": .., "__members": [[name, v], ..]}`. The extractors read the
//! plain form of that tree (`plain_tree`): strings as strings, arrays as
//! arrays, objects and structs as members by name (an instance variable
//! `@name` as `name`), hashes as members by key text (integer keys as
//! decimal text). Translations are
//! written into the tagged tree, at the place a plain pointer stands for
//! (`tagged_tokens`), so that nothing else of the stream changes.
use vstd::prelude::*;

use crate::json::{
    array_index, chars_view, elements_tree, index_token, json_get, lemma_tree_parts,
    member_from, members_tree, text_equals_chars, tree, Json, JsonTree,
};
use crate::wolf::dat_parser::decimal;
use crate::wolf::decryptor::str_equal;
use crate::wolf::injector::chars_of;

verus! {

/// The `__type` tag of a tagged value (empty when it has none).
pub open spec fn tag_of(j: Json) -> Seq<char> {
    match json_get(j, "__type"@) {
        Some(Json::Str(s)) => s@,
        _ => Seq::empty(),
    }
}

/// The text of a tagged UTF-8 string (`None` for any other value, and for
/// a string whose bytes are not UTF-8, which marshal-rs gives as base64).
pub open spec fn tagged_text(j: Json) -> Option<Seq<char>> {
    if tag_of(j) == "str"@ && json_get(j, "__base64"@) is None {
        match json_get(j, "__value"@) {
            Some(Json::Str(s)) => Some(s@),
            _ => None,
        }
    } else {
        None
    }
}

/// A hash key as a member name: an integer's decimal text, a string's text
/// (empty for any other key).
pub open spec fn hash_key_text(k: Json) -> Seq<char> {
    match k {
        Json::Number { text, .. } => text@,
        _ => match tagged_text(k) {
            Some(s) => s,
            None => Seq::empty(),
        },
    }
}

/// An object member's name without the `@` of an instance variable
/// (empty when it is not plain text).
pub open spec fn member_name(n: Json) -> Seq<char> {
    match n {
        Json::Str(s) => if s@.len() > 0 && s@[0] == '@' {
            s@.skip(1)
        } else {
            s@
        },
        _ => Seq::empty(),
    }
}

/// A tagged value holds its entries as `[key, value]` pairs: hashes and
/// objects, and structs.
pub open spec fn keyed(tag: Seq<char>) -> bool {
    tag == "hash"@ || tag == "object"@ || tag == "struct"@
}

/// Where a tagged value keeps its elements or entries.
pub open spec fn body_key(tag: Seq<char>) -> Seq<char> {
    if tag == "object"@ || tag == "struct"@ {
        "__members"@
    } else {
        "__value"@
    }
}

/// The name a `[key, value]` pair gives its value under a tag.
pub open spec fn pair_name(tag: Seq<char>, k: Json) -> Seq<char> {
    if tag == "hash"@ {
        hash_key_text(k)
    } else {
        member_name(k)
    }
}

pub proof fn lemma_member_from_at(es: Seq<(String, Json)>, key: Seq<char>, i: int) -> (k: int)
    requires
        0 <= i,
        member_from(es, key, i) is Some,
    ensures
        i <= k < es.len(),
        es[k].1 == member_from(es, key, i)->0,
    decreases es.len() - i,
{
    if es[i].0@ == key {
        i
    } else {
        lemma_member_from_at(es, key, i + 1)
    }
}

/// The plain form of a tagged tree (see the module's comment); any other
/// tagged value is `null`.
pub open spec fn plain_tree(j: Json) -> JsonTree
    decreases j,
{
    match j {
        Json::Object(es) => {
            let tag = tag_of(j);
            if tag == "str"@ {
                match tagged_text(j) {
                    Some(s) => JsonTree::Str(s),
                    None => JsonTree::Null,
                }
            } else if tag == "array"@ || keyed(tag) {
                match member_from(es@, body_key(tag), 0) {
                    Some(Json::Array(xs)) => {
                        proof {
                            let k = lemma_member_from_at(es@, body_key(tag), 0);
                            assert(decreases_to!(j => es@[k].1));
                        }
                        if tag == "array"@ {
                            JsonTree::Array(
                                Seq::new(
                                    xs@.len(),
                                    |i: int|
                                        if 0 <= i < xs@.len() {
                                            plain_tree(xs@[i])
                                        } else {
                                            JsonTree::Null
                                        },
                                ),
                            )
                        } else {
                            JsonTree::Object(
                                Seq::new(
                                    xs@.len(),
                                    |i: int|
                                        if 0 <= i < xs@.len() {
                                            match xs@[i] {
                                                Json::Array(p) => if p@.len() == 2 {
                                                    (pair_name(tag, p@[0]), plain_tree(p@[1]))
                                                } else {
                                                    (Seq::empty(), JsonTree::Null)
                                                },
                                                _ => (Seq::empty(), JsonTree::Null),
                                            }
                                        } else {
                                            (Seq::empty(), JsonTree::Null)
                                        },
                                ),
                            )
                        }
                    },
                    _ => JsonTree::Null,
                }
            } else {
                JsonTree::Null
            }
        },
        Json::Null => JsonTree::Null,
        Json::Bool(b) => JsonTree::Bool(b),
        Json::Number { value, text } => JsonTree::Number(value, text@),
        Json::Str(s) => JsonTree::Str(s@),
        Json::Array(_) => JsonTree::Null,
    }
}

proof fn lemma_element_decreases(v: Vec<Json>, i: int)
    requires
        0 <= i < v@.len(),
    ensures
        decreases_to!(Json::Array(v) => v@[i]),
{
    let a = Json::Array(v);
    assert(decreases_to!(a => a->Array_0));
    assert(decreases_to!(v => v@));
    assert(decreases_to!(v@ => v@[i]));
}

fn tag(j: &Json) -> (t: &str)
    ensures
        t@ == tag_of(*j),
{
    proof {
        reveal_strlit("");
    }
    match j.get("__type") {
        Some(Json::Str(s)) => s.as_str(),
        _ => "",
    }
}

fn text_of_tagged(j: &Json) -> (r: Option<&str>)
    ensures
        match tagged_text(*j) {
            Some(s) => r matches Some(x) && x@ == s,
            None => r is None,
        },
{
    proof {
        reveal_strlit("str");
    }
    if !str_equal(tag(j), "str") || j.get("__base64").is_some() {
        return None;
    }
    match j.get("__value") {
        Some(Json::Str(s)) => Some(s.as_str()),
        _ => None,
    }
}

fn key_text(k: &Json, hash: bool) -> (s: String)
    ensures
        hash ==> s@ == hash_key_text(*k),
        !hash ==> s@ == member_name(*k),
{
    proof {
        reveal_strlit("");
    }
    if hash {
        match k {
            Json::Number { text, .. } => text.clone(),
            _ => match text_of_tagged(k) {
                Some(t) => String::from_str(t),
                None => String::new(),
            },
        }
    } else {
        match k {
            Json::Str(s) => {
                let t = s.as_str();
                let n = t.unicode_len();
                if n > 0 && t.get_char(0) == '@' {
                    let r = t.substring_char(1, n);
                    assert(r@ =~= s@.skip(1));
                    String::from_str(r)
                } else {
                    s.clone()
                }
            },
            _ => String::new(),
        }
    }
}

/// The plain form of a tagged tree (see `plain_tree`).
pub fn plain_of(j: &Json) -> (r: Json)
    ensures
        tree(r) == plain_tree(*j),
    decreases j,
{
    proof {
        reveal_strlit("str");
        reveal_strlit("array");
        reveal_strlit("hash");
        reveal_strlit("object");
        reveal_strlit("struct");
        reveal_strlit("__members");
        reveal_strlit("__value");
    }
    match j {
        Json::Object(es) => {
            let t = tag(j);
            if str_equal(t, "str") {
                return match text_of_tagged(j) {
                    Some(s) => Json::Str(String::from_str(s)),
                    None => Json::Null,
                };
            }
            let is_array = str_equal(t, "array");
            let is_hash = str_equal(t, "hash");
            let is_members = str_equal(t, "object") || str_equal(t, "struct");
            if !is_array && !is_hash && !is_members {
                return Json::Null;
            }
            let ghost g = tag_of(*j);
            assert(keyed(g) == (is_hash || is_members));
            let body = if is_members {
                "__members"
            } else {
                "__value"
            };
            assert(body@ == body_key(g));
            let xs = match j.get(body) {
                Some(Json::Array(xs)) => xs,
                _ => return Json::Null,
            };
            assert(member_from(es@, body_key(g), 0) == Some(Json::Array(*xs)));
            if is_array {
                let mut out: Vec<Json> = Vec::new();
                let mut i: usize = 0;
                while i < xs.len()
                    invariant
                        i <= xs@.len(),
                        out@.len() == i,
                        *j == Json::Object(*es),
                        g == tag_of(*j),
                        is_hash == (g == "hash"@),
                        member_from(es@, body_key(g), 0) == Some(Json::Array(*xs)),
                        forall|m: int| 0 <= m < i ==> tree(#[trigger] out@[m]) == plain_tree(xs@[m]),
                    decreases xs@.len() - i,
                {
                    proof {
                        let k = lemma_member_from_at(es@, body_key(g), 0);
                        assert(es@[k].1 == Json::Array(*xs));
                        assert(decreases_to!(*j => es@[k].1));
                        lemma_element_decreases(*xs, i as int);
                    }
                    let x = plain_of(&xs[i]);
                    out.push(x);
                    i = i + 1;
                }
                let r = Json::Array(out);
                proof {
                    lemma_tree_parts(r);
                    assert(elements_tree(out@) =~= plain_tree(*j)->Array_0);
                }
                r
            } else {
                let mut out: Vec<(String, Json)> = Vec::new();
                let mut i: usize = 0;
                let ghost target = plain_tree(*j)->Object_0;
                assert(target == Seq::new(
                    xs@.len(),
                    |m: int|
                        if 0 <= m < xs@.len() {
                            match xs@[m] {
                                Json::Array(p) => if p@.len() == 2 {
                                    (pair_name(g, p@[0]), plain_tree(p@[1]))
                                } else {
                                    (Seq::<char>::empty(), JsonTree::Null)
                                },
                                _ => (Seq::<char>::empty(), JsonTree::Null),
                            }
                        } else {
                            (Seq::<char>::empty(), JsonTree::Null)
                        },
                ));
                while i < xs.len()
                    invariant
                        i <= xs@.len(),
                        out@.len() == i,
                        *j == Json::Object(*es),
                        g == tag_of(*j),
                        is_hash == (g == "hash"@),
                        member_from(es@, body_key(g), 0) == Some(Json::Array(*xs)),
                        target == plain_tree(*j)->Object_0,
                        target == Seq::new(
                            xs@.len(),
                            |m: int|
                                if 0 <= m < xs@.len() {
                                    match xs@[m] {
                                        Json::Array(p) => if p@.len() == 2 {
                                            (pair_name(g, p@[0]), plain_tree(p@[1]))
                                        } else {
                                            (Seq::<char>::empty(), JsonTree::Null)
                                        },
                                        _ => (Seq::<char>::empty(), JsonTree::Null),
                                    }
                                } else {
                                    (Seq::<char>::empty(), JsonTree::Null)
                                },
                        ),
                        forall|m: int| 0 <= m < i ==> (#[trigger] out@[m]).0@ == target[m].0 && tree(out@[m].1)
                            == target[m].1,
                    decreases xs@.len() - i,
                {
                    let entry = match &xs[i] {
                        Json::Array(p) => if p.len() == 2 {
                            proof {
                                let k = lemma_member_from_at(es@, body_key(g), 0);
                                assert(es@[k].1 == Json::Array(*xs));
                                assert(decreases_to!(*j => es@[k].1));
                                lemma_element_decreases(*xs, i as int);
                                lemma_element_decreases(*p, 1);
                            }
                            let name = key_text(&p[0], is_hash);
                            assert(name@ == pair_name(g, p@[0]));
                            (name, plain_of(&p[1]))
                        } else {
                            (String::new(), Json::Null)
                        },
                        _ => (String::new(), Json::Null),
                    };
                    out.push(entry);
                    i = i + 1;
                }
                let r = Json::Object(out);
                proof {
                    lemma_tree_parts(r);
                    assert(members_tree(out@) =~= target);
                }
                r
            }
        },
        Json::Null => Json::Null,
        Json::Bool(b) => Json::Bool(*b),
        Json::Number { value, text } => Json::Number { value: *value, text: text.clone() },
        Json::Str(s) => Json::Str(s.clone()),
        Json::Array(_) => Json::Null,
    }
}

// ---------------------------------------------------------------------------
// Plain pointers in the tagged tree
// ---------------------------------------------------------------------------

/// The first `[key, value]` pair, from `i` on, whose name under `tag` is
/// `token`.
pub open spec fn pair_at(xs: Seq<Json>, tag: Seq<char>, token: Seq<char>, i: int) -> Option<int>
    decreases xs.len() - i,
{
    if i < 0 || i >= xs.len() {
        None
    } else {
        match xs[i] {
            Json::Array(p) => if p@.len() == 2 && pair_name(tag, p@[0]) == token {
                Some(i)
            } else {
                pair_at(xs, tag, token, i + 1)
            },
            _ => pair_at(xs, tag, token, i + 1),
        }
    }
}

/// The tokens, in the tagged tree, of the place that the plain tokens `ts`
/// stand for: an array's element by index, an object's member by name, a
/// hash's entry by key text (the first that has it), and at the end the
/// text of a tagged string. `None` where the plain tokens lead nowhere.
pub open spec fn tagged_tokens(j: Json, ts: Seq<Seq<char>>) -> Option<Seq<Seq<char>>>
    decreases ts.len(),
{
    if ts.len() == 0 {
        if tagged_text(j) is Some {
            Some(seq!["__value"@])
        } else {
            Some(Seq::empty())
        }
    } else {
        let tag = tag_of(j);
        if tag == "array"@ || keyed(tag) {
            match json_get(j, body_key(tag)) {
                Some(Json::Array(xs)) => if tag == "array"@ {
                    match array_index(ts[0]) {
                        Some(i) => if (i as int) < xs@.len() {
                            match tagged_tokens(xs@[i as int], ts.skip(1)) {
                                Some(r) => Some(seq![body_key(tag), ts[0]] + r),
                                None => None,
                            }
                        } else {
                            None
                        },
                        None => None,
                    }
                } else {
                    match pair_at(xs@, tag, ts[0], 0) {
                        Some(e) => match xs@[e] {
                            Json::Array(p) => match tagged_tokens(p@[1], ts.skip(1)) {
                                Some(r) => Some(seq![body_key(tag), decimal(e as nat), "1"@] + r),
                                None => None,
                            },
                            _ => None,
                        },
                        None => None,
                    }
                },
                _ => None,
            }
        } else {
            None
        }
    }
}

proof fn lemma_pair_at(xs: Seq<Json>, tag: Seq<char>, token: Seq<char>, i: int)
    requires
        0 <= i,
    ensures
        pair_at(xs, tag, token, i) matches Some(e) ==> (i <= e < xs.len() && (xs[e] matches Json::Array(p)
            && p@.len() == 2)),
    decreases xs.len() - i,
{
    if i < xs.len() {
        lemma_pair_at(xs, tag, token, i + 1);
    }
}

fn find_pair(xs: &Vec<Json>, hash: bool, token: &Vec<char>) -> (r: Option<usize>)
    ensures
        r == match pair_at(xs@, if hash { "hash"@ } else { "object"@ }, token@, 0) {
            Some(e) => Some(e as usize),
            None => None::<usize>,
        },
{
    proof {
        reveal_strlit("hash");
        reveal_strlit("object");
    }
    let ghost tg: Seq<char> = if hash { "hash"@ } else { "object"@ };
    let mut i: usize = 0;
    while i < xs.len()
        invariant
            i <= xs@.len(),
            tg == if hash { "hash"@ } else { "object"@ },
            pair_at(xs@, tg, token@, 0) == pair_at(xs@, tg, token@, i as int),
        decreases xs@.len() - i,
    {
        proof {
            reveal_strlit("hash");
            reveal_strlit("object");
        }
        if let Json::Array(p) = &xs[i] {
            if p.len() == 2 {
                let name = key_text(&p[0], hash);
                assert("object"@ != "hash"@) by {
                    assert("object"@.len() != "hash"@.len());
                }
                assert(name@ == pair_name(tg, p@[0]));
                if text_equals_chars(name.as_str(), token) {
                    return Some(i);
                }
            }
        }
        i = i + 1;
    }
    None
}

/// The tagged tokens for the plain tokens from `d` on (see
/// `tagged_tokens`).
pub fn tagged_tokens_of(j: &Json, ts: &Vec<Vec<char>>, d: usize) -> (r: Option<Vec<Vec<char>>>)
    requires
        d <= ts@.len(),
    ensures
        match tagged_tokens(*j, chars_view(ts@).skip(d as int)) {
            Some(t) => r matches Some(v) && chars_view(v@) == t,
            None => r is None,
        },
    decreases ts@.len() - d,
{
    proof {
        reveal_strlit("array");
        reveal_strlit("hash");
        reveal_strlit("object");
        reveal_strlit("struct");
        reveal_strlit("__members");
        reveal_strlit("__value");
        reveal_strlit("1");
    }
    let ghost toks = chars_view(ts@).skip(d as int);
    if d == ts.len() {
        assert(toks.len() == 0);
        let mut out: Vec<Vec<char>> = Vec::new();
        if text_of_tagged(j).is_some() {
            out.push(chars_of("__value"));
            assert(chars_view(out@) =~= seq!["__value"@]);
        } else {
            assert(chars_view(out@) =~= Seq::<Seq<char>>::empty());
        }
        return Some(out);
    }
    assert(toks[0] == ts@[d as int]@);
    assert(toks.skip(1) =~= chars_view(ts@).skip(d + 1));
    let t = tag(j);
    let is_array = str_equal(t, "array");
    let is_hash = str_equal(t, "hash");
    let is_members = str_equal(t, "object") || str_equal(t, "struct");
    if !is_array && !is_hash && !is_members {
        return None;
    }
    let ghost g = tag_of(*j);
    let body = if is_members {
        "__members"
    } else {
        "__value"
    };
    assert(body@ == body_key(g));
    let xs = match j.get(body) {
        Some(Json::Array(xs)) => xs,
        _ => return None,
    };
    if is_array {
        let i = match index_token(&ts[d]) {
            Some(i) => i,
            None => return None,
        };
        if i >= xs.len() {
            return None;
        }
        let rest = match tagged_tokens_of(&xs[i], ts, d + 1) {
            Some(r) => r,
            None => return None,
        };
        let mut out: Vec<Vec<char>> = Vec::new();
        out.push(chars_of(body));
        out.push(ts[d].clone());
        let ghost head = chars_view(out@);
        assert(head =~= seq![body_key(g), toks[0]]);
        let mut rest_mut = rest;
        out.append(&mut rest_mut);
        assert(chars_view(out@) =~= head + chars_view(rest@));
        Some(out)
    } else {
        let ghost sel: Seq<char> = if is_hash { "hash"@ } else { "object"@ };
        assert forall|k: Json| pair_name(g, k) == pair_name(sel, k) by {
            if !is_hash {
                assert(g != "hash"@);
                assert("object"@ != "hash"@) by {
                    assert("object"@.len() != "hash"@.len());
                }
            }
        }
        proof {
            lemma_pair_at_same_names(xs@, g, sel, toks[0], 0);
            lemma_pair_at(xs@, g, toks[0], 0);
        }
        let n = xs.len();
        let found = find_pair(xs, is_hash, &ts[d]);
        assert(ts@[d as int]@ == toks[0]);
        assert(found == match pair_at(xs@, sel, toks[0], 0) {
            Some(e) => Some(e as usize),
            None => None::<usize>,
        });
        let e = match found {
            Some(e) => e,
            None => return None,
        };
        assert(pair_at(xs@, g, toks[0], 0) == Some(e as int));
        assert(xs@[e as int] is Array);
        let p = match &xs[e] {
            Json::Array(p) => p,
            _ => return None,
        };
        let rest = match tagged_tokens_of(&p[1], ts, d + 1) {
            Some(r) => r,
            None => return None,
        };
        let mut out: Vec<Vec<char>> = Vec::new();
        out.push(chars_of(body));
        let idx = crate::wolf::dat_parser::append_decimal(String::new(), e);
        out.push(chars_of(idx.as_str()));
        out.push(chars_of("1"));
        let ghost head = chars_view(out@);
        assert(head =~= seq![body_key(g), decimal(e as nat), "1"@]);
        let mut rest_mut = rest;
        out.append(&mut rest_mut);
        assert(chars_view(out@) =~= head + chars_view(rest@));
        Some(out)
    }
}

proof fn lemma_pair_at_same_names(xs: Seq<Json>, a: Seq<char>, b: Seq<char>, token: Seq<char>, i: int)
    requires
        forall|k: Json| pair_name(a, k) == pair_name(b, k),
    ensures
        pair_at(xs, a, token, i) == pair_at(xs, b, token, i),
    decreases xs.len() - i,
{
    if 0 <= i < xs.len() {
        lemma_pair_at_same_names(xs, a, b, token, i + 1);
    }
}

// ---------------------------------------------------------------------------
// marshal-rs
// ---------------------------------------------------------------------------

#[verifier::external_type_specification]
#[verifier::external_body]
pub struct ExSerdeValue(serde_json::Value);

/// The tagged tree of a Marshal stream: what `marshal_rs::load` reads,
/// turned by `serde_json::to_value` into marshal-rs's serde form; `None`
/// when either refuses.
pub uninterp spec fn marshal_tagged(bytes: Seq<u8>) -> Option<JsonTree>;

/// The Marshal stream that `marshal_rs::dump` writes for the arena that
/// `serde_json::from_value` reads from a tagged tree; `None` when the tree
/// is no arena.
pub uninterp spec fn marshal_dumped(t: JsonTree) -> Option<Seq<u8>>;

/// The library's JSON value for a `serde_json::Value`, one for one (the
/// members of an object in the order serde_json keeps them). Used by
/// `marshal_load_call` only.
#[verifier::external_body]
fn json_of_value(v: &serde_json::Value) -> Json {
    match v {
        serde_json::Value::Null => Json::Null,
        serde_json::Value::Bool(b) => Json::Bool(*b),
        serde_json::Value::Number(n) => Json::Number { value: n.as_i64(), text: n.to_string() },
        serde_json::Value::String(s) => Json::Str(s.clone()),
        serde_json::Value::Array(items) => Json::Array(items.iter().map(json_of_value).collect()),
        serde_json::Value::Object(map) => Json::Object(
            map.iter().map(|(k, x)| (k.clone(), json_of_value(x))).collect(),
        ),
    }
}

/// The `serde_json::Value` for the library's JSON value, one for one (a
/// number by its text). Used by `marshal_dump_call` only.
#[verifier::external_body]
fn value_of_json(j: &Json) -> serde_json::Value {
    match j {
        Json::Null => serde_json::Value::Null,
        Json::Bool(b) => serde_json::Value::Bool(*b),
        Json::Number { text, .. } => text.parse::<serde_json::Number>().map(serde_json::Value::Number).unwrap_or(
            serde_json::Value::Null,
        ),
        Json::Str(s) => serde_json::Value::String(s.clone()),
        Json::Array(items) => serde_json::Value::Array(items.iter().map(value_of_json).collect()),
        Json::Object(members) => serde_json::Value::Object(
            members.iter().map(|(k, x)| (k.clone(), value_of_json(x))).collect(),
        ),
    }
}

/// Reads a Marshal stream with `marshal_rs::load` and turns the arena into
/// its serde form with `serde_json::to_value`. The claim is that the tree
/// depends on the bytes alone, as named by `marshal_tagged`.
#[verifier::external_body]
pub(crate) fn marshal_load_call(bytes: &[u8]) -> (r: Option<Json>)
    ensures
        match marshal_tagged(bytes@) {
            Some(t) => r matches Some(j) && tree(j) == t,
            None => r is None,
        },
{
    match marshal_rs::load(bytes) {
        Ok(arena) => match serde_json::to_value(&arena) {
            Ok(v) => Some(json_of_value(&v)),
            Err(_) => None,
        },
        Err(_) => None,
    }
}

/// Reads an arena back from a tagged tree with `serde_json::from_value`
/// and writes it with `marshal_rs::dump`. The claim is that the bytes
/// depend on the tree alone, as named by `marshal_dumped`.
#[verifier::external_body]
fn marshal_dump_call(j: &Json) -> (r: Option<Vec<u8>>)
    ensures
        match marshal_dumped(tree(*j)) {
            Some(b) => r matches Some(v) && v@ == b,
            None => r is None,
        },
{
    match serde_json::from_value::<marshal_rs::Arena<'static>>(value_of_json(j)) {
        Ok(arena) => Some(marshal_rs::dump(&arena)),
        Err(_) => None,
    }
}

/// The `.rvdata2` bytes of a tagged tree (see `marshal_dumped`).
pub fn serialize(value: &Json) -> (r: Option<Vec<u8>>)
    ensures
        match marshal_dumped(tree(*value)) {
            Some(b) => r matches Some(v) && v@ == b,
            None => r is None,
        },
{
    marshal_dump_call(value)
}

} // verus!

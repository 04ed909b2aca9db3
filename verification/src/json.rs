//! JSON documents as the RPG Maker MV/MZ and VX Ace tools see them: a tree
//! of values, the lookups the extractors make, and the JSON Pointer
//! (RFC 6901) resolution the injectors write through. Reading and printing
//! JSON text, and loading Ruby Marshal data into this tree, is left to the
//! caller.
use vstd::prelude::*;

use crate::wolf::decryptor::str_equal;
use crate::wolf::dat_parser::{decimal, digit_char};
use crate::wolf::injector::{all_digits, chars_of, digits_value, is_digit, parse_usize, parsed_usize, unsigned_digits};

verus! {

/// A JSON value. A number keeps its text, and its value when it is an
/// integer that fits an `i64` (what `serde_json::Value::as_i64` gives).
/// An object keeps its members in the document's key order, each key once.
#[derive(Debug)]
pub enum Json {
    Null,
    Bool(bool),
    Number { value: Option<i64>, text: String },
    Str(String),
    Array(Vec<Json>),
    Object(Vec<(String, Json)>),
}

/// The value of the first member of `entries`, from `i` on, whose key is
/// `key`.
pub open spec fn member_from(entries: Seq<(String, Json)>, key: Seq<char>, i: int) -> Option<Json>
    decreases entries.len() - i,
{
    if i < 0 || i >= entries.len() {
        None
    } else if entries[i].0@ == key {
        Some(entries[i].1)
    } else {
        member_from(entries, key, i + 1)
    }
}

/// `Value::get` with a string key: the member of an object.
pub open spec fn json_get(j: Json, key: Seq<char>) -> Option<Json> {
    match j {
        Json::Object(entries) => member_from(entries@, key, 0),
        _ => None,
    }
}

pub open spec fn json_array(j: Json) -> Option<Seq<Json>> {
    match j {
        Json::Array(v) => Some(v@),
        _ => None,
    }
}

pub open spec fn json_object(j: Json) -> Option<Seq<(String, Json)>> {
    match j {
        Json::Object(v) => Some(v@),
        _ => None,
    }
}

pub open spec fn json_str(j: Json) -> Option<Seq<char>> {
    match j {
        Json::Str(s) => Some(s@),
        _ => None,
    }
}

pub open spec fn json_int(j: Json) -> Option<i64> {
    match j {
        Json::Number { value, text: _ } => value,
        _ => None,
    }
}

/// `json_get` followed by `json_array`.
pub open spec fn json_get_array(j: Json, key: Seq<char>) -> Option<Seq<Json>> {
    match json_get(j, key) {
        Some(v) => json_array(v),
        None => None,
    }
}

/// `json_get` followed by `json_str`.
pub open spec fn json_get_str(j: Json, key: Seq<char>) -> Option<Seq<char>> {
    match json_get(j, key) {
        Some(v) => json_str(v),
        None => None,
    }
}

/// Element `i` of an array, when there is one.
pub open spec fn seq_get(s: Seq<Json>, i: int) -> Option<Json> {
    if 0 <= i < s.len() {
        Some(s[i])
    } else {
        None
    }
}

impl Json {
    /// The member `key` of an object (`None` for any other value).
    pub fn get(&self, key: &str) -> (r: Option<&Json>)
        ensures
            match json_get(*self, key@) {
                Some(v) => r matches Some(x) && *x == v,
                None => r is None,
            },
    {
        match self {
            Json::Object(entries) => {
                let mut i: usize = 0;
                while i < entries.len()
                    invariant
                        i <= entries@.len(),
                        json_get(*self, key@) == member_from(entries@, key@, 0),
                        member_from(entries@, key@, 0) == member_from(entries@, key@, i as int),
                    decreases entries@.len() - i,
                {
                    if str_equal(entries[i].0.as_str(), key) {
                        return Some(&entries[i].1);
                    }
                    i = i + 1;
                }
                None
            },
            _ => None,
        }
    }

    pub fn as_array(&self) -> (r: Option<&Vec<Json>>)
        ensures
            match json_array(*self) {
                Some(v) => r matches Some(x) && x@ == v,
                None => r is None,
            },
    {
        match self {
            Json::Array(v) => Some(v),
            _ => None,
        }
    }

    pub fn as_object(&self) -> (r: Option<&Vec<(String, Json)>>)
        ensures
            match json_object(*self) {
                Some(v) => r matches Some(x) && x@ == v,
                None => r is None,
            },
    {
        match self {
            Json::Object(v) => Some(v),
            _ => None,
        }
    }

    pub fn as_str(&self) -> (r: Option<&str>)
        ensures
            match json_str(*self) {
                Some(s) => r matches Some(x) && x@ == s,
                None => r is None,
            },
    {
        match self {
            Json::Str(s) => Some(s.as_str()),
            _ => None,
        }
    }

    pub fn as_i64(&self) -> (r: Option<i64>)
        ensures
            r == json_int(*self),
    {
        match self {
            Json::Number { value, text: _ } => *value,
            _ => None,
        }
    }

    pub fn is_null(&self) -> (r: bool)
        ensures
            r == (*self is Null),
    {
        match self {
            Json::Null => true,
            _ => false,
        }
    }

    pub fn is_string(&self) -> (r: bool)
        ensures
            r == (*self is Str),
    {
        match self {
            Json::Str(_) => true,
            _ => false,
        }
    }
}

// ---------------------------------------------------------------------------
// The tree as a mathematical value
// ---------------------------------------------------------------------------

/// A JSON value as a mathematical tree.
pub enum JsonTree {
    Null,
    Bool(bool),
    Number(Option<i64>, Seq<char>),
    Str(Seq<char>),
    Array(Seq<JsonTree>),
    Object(Seq<(Seq<char>, JsonTree)>),
}

/// The tree of a JSON value.
pub open spec fn tree(j: Json) -> JsonTree
    decreases j,
{
    match j {
        Json::Null => JsonTree::Null,
        Json::Bool(b) => JsonTree::Bool(b),
        Json::Number { value, text } => JsonTree::Number(value, text@),
        Json::Str(s) => JsonTree::Str(s@),
        Json::Array(v) => JsonTree::Array(
            Seq::new(
                v@.len(),
                |i: int|
                    if 0 <= i < v@.len() {
                        tree(v@[i])
                    } else {
                        JsonTree::Null
                    },
            ),
        ),
        Json::Object(v) => JsonTree::Object(
            Seq::new(
                v@.len(),
                |i: int|
                    if 0 <= i < v@.len() {
                        (v@[i].0@, tree(v@[i].1))
                    } else {
                        (Seq::empty(), JsonTree::Null)
                    },
            ),
        ),
    }
}

// ---------------------------------------------------------------------------
// JSON Pointer (RFC 6901)
// ---------------------------------------------------------------------------

/// The pieces of `s` from `i` on, the current piece so far being `cur`:
/// `str::split('/')`, which gives one piece more than there are slashes.
pub open spec fn split_from(s: Seq<char>, i: int, cur: Seq<char>) -> Seq<Seq<char>>
    decreases s.len() - i,
{
    if i < 0 || i >= s.len() {
        seq![cur]
    } else if s[i] == '/' {
        seq![cur] + split_from(s, i + 1, Seq::empty())
    } else {
        split_from(s, i + 1, cur.push(s[i]))
    }
}

pub open spec fn split_slashes(s: Seq<char>) -> Seq<Seq<char>> {
    split_from(s, 0, Seq::empty())
}

/// `s` with every `~{c}`, left to right, replaced by `r` (`str::replace`
/// with a two-character pattern).
pub open spec fn replace_tilde(s: Seq<char>, c: char, r: char) -> Seq<char>
    decreases s.len(),
{
    if s.len() < 2 {
        s
    } else if s[0] == '~' && s[1] == c {
        seq![r] + replace_tilde(s.skip(2), c, r)
    } else {
        seq![s[0]] + replace_tilde(s.skip(1), c, r)
    }
}

/// A reference token with its escapes undone: `~1` to `/`, then `~0` to `~`.
pub open spec fn unescape_token(t: Seq<char>) -> Seq<char> {
    replace_tilde(replace_tilde(t, '1', '/'), '0', '~')
}

/// The reference tokens of a pointer: none for the empty pointer, `None`
/// for one that does not start with `/`.
pub open spec fn pointer_tokens(p: Seq<char>) -> Option<Seq<Seq<char>>> {
    if p.len() == 0 {
        Some(Seq::empty())
    } else if p[0] != '/' {
        None
    } else {
        Some(split_slashes(p.skip(1)).map_values(|t: Seq<char>| unescape_token(t)))
    }
}

/// An array index token: no `+`, no leading zero but for `0` itself, and a
/// `usize` value.
pub open spec fn array_index(t: Seq<char>) -> Option<usize> {
    if t.len() > 0 && (t[0] == '+' || (t[0] == '0' && t.len() != 1)) {
        None
    } else {
        parsed_usize(t)
    }
}

/// The index of the first member, from `i` on, whose key is `key`.
pub open spec fn member_index(entries: Seq<(Seq<char>, JsonTree)>, key: Seq<char>, i: int) -> Option<int>
    decreases entries.len() - i,
{
    if i < 0 || i >= entries.len() {
        None
    } else if entries[i].0 == key {
        Some(i)
    } else {
        member_index(entries, key, i + 1)
    }
}

/// Where a token leads from `t`: the index of an object's member or of an
/// array's element.
pub open spec fn step_index(t: JsonTree, token: Seq<char>) -> Option<int> {
    match t {
        JsonTree::Object(entries) => member_index(entries, token, 0),
        JsonTree::Array(v) => match array_index(token) {
            Some(i) => if i < v.len() {
                Some(i as int)
            } else {
                None
            },
            None => None,
        },
        _ => None,
    }
}

/// The child at a step index.
pub open spec fn child_at(t: JsonTree, k: int) -> JsonTree {
    match t {
        JsonTree::Object(entries) => entries[k].1,
        JsonTree::Array(v) => v[k],
        _ => t,
    }
}

/// `t` with its child at step index `k` replaced by `c`.
pub open spec fn with_child(t: JsonTree, k: int, c: JsonTree) -> JsonTree {
    match t {
        JsonTree::Object(entries) => JsonTree::Object(entries.update(k, (entries[k].0, c))),
        JsonTree::Array(v) => JsonTree::Array(v.update(k, c)),
        _ => t,
    }
}

/// The value that the tokens select (`Value::pointer`).
pub open spec fn resolve(t: JsonTree, ts: Seq<Seq<char>>) -> Option<JsonTree>
    decreases ts.len(),
{
    if ts.len() == 0 {
        Some(t)
    } else {
        match step_index(t, ts[0]) {
            Some(k) => resolve(child_at(t, k), ts.skip(1)),
            None => None,
        }
    }
}

/// `t` with the value that the tokens select replaced by `new` (unchanged
/// where they select nothing).
pub open spec fn replace_at(t: JsonTree, ts: Seq<Seq<char>>, new: JsonTree) -> JsonTree
    decreases ts.len(),
{
    if ts.len() == 0 {
        new
    } else {
        match step_index(t, ts[0]) {
            Some(k) => with_child(t, k, replace_at(child_at(t, k), ts.skip(1), new)),
            None => t,
        }
    }
}

pub open spec fn chars_view(v: Seq<Vec<char>>) -> Seq<Seq<char>> {
    v.map_values(|t: Vec<char>| t@)
}

/// `s` with every `~{c}` replaced by `r` (see `replace_tilde`).
fn replace_tilde_exec(s: &Vec<char>, c: char, r: char) -> (out: Vec<char>)
    ensures
        out@ == replace_tilde(s@, c, r),
{
    let mut out: Vec<char> = Vec::new();
    let mut i: usize = 0;
    assert(s@.skip(0) =~= s@);
    while i < s.len()
        invariant
            i <= s@.len(),
            replace_tilde(s@, c, r) == out@ + replace_tilde(s@.skip(i as int), c, r),
        decreases s@.len() - i,
    {
        let ghost rest = s@.skip(i as int);
        if i + 1 < s.len() && s[i] == '~' && s[i + 1] == c {
            assert(rest[0] == '~' && rest[1] == c);
            assert(rest.skip(2) =~= s@.skip(i + 2));
            out.push(r);
            assert(out@ + replace_tilde(s@.skip(i + 2), c, r) =~= out@.drop_last() + (seq![r] + replace_tilde(
                rest.skip(2),
                c,
                r,
            )));
            i = i + 2;
        } else {
            proof {
                if rest.len() >= 2 {
                    assert(rest.skip(1) =~= s@.skip(i + 1));
                    assert(out@.push(s[i as int]) + replace_tilde(s@.skip(i + 1), c, r) =~= out@ + (seq![rest[0]]
                        + replace_tilde(rest.skip(1), c, r)));
                } else {
                    assert(rest.len() == 1);
                    assert(s@.skip(i + 1).len() == 0);
                    assert(out@.push(s[i as int]) + replace_tilde(s@.skip(i + 1), c, r) =~= out@ + rest);
                }
            }
            out.push(s[i]);
            i = i + 1;
        }
    }
    assert(s@.skip(i as int).len() == 0);
    assert(out@ + replace_tilde(s@.skip(i as int), c, r) =~= out@);
    out
}

/// The reference tokens of a pointer (see `pointer_tokens`).
pub fn parse_pointer(p: &str) -> (r: Option<Vec<Vec<char>>>)
    ensures
        match pointer_tokens(p@) {
            Some(ts) => r matches Some(v) && chars_view(v@) == ts,
            None => r is None,
        },
{
    let cs = chars_of(p);
    if cs.len() == 0 {
        let v: Vec<Vec<char>> = Vec::new();
        assert(chars_view(v@) =~= Seq::<Seq<char>>::empty());
        return Some(v);
    }
    if cs[0] != '/' {
        return None;
    }
    let ghost body = p@.skip(1);
    let mut raw: Vec<Vec<char>> = Vec::new();
    let mut cur: Vec<char> = Vec::new();
    let mut i: usize = 1;
    while i < cs.len()
        invariant
            1 <= i <= cs@.len(),
            cs@ == p@,
            body == p@.skip(1),
            split_slashes(body) == chars_view(raw@) + split_from(body, i - 1, cur@),
        decreases cs@.len() - i,
    {
        let ghost before = chars_view(raw@);
        assert(body[i - 1] == cs@[i as int]);
        if cs[i] == '/' {
            let done = cur;
            cur = Vec::new();
            raw.push(done);
            assert(chars_view(raw@) =~= before.push(done@));
            assert(chars_view(raw@) + split_from(body, i as int, cur@) =~= before + (seq![done@] + split_from(
                body,
                i as int,
                Seq::empty(),
            )));
        } else {
            let ghost old_cur = cur@;
            cur.push(cs[i]);
            assert(cur@ == old_cur.push(body[i - 1]));
        }
        i = i + 1;
    }
    raw.push(cur);
    let ghost split = split_slashes(body);
    assert(split =~= chars_view(raw@));
    let mut out: Vec<Vec<char>> = Vec::new();
    let mut k: usize = 0;
    while k < raw.len()
        invariant
            k <= raw@.len(),
            split == chars_view(raw@),
            chars_view(out@) == split.take(k as int).map_values(|t: Seq<char>| unescape_token(t)),
        decreases raw@.len() - k,
    {
        let a = replace_tilde_exec(&raw[k], '1', '/');
        let b = replace_tilde_exec(&a, '0', '~');
        let ghost prev = chars_view(out@);
        out.push(b);
        assert(chars_view(out@) =~= prev.push(b@));
        assert(split.take(k + 1).map_values(|t: Seq<char>| unescape_token(t)) =~= split.take(k as int).map_values(
            |t: Seq<char>| unescape_token(t),
        ).push(unescape_token(split[k as int])));
        k = k + 1;
    }
    assert(split.take(k as int) =~= split);
    Some(out)
}

/// Why a pointer write failed.
#[derive(Debug, Clone, Copy, PartialEq, Eq, Structural)]
pub enum PointerFault {
    /// The pointer selects nothing.
    Missing,
    /// The pointer selects a value that is not a string.
    NotString,
}

/// The members of an object as a tree.
pub open spec fn members_tree(v: Seq<(String, Json)>) -> Seq<(Seq<char>, JsonTree)> {
    Seq::new(v.len(), |i: int| if 0 <= i < v.len() { (v[i].0@, tree(v[i].1)) } else { (Seq::empty(), JsonTree::Null) })
}

/// The elements of an array as trees.
pub open spec fn elements_tree(v: Seq<Json>) -> Seq<JsonTree> {
    Seq::new(v.len(), |i: int| if 0 <= i < v.len() { tree(v[i]) } else { JsonTree::Null })
}

pub proof fn lemma_tree_parts(j: Json)
    ensures
        j matches Json::Object(v) ==> tree(j) == JsonTree::Object(members_tree(v@)),
        j matches Json::Array(v) ==> tree(j) == JsonTree::Array(elements_tree(v@)),
{
    match j {
        Json::Object(v) => {
            assert(tree(j)->Object_0 =~= members_tree(v@));
        },
        Json::Array(v) => {
            assert(tree(j)->Array_0 =~= elements_tree(v@));
        },
        _ => {},
    }
}

proof fn lemma_member_index(entries: Seq<(Seq<char>, JsonTree)>, key: Seq<char>, i: int)
    requires
        0 <= i,
    ensures
        member_index(entries, key, i) matches Some(k) ==> i <= k < entries.len() && entries[k].0 == key,
    decreases entries.len() - i,
{
    if i < entries.len() && entries[i].0 != key {
        lemma_member_index(entries, key, i + 1);
    }
}

pub(crate) fn text_equals_chars(a: &str, b: &Vec<char>) -> (r: bool)
    ensures
        r == (a@ == b@),
{
    let n = a.unicode_len();
    if n != b.len() {
        return false;
    }
    let mut i: usize = 0;
    while i < n
        invariant
            n == a@.len(),
            n == b@.len(),
            i <= n,
            forall|k: int| 0 <= k < i ==> a@[k] == b@[k],
        decreases n - i,
    {
        if a.get_char(i) != b[i] {
            return false;
        }
        i = i + 1;
    }
    assert(a@ =~= b@);
    true
}

fn find_member(entries: &Vec<(String, Json)>, key: &Vec<char>) -> (r: Option<usize>)
    ensures
        match member_index(members_tree(entries@), key@, 0) {
            Some(k) => r == Some(k as usize),
            None => r is None,
        },
{
    let ghost m = members_tree(entries@);
    let mut i: usize = 0;
    while i < entries.len()
        invariant
            i <= entries@.len(),
            m == members_tree(entries@),
            member_index(m, key@, 0) == member_index(m, key@, i as int),
        decreases entries@.len() - i,
    {
        assert(m[i as int].0 == entries@[i as int].0@);
        if text_equals_chars(entries[i].0.as_str(), key) {
            return Some(i);
        }
        i = i + 1;
    }
    None
}

/// Parses an array index token (see `array_index`).
pub(crate) fn index_token(t: &Vec<char>) -> (r: Option<usize>)
    ensures
        r == array_index(t@),
{
    if t.len() > 0 && (t[0] == '+' || (t[0] == '0' && t.len() != 1)) {
        None
    } else {
        parse_usize(t)
    }
}

/// Writes `text` where the tokens from `d` on lead, when they lead to a
/// string.
pub(crate) fn write_at(j: &mut Json, ts: &Vec<Vec<char>>, d: usize, text: &str) -> (r: Result<(), PointerFault>)
    requires
        d <= ts@.len(),
    ensures
        match resolve(tree(*old(j)), chars_view(ts@).skip(d as int)) {
            None => r == Err::<(), PointerFault>(PointerFault::Missing) && tree(*final(j)) == tree(*old(j)),
            Some(JsonTree::Str(_)) => r is Ok && tree(*final(j)) == replace_at(
                tree(*old(j)),
                chars_view(ts@).skip(d as int),
                JsonTree::Str(text@),
            ),
            Some(_) => r == Err::<(), PointerFault>(PointerFault::NotString) && tree(*final(j)) == tree(*old(j)),
        },
    decreases ts@.len() - d,
{
    let ghost toks = chars_view(ts@).skip(d as int);
    let ghost t0 = tree(*j);
    proof {
        lemma_tree_parts(*j);
    }
    if d == ts.len() {
        assert(toks.len() == 0);
        if j.is_string() {
            *j = Json::Str(String::from_str(text));
            return Ok(());
        } else {
            return Err(PointerFault::NotString);
        }
    }
    assert(toks[0] == ts@[d as int]@);
    assert(toks.skip(1) =~= chars_view(ts@).skip(d + 1));
    let r = match j {
        Json::Object(entries) => {
            let ghost es = entries@;
            assert(entries.len() == es.len());
            assert(t0 == JsonTree::Object(members_tree(es)));
            match find_member(entries, &ts[d]) {
                None => {
                    assert(step_index(t0, toks[0]) is None);
                    assert(resolve(t0, toks) is None);
                    Err(PointerFault::Missing)
                },
                Some(k) => {
                    proof {
                        lemma_member_index(members_tree(es), ts@[d as int]@, 0);
                    }
                    let ghost old_child = entries@[k as int].1;
                    assert(member_index(members_tree(es), toks[0], 0) == Some(k as int));
                    assert(step_index(t0, toks[0]) == Some(k as int));
                    assert(members_tree(es)[k as int].1 == tree(old_child));
                    let r = write_at(&mut entries[k].1, ts, d + 1, text);
                    proof {
                        let m0 = members_tree(es);
                        assert(child_at(t0, k as int) == tree(old_child));
                        assert(resolve(t0, toks) == resolve(tree(old_child), toks.skip(1)));
                        assert(entries@ =~= es.update(k as int, (es[k as int].0, entries@[k as int].1)));
                        assert(members_tree(entries@) =~= m0.update(k as int, (m0[k as int].0, tree(entries@[k as int].1))));
                        if tree(entries@[k as int].1) == tree(old_child) {
                            assert(members_tree(entries@) =~= m0);
                        } else {
                            assert(replace_at(t0, toks, JsonTree::Str(text@)) == with_child(t0, k as int, replace_at(tree(old_child), toks.skip(1), JsonTree::Str(text@))));
                        }
                    }
                    r
                },
            }
        },
        Json::Array(v) => {
            let ghost es = v@;
            match index_token(&ts[d]) {
                Some(i) => {
                    if i < v.len() {
                        assert(elements_tree(es)[i as int] == tree(es[i as int]));
                        let r = write_at(&mut v[i], ts, d + 1, text);
                        proof {
                            let m0 = elements_tree(es);
                            assert(step_index(t0, toks[0]) == Some(i as int));
                            assert(child_at(t0, i as int) == tree(es[i as int]));
                            assert(resolve(t0, toks) == resolve(tree(es[i as int]), toks.skip(1)));
                            assert(elements_tree(v@) =~= m0.update(i as int, tree(v@[i as int])));
                            if tree(v@[i as int]) == tree(es[i as int]) {
                                assert(elements_tree(v@) =~= m0);
                            }
                        }
                        r
                    } else {
                        Err(PointerFault::Missing)
                    }
                },
                None => Err(PointerFault::Missing),
            }
        },
        _ => Err(PointerFault::Missing),
    };
    proof {
        lemma_tree_parts(*j);
    }
    r
}

/// Writes `text` at the string that the JSON Pointer `pointer` selects
/// (`Value::pointer_mut` followed by an assignment); the document stays as
/// it was when the pointer selects nothing or something else than a string.
pub fn write_string_at(j: &mut Json, pointer: &str, text: &str) -> (r: Result<(), PointerFault>)
    ensures
        match pointer_tokens(pointer@) {
            None => r == Err::<(), PointerFault>(PointerFault::Missing) && tree(*final(j)) == tree(*old(j)),
            Some(ts) => match resolve(tree(*old(j)), ts) {
                None => r == Err::<(), PointerFault>(PointerFault::Missing) && tree(*final(j)) == tree(*old(j)),
                Some(JsonTree::Str(_)) => r is Ok && tree(*final(j)) == replace_at(tree(*old(j)), ts, JsonTree::Str(text@)),
                Some(_) => r == Err::<(), PointerFault>(PointerFault::NotString) && tree(*final(j)) == tree(*old(j)),
            },
        },
{
    match parse_pointer(pointer) {
        None => Err(PointerFault::Missing),
        Some(ts) => {
            assert(chars_view(ts@).skip(0) =~= chars_view(ts@));
            write_at(j, &ts, 0, text)
        },
    }
}

pub open spec fn pairs_view(ps: Seq<(&str, &str)>) -> Seq<(Seq<char>, Seq<char>)> {
    ps.map_values(|p: (&str, &str)| (p.0@, p.1@))
}

/// Writing each (pointer, text) pair in turn, stopping at the first pointer
/// that selects nothing or no string: the tree reached, and the fault with
/// the index of the pair that failed.
pub open spec fn write_all(t: JsonTree, ps: Seq<(Seq<char>, Seq<char>)>) -> (JsonTree, Option<(PointerFault, int)>)
    decreases ps.len(),
{
    if ps.len() == 0 {
        (t, None)
    } else {
        let (t1, e) = write_all(t, ps.drop_last());
        if e is Some {
            (t1, e)
        } else {
            let i = ps.len() - 1;
            let (key, text) = ps.last();
            match pointer_tokens(key) {
                None => (t1, Some((PointerFault::Missing, i))),
                Some(ts) => match resolve(t1, ts) {
                    None => (t1, Some((PointerFault::Missing, i))),
                    Some(JsonTree::Str(_)) => (replace_at(t1, ts, JsonTree::Str(text)), None),
                    Some(_) => (t1, Some((PointerFault::NotString, i))),
                },
            }
        }
    }
}

/// Writes each (pointer, text) pair in turn (see `write_all`); on a fault,
/// the pairs before it stay written.
pub fn write_strings(j: &mut Json, pairs: &[(&str, &str)]) -> (r: Result<(), (PointerFault, usize)>)
    ensures
        tree(*final(j)) == write_all(tree(*old(j)), pairs_view(pairs@)).0,
        match write_all(tree(*old(j)), pairs_view(pairs@)).1 {
            None => r is Ok,
            Some((f, i)) => r == Err::<(), (PointerFault, usize)>((f, i as usize)) && 0 <= i < pairs@.len(),
        },
{
    let ghost t0 = tree(*j);
    let ghost pv = pairs_view(pairs@);
    let mut i: usize = 0;
    assert(pv.take(0) =~= Seq::<(Seq<char>, Seq<char>)>::empty());
    while i < pairs.len()
        invariant
            i <= pairs@.len(),
            t0 == tree(*old(j)),
            pv == pairs_view(pairs@),
            write_all(t0, pv.take(i as int)) == (tree(*j), None::<(PointerFault, int)>),
        decreases pairs@.len() - i,
    {
        let (key, text) = pairs[i];
        assert(pv.take(i + 1).drop_last() =~= pv.take(i as int));
        assert(pv.take(i + 1).last() == (key@, text@));
        match write_string_at(j, key, text) {
            Ok(()) => {},
            Err(f) => {
                proof {
                    lemma_write_all_stops(t0, pv, i as int + 1);
                }
                return Err((f, i));
            },
        }
        i = i + 1;
    }
    assert(pv.take(i as int) =~= pv);
    Ok(())
}

/// Once a pair has failed, the pairs after it change nothing.
proof fn lemma_write_all_stops(t: JsonTree, ps: Seq<(Seq<char>, Seq<char>)>, n: int)
    requires
        0 <= n <= ps.len(),
        write_all(t, ps.take(n)).1 is Some,
    ensures
        write_all(t, ps) == write_all(t, ps.take(n)),
    decreases ps.len() - n,
{
    if n < ps.len() {
        assert(ps.take(n + 1).drop_last() =~= ps.take(n));
        lemma_write_all_stops(t, ps, n + 1);
    } else {
        assert(ps.take(n) =~= ps);
    }
}

// ---------------------------------------------------------------------------
// Members in key order
// ---------------------------------------------------------------------------

/// `a` comes before `b` in the order of `String`: lexicographic by code
/// point (the byte order of their UTF-8).
pub open spec fn chars_lt(a: Seq<char>, b: Seq<char>) -> bool
    decreases a.len(),
{
    if a.len() == 0 {
        b.len() > 0
    } else if b.len() == 0 {
        false
    } else if a[0] != b[0] {
        a[0] < b[0]
    } else {
        chars_lt(a.skip(1), b.skip(1))
    }
}

/// Member `i` sorts before member `j`: by key, then by position (a stable
/// sort).
pub open spec fn member_before(keys: Seq<Seq<char>>, i: int, j: int) -> bool {
    chars_lt(keys[i], keys[j]) || (keys[i] == keys[j] && i < j)
}

/// `order` lists every index of `keys` once, sorted by key and then by
/// index.
pub open spec fn sorted_order(keys: Seq<Seq<char>>, order: Seq<int>) -> bool {
    &&& order.len() == keys.len()
    &&& forall|p: int| 0 <= p < order.len() ==> 0 <= #[trigger] order[p] < keys.len()
    &&& forall|p: int, q: int| 0 <= p < q < order.len() ==> #[trigger] order[p] != #[trigger] order[q]
    &&& forall|p: int| 0 <= p < order.len() - 1 ==> member_before(keys, #[trigger] order[p], order[p + 1])
}

pub open spec fn member_keys(entries: Seq<(String, Json)>) -> Seq<Seq<char>> {
    entries.map_values(|e: (String, Json)| e.0@)
}

pub open spec fn indices_view(v: Seq<usize>) -> Seq<int> {
    v.map_values(|x: usize| x as int)
}

/// Either of two different texts comes first.
pub proof fn lemma_chars_lt_total(a: Seq<char>, b: Seq<char>)
    ensures
        chars_lt(a, b) || chars_lt(b, a) || a == b,
    decreases a.len(),
{
    if a.len() > 0 && b.len() > 0 && a[0] == b[0] {
        lemma_chars_lt_total(a.skip(1), b.skip(1));
        if a.skip(1) == b.skip(1) {
            assert(a =~= seq![a[0]] + a.skip(1));
            assert(b =~= seq![b[0]] + b.skip(1));
        }
    } else if a.len() == 0 && b.len() == 0 {
        assert(a =~= b);
    }
}

/// Whether `a` sorts before `b` (see `chars_lt`).
pub fn text_lt(a: &str, b: &str) -> (r: bool)
    ensures
        r == chars_lt(a@, b@),
{
    let n = a.unicode_len();
    let m = b.unicode_len();
    let mut i: usize = 0;
    assert(a@.skip(0) =~= a@);
    assert(b@.skip(0) =~= b@);
    while i < n && i < m
        invariant
            n == a@.len(),
            m == b@.len(),
            i <= n,
            i <= m,
            chars_lt(a@, b@) == chars_lt(a@.skip(i as int), b@.skip(i as int)),
        decreases n - i,
    {
        let x = a.get_char(i);
        let y = b.get_char(i);
        assert(a@.skip(i as int)[0] == x && b@.skip(i as int)[0] == y);
        if x != y {
            return x < y;
        }
        assert(a@.skip(i as int).skip(1) =~= a@.skip(i + 1));
        assert(b@.skip(i as int).skip(1) =~= b@.skip(i + 1));
        i = i + 1;
    }
    i == n && i < m
}

/// The positions of an object's members sorted by key, ties kept in
/// document order (see `sorted_order`).
#[verifier::spinoff_prover]
#[verifier::rlimit(30)]
pub fn member_order(entries: &Vec<(String, Json)>) -> (order: Vec<usize>)
    ensures
        sorted_order(member_keys(entries@), indices_view(order@)),
{
    let ghost keys = member_keys(entries@);
    let mut order: Vec<usize> = Vec::new();
    let mut i: usize = 0;
    assert(indices_view(order@) =~= Seq::<int>::empty());
    while i < entries.len()
        invariant
            i <= entries@.len(),
            keys == member_keys(entries@),
            order@.len() == i,
            forall|p: int| 0 <= p < i ==> 0 <= #[trigger] indices_view(order@)[p] < i,
            forall|p: int, q: int| 0 <= p < q < i ==> #[trigger] indices_view(order@)[p] != #[trigger] indices_view(order@)[q],
            forall|p: int| 0 <= p < i - 1 ==> member_before(keys, #[trigger] indices_view(order@)[p], indices_view(order@)[p + 1]),
        decreases entries@.len() - i,
    {
        let ghost ov = indices_view(order@);
        let mut p: usize = 0;
        while p < order.len()
            invariant
                p <= order@.len(),
                order@.len() == i,
                i < entries@.len(),
                ov == indices_view(order@),
                keys == member_keys(entries@),
                forall|q: int| 0 <= q < i ==> 0 <= #[trigger] ov[q] < i,
                forall|q: int| 0 <= q < p ==> !chars_lt(keys[i as int], keys[#[trigger] ov[q]]),
            ensures
                p <= order@.len(),
                forall|q: int| 0 <= q < p ==> !chars_lt(keys[i as int], keys[#[trigger] ov[q]]),
                p < order@.len() ==> chars_lt(keys[i as int], keys[ov[p as int]]),
            decreases order@.len() - p,
        {
            assert(ov[p as int] == order@[p as int] as int);
            assert(keys[ov[p as int]] == entries@[order@[p as int] as int].0@);
            assert(keys[i as int] == entries@[i as int].0@);
            if text_lt(entries[i].0.as_str(), entries[order[p]].0.as_str()) {
                break;
            }
            p = p + 1;
        }
        order.insert(p, i);
        proof {
            let nv = indices_view(order@);
            assert(nv =~= ov.insert(p as int, i as int));
            assert forall|a: int| 0 <= a < i + 1 - 1 implies member_before(keys, #[trigger] nv[a], nv[a + 1]) by {
                if a + 1 < p {
                    assert(nv[a] == ov[a] && nv[a + 1] == ov[a + 1]);
                } else if a + 1 == p {
                    assert(nv[a] == ov[a] && nv[a + 1] == i);
                    assert(!chars_lt(keys[i as int], keys[ov[a]]));
                    lemma_chars_lt_total(keys[i as int], keys[ov[a]]);
                } else if a == p {
                    assert(nv[a] == i && nv[a + 1] == ov[a]);
                    assert(chars_lt(keys[i as int], keys[ov[p as int]]));
                } else {
                    assert(nv[a] == ov[a - 1] && nv[a + 1] == ov[a]);
                }
            }
            assert forall|a: int, b: int| 0 <= a < b < i + 1 implies #[trigger] nv[a] != #[trigger] nv[b] by {
                if a < p && b < p {
                    assert(nv[a] == ov[a] && nv[b] == ov[b]);
                } else if a < p && b == p {
                    assert(nv[a] == ov[a]);
                } else if a < p {
                    assert(nv[a] == ov[a] && nv[b] == ov[b - 1]);
                } else if a == p {
                    assert(nv[b] == ov[b - 1]);
                } else {
                    assert(nv[a] == ov[a - 1] && nv[b] == ov[b - 1]);
                }
            }
            assert forall|a: int| 0 <= a < i + 1 implies 0 <= #[trigger] nv[a] < i + 1 by {
                if a < p {
                    assert(nv[a] == ov[a]);
                } else if a > p {
                    assert(nv[a] == ov[a - 1]);
                }
            }
        }
        i = i + 1;
    }
    order
}

/// The number a key stands for as `str::parse::<u32>` reads it, and
/// `u32::MAX` when it does not parse.
pub open spec fn numeric_key(k: Seq<char>) -> int {
    match parsed_usize(k) {
        Some(v) => if v <= 0xFFFF_FFFFusize {
            v as int
        } else {
            0xFFFF_FFFF
        },
        None => 0xFFFF_FFFF,
    }
}

/// `order` lists every index of `keys` once, sorted by number and then by
/// index (a stable sort by `numeric_key`).
pub open spec fn numeric_order(keys: Seq<Seq<char>>, order: Seq<int>) -> bool {
    &&& order.len() == keys.len()
    &&& forall|p: int| 0 <= p < order.len() ==> 0 <= #[trigger] order[p] < keys.len()
    &&& forall|p: int, q: int| 0 <= p < q < order.len() ==> #[trigger] order[p] != #[trigger] order[q]
    &&& forall|p: int|
        0 <= p < order.len() - 1 ==> {
            let a = #[trigger] order[p];
            let b = order[p + 1];
            numeric_key(keys[a]) < numeric_key(keys[b]) || (numeric_key(keys[a]) == numeric_key(keys[b]) && a < b)
        }
}

fn numeric_key_of(k: &str) -> (r: u32)
    ensures
        r as int == numeric_key(k@),
{
    match parse_usize(&chars_of(k)) {
        Some(v) => if v <= 0xFFFF_FFFFusize {
            v as u32
        } else {
            0xFFFF_FFFFu32
        },
        None => 0xFFFF_FFFFu32,
    }
}

/// The positions of an object's members sorted by the number their key
/// stands for, ties kept in document order (see `numeric_order`).
#[verifier::spinoff_prover]
#[verifier::rlimit(30)]
pub fn numeric_member_order(entries: &Vec<(String, Json)>) -> (order: Vec<usize>)
    ensures
        numeric_order(member_keys(entries@), indices_view(order@)),
{
    let ghost keys = member_keys(entries@);
    let mut nums: Vec<u32> = Vec::new();
    let mut k: usize = 0;
    while k < entries.len()
        invariant
            k <= entries@.len(),
            keys == member_keys(entries@),
            nums@.len() == k,
            forall|q: int| 0 <= q < k ==> #[trigger] nums@[q] as int == numeric_key(keys[q]),
        decreases entries@.len() - k,
    {
        nums.push(numeric_key_of(entries[k].0.as_str()));
        k = k + 1;
    }
    let mut order: Vec<usize> = Vec::new();
    let mut i: usize = 0;
    assert(indices_view(order@) =~= Seq::<int>::empty());
    while i < entries.len()
        invariant
            i <= entries@.len(),
            keys == member_keys(entries@),
            nums@.len() == entries@.len(),
            forall|q: int| 0 <= q < entries@.len() ==> #[trigger] nums@[q] as int == numeric_key(keys[q]),
            order@.len() == i,
            forall|p: int| 0 <= p < i ==> 0 <= #[trigger] indices_view(order@)[p] < i,
            forall|p: int, q: int| 0 <= p < q < i ==> #[trigger] indices_view(order@)[p] != #[trigger] indices_view(order@)[q],
            forall|p: int|
                0 <= p < i - 1 ==> {
                    let a = #[trigger] indices_view(order@)[p];
                    let b = indices_view(order@)[p + 1];
                    numeric_key(keys[a]) < numeric_key(keys[b]) || (numeric_key(keys[a]) == numeric_key(keys[b]) && a < b)
                },
        decreases entries@.len() - i,
    {
        let ghost ov = indices_view(order@);
        let mut p: usize = 0;
        while p < order.len()
            invariant
                p <= order@.len(),
                order@.len() == i,
                i < entries@.len(),
                nums@.len() == entries@.len(),
                ov == indices_view(order@),
                forall|q: int| 0 <= q < i ==> 0 <= #[trigger] ov[q] < i,
                forall|q: int| 0 <= q < p ==> nums@[#[trigger] ov[q]] <= nums@[i as int],
            ensures
                p <= order@.len(),
                forall|q: int| 0 <= q < p ==> nums@[#[trigger] ov[q]] <= nums@[i as int],
                p < order@.len() ==> nums@[i as int] < nums@[ov[p as int]],
            decreases order@.len() - p,
        {
            assert(ov[p as int] == order@[p as int] as int);
            if nums[i] < nums[order[p]] {
                break;
            }
            p = p + 1;
        }
        order.insert(p, i);
        proof {
            let nv = indices_view(order@);
            assert(nv =~= ov.insert(p as int, i as int));
            assert forall|a: int|
                0 <= a < i + 1 - 1 implies {
                    let x = #[trigger] nv[a];
                    let y = nv[a + 1];
                    numeric_key(keys[x]) < numeric_key(keys[y]) || (numeric_key(keys[x]) == numeric_key(keys[y]) && x < y)
                } by {
                if a + 1 < p {
                    assert(nv[a] == ov[a] && nv[a + 1] == ov[a + 1]);
                } else if a + 1 == p {
                    assert(nv[a] == ov[a] && nv[a + 1] == i);
                    assert(nums@[ov[a]] as int == numeric_key(keys[ov[a]]));
                } else if a == p {
                    assert(nv[a] == i && nv[a + 1] == ov[a]);
                    assert(nums@[ov[a]] as int == numeric_key(keys[ov[a]]));
                } else {
                    assert(nv[a] == ov[a - 1] && nv[a + 1] == ov[a]);
                }
            }
            assert forall|a: int, b: int| 0 <= a < b < i + 1 implies #[trigger] nv[a] != #[trigger] nv[b] by {
                if a < p && b < p {
                    assert(nv[a] == ov[a] && nv[b] == ov[b]);
                } else if a < p && b == p {
                    assert(nv[a] == ov[a]);
                } else if a < p {
                    assert(nv[a] == ov[a] && nv[b] == ov[b - 1]);
                } else if a == p {
                    assert(nv[b] == ov[b - 1]);
                } else {
                    assert(nv[a] == ov[a - 1] && nv[b] == ov[b - 1]);
                }
            }
            assert forall|a: int| 0 <= a < i + 1 implies 0 <= #[trigger] nv[a] < i + 1 by {
                if a < p {
                    assert(nv[a] == ov[a]);
                } else if a > p {
                    assert(nv[a] == ov[a - 1]);
                }
            }
        }
        i = i + 1;
    }
    order
}

// ---------------------------------------------------------------------------
// Pointers made of plain tokens
// ---------------------------------------------------------------------------

/// A token with neither `/` nor `~`: a pointer carries it as it is.
pub open spec fn plain_token(t: Seq<char>) -> bool {
    forall|i: int| 0 <= i < t.len() ==> #[trigger] t[i] != '/' && t[i] != '~'
}

pub open spec fn plain_tokens(ts: Seq<Seq<char>>) -> bool {
    forall|i: int| 0 <= i < ts.len() ==> plain_token(#[trigger] ts[i])
}

/// The pointer made of the tokens, each after a `/`.
pub open spec fn join_pointer(ts: Seq<Seq<char>>) -> Seq<char>
    decreases ts.len(),
{
    if ts.len() == 0 {
        Seq::empty()
    } else {
        join_pointer(ts.drop_last()) + seq!['/'] + ts.last()
    }
}

/// The same pointer, built from the front.
pub open spec fn join_front(ts: Seq<Seq<char>>) -> Seq<char>
    decreases ts.len(),
{
    if ts.len() == 0 {
        Seq::empty()
    } else {
        seq!['/'] + ts[0] + join_front(ts.skip(1))
    }
}

proof fn lemma_split_shift(s: Seq<char>, i: int, cur: Seq<char>)
    requires
        0 <= i <= s.len(),
    ensures
        split_from(s, i, cur) == split_from(s.skip(i), 0, cur),
    decreases s.len() - i,
{
    let r = s.skip(i);
    if i < s.len() {
        assert(r[0] == s[i]);
        lemma_split_shift(s, i + 1, if s[i] == '/' { Seq::empty() } else { cur.push(s[i]) });
        lemma_split_shift(r, 1, if s[i] == '/' { Seq::empty() } else { cur.push(s[i]) });
        assert(r.skip(1) =~= s.skip(i + 1));
    }
}

proof fn lemma_split_plain(a: Seq<char>, rest: Seq<char>, cur: Seq<char>)
    requires
        forall|i: int| 0 <= i < a.len() ==> #[trigger] a[i] != '/',
    ensures
        split_from(a + rest, 0, cur) == split_from(rest, 0, cur + a),
    decreases a.len(),
{
    if a.len() == 0 {
        assert(a + rest =~= rest);
        assert(cur + a =~= cur);
    } else {
        let s = a + rest;
        assert(s[0] == a[0]);
        lemma_split_shift(s, 1, cur.push(a[0]));
        assert(s.skip(1) =~= a.skip(1) + rest);
        lemma_split_plain(a.skip(1), rest, cur.push(a[0]));
        assert(cur.push(a[0]) + a.skip(1) =~= cur + a);
    }
}

proof fn lemma_split_join(ts: Seq<Seq<char>>)
    requires
        ts.len() > 0,
        plain_tokens(ts),
    ensures
        split_slashes(join_front(ts).skip(1)) == ts,
    decreases ts.len(),
{
    let t0 = ts[0];
    assert(plain_token(t0));
    let rest = join_front(ts.skip(1));
    assert(join_front(ts).skip(1) =~= t0 + rest);
    lemma_split_plain(t0, rest, Seq::empty());
    assert(Seq::<char>::empty() + t0 =~= t0);
    if ts.len() == 1 {
        assert(rest =~= Seq::<char>::empty());
        assert(split_from(rest, 0, t0) == seq![t0]);
        assert(ts =~= seq![t0]);
    } else {
        let tail = ts.skip(1);
        assert forall|i: int| 0 <= i < tail.len() implies plain_token(#[trigger] tail[i]) by {
            assert(tail[i] == ts[i + 1]);
        }
        lemma_split_join(tail);
        assert(rest[0] == '/');
        lemma_split_shift(rest, 1, Seq::empty());
        assert(rest.skip(1) == join_front(tail).skip(1));
        assert(split_from(rest, 0, t0) == seq![t0] + split_from(rest, 1, Seq::empty()));
        assert(ts =~= seq![t0] + tail);
    }
}

proof fn lemma_replace_tilde_plain(t: Seq<char>, c: char, r: char)
    requires
        forall|i: int| 0 <= i < t.len() ==> #[trigger] t[i] != '~',
    ensures
        replace_tilde(t, c, r) == t,
    decreases t.len(),
{
    if t.len() >= 2 {
        assert(t[0] != '~');
        lemma_replace_tilde_plain(t.skip(1), c, r);
        assert(t =~= seq![t[0]] + t.skip(1));
    }
}

proof fn lemma_join_front_push(ts: Seq<Seq<char>>, t: Seq<char>)
    ensures
        join_front(ts.push(t)) == join_front(ts) + seq!['/'] + t,
    decreases ts.len(),
{
    if ts.len() == 0 {
        assert(ts.push(t)[0] == t);
        assert(ts.push(t).skip(1) =~= Seq::<Seq<char>>::empty());
        assert(join_front(ts.push(t).skip(1)) == Seq::<char>::empty());
        assert(join_front(ts.push(t)) =~= seq!['/'] + t);
    } else {
        assert(ts.push(t).skip(1) =~= ts.skip(1).push(t));
        lemma_join_front_push(ts.skip(1), t);
        assert(join_front(ts.push(t)) =~= join_front(ts) + seq!['/'] + t);
    }
}

proof fn lemma_join_back_front(ts: Seq<Seq<char>>)
    ensures
        join_pointer(ts) == join_front(ts),
    decreases ts.len(),
{
    if ts.len() > 0 {
        lemma_join_back_front(ts.drop_last());
        lemma_join_front_push(ts.drop_last(), ts.last());
        assert(ts.drop_last().push(ts.last()) =~= ts);
    }
}

/// A pointer of plain tokens reads back as those tokens.
pub proof fn lemma_pointer_of_join(ts: Seq<Seq<char>>)
    requires
        plain_tokens(ts),
    ensures
        pointer_tokens(join_pointer(ts)) == Some(ts),
{
    lemma_join_back_front(ts);
    if ts.len() > 0 {
        lemma_split_join(ts);
        let p = join_front(ts);
        assert(p[0] == '/');
        let split = split_slashes(p.skip(1));
        assert forall|i: int| 0 <= i < ts.len() implies unescape_token(#[trigger] ts[i]) == ts[i] by {
            assert(plain_token(ts[i]));
            lemma_replace_tilde_plain(ts[i], '1', '/');
            lemma_replace_tilde_plain(ts[i], '0', '~');
        }
        assert(split.map_values(|t: Seq<char>| unescape_token(t)) =~= ts);
    } else {
        assert(join_front(ts) =~= Seq::<char>::empty());
    }
}

// ---------------------------------------------------------------------------
// Where the tokens of a pointer lead
// ---------------------------------------------------------------------------

proof fn lemma_digit_char(d: int)
    requires
        0 <= d < 10,
    ensures
        is_digit(digit_char(d)),
        digit_char(d) as int - '0' as int == d,
        d != 0 ==> digit_char(d) != '0',
{
}

/// The decimal digits of `n`: digits only, no leading zero, worth `n`.
pub proof fn lemma_decimal(n: nat)
    ensures
        decimal(n).len() >= 1,
        all_digits(decimal(n)),
        digits_value(decimal(n)) == n,
        n >= 10 ==> decimal(n)[0] != '0',
    decreases n,
{
    if n < 10 {
        lemma_digit_char(n as int);
        let d = decimal(n);
        assert(d =~= seq![digit_char(n as int)]);
        assert(d.drop_last() =~= Seq::<char>::empty());
        assert(d.last() == digit_char(n as int));
        assert(digits_value(d.drop_last()) == 0);
        assert(digits_value(d) == digits_value(d.drop_last()) * 10 + (d.last() as int - '0' as int));
    } else {
        lemma_decimal(n / 10);
        lemma_digit_char((n % 10) as int);
        let d = decimal(n);
        assert(d.drop_last() =~= decimal(n / 10));
        assert(d.last() == digit_char((n % 10) as int));
        assert(n == (n / 10) * 10 + n % 10) by (nonlinear_arith);
        assert(digits_value(d.drop_last()) == n / 10);
        assert(d.last() as int - '0' as int == n % 10);
        assert(digits_value(d) == digits_value(d.drop_last()) * 10 + (d.last() as int - '0' as int));
        assert(d[0] == decimal(n / 10)[0]);
        if n / 10 < 10 {
            lemma_digit_char((n / 10) as int);
        }
        assert forall|i: int| 0 <= i < d.len() implies is_digit(#[trigger] d[i]) by {
            if i < d.len() - 1 {
                assert(d[i] == decimal(n / 10)[i]);
            }
        }
    }
}

/// An array index written in decimal reads back as that index.
pub proof fn lemma_decimal_index(n: nat)
    requires
        n <= usize::MAX,
    ensures
        array_index(decimal(n)) == Some(n as usize),
        plain_token(decimal(n)),
{
    lemma_decimal(n);
    let d = decimal(n);
    assert(is_digit(d[0]));
    assert(unsigned_digits(d) == d);
    assert forall|i: int| 0 <= i < d.len() implies #[trigger] d[i] != '/' && d[i] != '~' by {
        assert(is_digit(d[i]));
    }
}

proof fn lemma_member_resolves(es: Seq<(String, Json)>, key: Seq<char>, i: int)
    requires
        0 <= i,
        member_from(es, key, i) is Some,
    ensures
        member_index(members_tree(es), key, i) matches Some(k) && i <= k < es.len() && es[k].1
            == member_from(es, key, i)->0 && members_tree(es)[k].1 == tree(es[k].1),
    decreases es.len() - i,
{
    let m = members_tree(es);
    assert(m[i].0 == es[i].0@);
    if es[i].0@ != key {
        lemma_member_resolves(es, key, i + 1);
    }
}

/// A member that `json_get` finds is the child its key leads to.
pub proof fn lemma_get_step(j: Json, key: Seq<char>)
    requires
        json_get(j, key) is Some,
    ensures
        step_index(tree(j), key) matches Some(k) && child_at(tree(j), k) == tree(json_get(j, key)->0),
{
    lemma_tree_parts(j);
    if let Json::Object(v) = j {
        lemma_member_resolves(v@, key, 0);
    }
}

/// Element `i` of an array is the child its decimal index leads to.
pub proof fn lemma_index_step(j: Json, i: int)
    requires
        json_array(j) matches Some(v) && 0 <= i < v.len(),
    ensures
        step_index(tree(j), decimal(i as nat)) == Some(i),
        child_at(tree(j), i) == tree(json_array(j)->0[i]),
        plain_token(decimal(i as nat)),
{
    lemma_tree_parts(j);
    if let Json::Array(v) = j {
        assert(v.len() == v@.len());
        lemma_decimal_index(i as nat);
    }
}

/// One more token leads one step further.
pub proof fn lemma_resolve_push(t: JsonTree, ts: Seq<Seq<char>>, tok: Seq<char>)
    requires
        resolve(t, ts) is Some,
    ensures
        resolve(t, ts.push(tok)) == match step_index(resolve(t, ts)->0, tok) {
            Some(k) => Some(child_at(resolve(t, ts)->0, k)),
            None => None,
        },
    decreases ts.len(),
{
    if ts.len() > 0 {
        let k = step_index(t, ts[0])->0;
        assert(ts.push(tok)[0] == ts[0]);
        assert(ts.push(tok).skip(1) =~= ts.skip(1).push(tok));
        lemma_resolve_push(child_at(t, k), ts.skip(1), tok);
    } else {
        assert(resolve(t, ts) == Some(t));
        assert(ts.push(tok)[0] == tok);
        assert(ts.push(tok).skip(1) =~= Seq::<Seq<char>>::empty());
        match step_index(t, tok) {
            Some(k) => {
                assert(resolve(child_at(t, k), Seq::<Seq<char>>::empty()) == Some(child_at(t, k)));
            },
            None => {},
        }
    }
}

proof fn lemma_step_in_range(t: JsonTree, tok: Seq<char>)
    requires
        step_index(t, tok) is Some,
    ensures
        ({
            let k = step_index(t, tok)->0;
            (t is Object && 0 <= k < t->Object_0.len()) || (t is Array && 0 <= k < t->Array_0.len())
        }),
{
    if let JsonTree::Object(es) = t {
        lemma_member_index(es, tok, 0);
    }
}

proof fn lemma_with_same_child(t: JsonTree, k: int)
    requires
        (t is Object && 0 <= k < t->Object_0.len()) || (t is Array && 0 <= k < t->Array_0.len()),
    ensures
        with_child(t, k, child_at(t, k)) == t,
{
    match t {
        JsonTree::Object(es) => {
            assert(es.update(k, (es[k].0, es[k].1)) =~= es);
        },
        JsonTree::Array(v) => {
            assert(v.update(k, v[k]) =~= v);
        },
        _ => {},
    }
}

/// Writing back the value a pointer selects changes nothing.
pub proof fn lemma_replace_same(t: JsonTree, ts: Seq<Seq<char>>)
    requires
        resolve(t, ts) is Some,
    ensures
        replace_at(t, ts, resolve(t, ts)->0) == t,
    decreases ts.len(),
{
    if ts.len() > 0 {
        let k = step_index(t, ts[0])->0;
        lemma_step_in_range(t, ts[0]);
        lemma_replace_same(child_at(t, k), ts.skip(1));
        lemma_with_same_child(t, k);
    }
}

/// Pairs whose pointers each select the string they carry change nothing
/// and fail nowhere.
pub proof fn lemma_write_all_same(t: JsonTree, ps: Seq<(Seq<char>, Seq<char>)>)
    requires
        forall|i: int| 0 <= i < ps.len() ==> (pointer_tokens(#[trigger] ps[i].0) matches Some(ts) && resolve(t, ts)
            == Some(JsonTree::Str(ps[i].1))),
    ensures
        write_all(t, ps) == (t, None::<(PointerFault, int)>),
    decreases ps.len(),
{
    if ps.len() > 0 {
        let init = ps.drop_last();
        assert forall|i: int| 0 <= i < init.len() implies (pointer_tokens(#[trigger] init[i].0) matches Some(ts) && resolve(t, ts)
            == Some(JsonTree::Str(init[i].1))) by {
            assert(init[i] == ps[i]);
        }
        lemma_write_all_same(t, init);
        let last = ps.last();
        assert(last == ps[ps.len() - 1]);
        let ts = pointer_tokens(last.0)->0;
        lemma_replace_same(t, ts);
    }
}

/// `key` is a pointer to a string holding `text`.
pub open spec fn points_at(t: JsonTree, key: Seq<char>, text: Seq<char>) -> bool {
    pointer_tokens(key) matches Some(ts) && resolve(t, ts) == Some(JsonTree::Str(text))
}

/// Following member `key` from the node at `pts`.
pub proof fn lemma_walk_member(root: JsonTree, pts: Seq<Seq<char>>, node: Json, key: Seq<char>)
    requires
        plain_tokens(pts),
        plain_token(key),
        resolve(root, pts) == Some(tree(node)),
        json_get(node, key) is Some,
    ensures
        plain_tokens(pts.push(key)),
        resolve(root, pts.push(key)) == Some(tree(json_get(node, key)->0)),
{
    lemma_get_step(node, key);
    lemma_resolve_push(root, pts, key);
    assert forall|i: int| 0 <= i < pts.push(key).len() implies plain_token(#[trigger] pts.push(key)[i]) by {
        if i < pts.len() {
            assert(pts.push(key)[i] == pts[i]);
        }
    }
}

/// Following element `i` from the array at `pts`.
pub proof fn lemma_walk_element(root: JsonTree, pts: Seq<Seq<char>>, node: Json, i: int)
    requires
        plain_tokens(pts),
        resolve(root, pts) == Some(tree(node)),
        json_array(node) matches Some(v) && 0 <= i < v.len(),
    ensures
        plain_tokens(pts.push(decimal(i as nat))),
        resolve(root, pts.push(decimal(i as nat))) == Some(tree(json_array(node)->0[i])),
{
    lemma_index_step(node, i);
    lemma_resolve_push(root, pts, decimal(i as nat));
    let tok = decimal(i as nat);
    assert forall|k: int| 0 <= k < pts.push(tok).len() implies plain_token(#[trigger] pts.push(tok)[k]) by {
        if k < pts.len() {
            assert(pts.push(tok)[k] == pts[k]);
        }
    }
}

/// A string at the end of a plain path is what its pointer selects.
pub proof fn lemma_leaf(root: JsonTree, pts: Seq<Seq<char>>, node: Json)
    requires
        plain_tokens(pts),
        resolve(root, pts) == Some(tree(node)),
        json_str(node) is Some,
    ensures
        points_at(root, join_pointer(pts), json_str(node)->0),
{
    lemma_pointer_of_join(pts);
}

/// Every segment's key is a pointer to a string holding its text.
pub open spec fn all_point<K>(t: JsonTree, segs: Seq<(Seq<char>, Seq<char>, K)>) -> bool {
    forall|i: int| 0 <= i < segs.len() ==> points_at(t, (#[trigger] segs[i]).0, segs[i].1)
}

/// The (key, text) pairs of segments, as the injector takes them.
pub open spec fn seg_pairs<K>(segs: Seq<(Seq<char>, Seq<char>, K)>) -> Seq<(Seq<char>, Seq<char>)> {
    segs.map_values(|x: (Seq<char>, Seq<char>, K)| (x.0, x.1))
}

pub proof fn lemma_all_point_concat<K>(t: JsonTree, a: Seq<(Seq<char>, Seq<char>, K)>, b: Seq<(Seq<char>, Seq<char>, K)>)
    requires
        all_point(t, a),
        all_point(t, b),
    ensures
        all_point(t, a + b),
{
    assert forall|i: int| 0 <= i < (a + b).len() implies points_at(t, (#[trigger] (a + b)[i]).0, (a + b)[i].1) by {
        if i < a.len() {
            assert((a + b)[i] == a[i]);
        } else {
            assert((a + b)[i] == b[i - a.len()]);
        }
    }
}

/// Writing back the texts of segments whose keys point at them changes
/// nothing.
pub proof fn lemma_pairs_identity<K>(t: JsonTree, segs: Seq<(Seq<char>, Seq<char>, K)>)
    requires
        all_point(t, segs),
    ensures
        write_all(t, seg_pairs(segs)) == (t, None::<(PointerFault, int)>),
{
    let ps = seg_pairs(segs);
    assert forall|i: int| 0 <= i < ps.len() implies (pointer_tokens(#[trigger] ps[i].0) matches Some(ts) && resolve(t, ts)
        == Some(JsonTree::Str(ps[i].1))) by {
        assert(ps[i] == (segs[i].0, segs[i].1));
        assert(points_at(t, segs[i].0, segs[i].1));
    }
    lemma_write_all_same(t, ps);
}

pub proof fn lemma_join_push(pts: Seq<Seq<char>>, tok: Seq<char>)
    ensures
        join_pointer(pts.push(tok)) == join_pointer(pts) + seq!['/'] + tok,
{
    assert(pts.push(tok).drop_last() =~= pts);
}

/// An object's keys are distinct plain pointer tokens.
pub open spec fn distinct_plain_keys(es: Seq<(String, Json)>) -> bool {
    &&& forall|i: int, j: int| 0 <= i < j < es.len() ==> (#[trigger] es[i]).0@ != (#[trigger] es[j]).0@
    &&& forall|i: int| 0 <= i < es.len() ==> plain_token((#[trigger] es[i]).0@)
}

pub proof fn lemma_member_at(es: Seq<(String, Json)>, k: int, i: int)
    requires
        distinct_plain_keys(es),
        0 <= i <= k < es.len(),
    ensures
        member_from(es, es[k].0@, i) == Some(es[k].1),
    decreases k - i,
{
    if i < k {
        assert(es[i].0@ != es[k].0@);
        lemma_member_at(es, k, i + 1);
    }
}

// ---------------------------------------------------------------------------
// What a read gives back of a write
// ---------------------------------------------------------------------------

/// The step indices that the tokens take from `t`, or `None` where they
/// select nothing: two pointers with the same path select the same value.
pub open spec fn node_path(t: JsonTree, ts: Seq<Seq<char>>) -> Option<Seq<int>>
    decreases ts.len(),
{
    if ts.len() == 0 {
        Some(Seq::empty())
    } else {
        match step_index(t, ts[0]) {
            None => None,
            Some(k) => match node_path(child_at(t, k), ts.skip(1)) {
                None => None,
                Some(p) => Some(seq![k] + p),
            },
        }
    }
}

proof fn lemma_member_index_same_keys(
    a: Seq<(Seq<char>, JsonTree)>,
    b: Seq<(Seq<char>, JsonTree)>,
    key: Seq<char>,
    i: int,
)
    requires
        a.len() == b.len(),
        forall|m: int| 0 <= m < a.len() ==> (#[trigger] a[m]).0 == b[m].0,
    ensures
        member_index(a, key, i) == member_index(b, key, i),
    decreases a.len() - i,
{
    if 0 <= i < a.len() {
        assert(a[i].0 == b[i].0);
        lemma_member_index_same_keys(a, b, key, i + 1);
    }
}

/// Replacing a child keeps every step where it was.
proof fn lemma_step_with_child(t: JsonTree, k: int, c: JsonTree, tok: Seq<char>)
    requires
        (t is Object && 0 <= k < t->Object_0.len()) || (t is Array && 0 <= k < t->Array_0.len()),
    ensures
        step_index(with_child(t, k, c), tok) == step_index(t, tok),
        step_index(t, tok) is Some && step_index(t, tok)->0 != k ==> child_at(with_child(t, k, c), step_index(t, tok)->0)
            == child_at(t, step_index(t, tok)->0),
        step_index(t, tok) == Some(k) ==> child_at(with_child(t, k, c), k) == c,
{
    if let JsonTree::Object(es) = t {
        let es2 = es.update(k, (es[k].0, c));
        assert forall|m: int| 0 <= m < es.len() implies (#[trigger] es[m]).0 == es2[m].0 by {}
        lemma_member_index_same_keys(es, es2, tok, 0);
        lemma_member_index(es, tok, 0);
    }
}

/// A write reads back at its own pointer.
pub proof fn lemma_replace_reads_back(t: JsonTree, ts: Seq<Seq<char>>, new: JsonTree)
    requires
        resolve(t, ts) is Some,
    ensures
        resolve(replace_at(t, ts, new), ts) == Some(new),
    decreases ts.len(),
{
    if ts.len() > 0 {
        let k = step_index(t, ts[0])->0;
        lemma_step_in_range(t, ts[0]);
        lemma_replace_reads_back(child_at(t, k), ts.skip(1), new);
        lemma_step_with_child(t, k, replace_at(child_at(t, k), ts.skip(1), new), ts[0]);
    }
}

/// Writing a string where a string was keeps every pointer's path.
proof fn lemma_replace_keeps_paths(t: JsonTree, b: Seq<Seq<char>>, y: Seq<char>, a: Seq<Seq<char>>)
    requires
        resolve(t, b) matches Some(JsonTree::Str(_)),
    ensures
        node_path(replace_at(t, b, JsonTree::Str(y)), a) == node_path(t, a),
        resolve(replace_at(t, b, JsonTree::Str(y)), a) is Some == resolve(t, a) is Some,
    decreases a.len(), b.len(),
{
    if b.len() == 0 {
        if a.len() > 0 {
            assert(step_index(t, a[0]) is None);
        }
    } else if a.len() > 0 {
        let kb = step_index(t, b[0])->0;
        lemma_step_in_range(t, b[0]);
        let c = replace_at(child_at(t, kb), b.skip(1), JsonTree::Str(y));
        lemma_step_with_child(t, kb, c, a[0]);
        if let Some(ka) = step_index(t, a[0]) {
            if ka == kb {
                lemma_replace_keeps_paths(child_at(t, kb), b.skip(1), y, a.skip(1));
            }
        }
    }
}

/// A write to one string leaves a string at another path as it was.
proof fn lemma_replace_elsewhere(t: JsonTree, b: Seq<Seq<char>>, new: JsonTree, a: Seq<Seq<char>>)
    requires
        resolve(t, a) matches Some(JsonTree::Str(_)),
        resolve(t, b) matches Some(JsonTree::Str(_)),
        node_path(t, a) != node_path(t, b),
    ensures
        resolve(replace_at(t, b, new), a) == resolve(t, a),
    decreases a.len(),
{
    if a.len() == 0 {
        if b.len() > 0 {
            assert(step_index(t, b[0]) is None);
        }
    } else if b.len() == 0 {
        assert(step_index(t, a[0]) is None);
    } else {
        let ka = step_index(t, a[0])->0;
        let kb = step_index(t, b[0])->0;
        lemma_step_in_range(t, b[0]);
        let c = replace_at(child_at(t, kb), b.skip(1), new);
        lemma_step_with_child(t, kb, c, a[0]);
        if ka == kb {
            let pa = node_path(child_at(t, ka), a.skip(1));
            let pb = node_path(child_at(t, kb), b.skip(1));
            lemma_resolve_has_path(child_at(t, ka), a.skip(1));
            lemma_resolve_has_path(child_at(t, kb), b.skip(1));
            if pa == pb {
                assert(node_path(t, a) == node_path(t, b));
            }
            lemma_replace_elsewhere(child_at(t, ka), b.skip(1), new, a.skip(1));
        }
    }
}

proof fn lemma_resolve_has_path(t: JsonTree, ts: Seq<Seq<char>>)
    ensures
        resolve(t, ts) is Some == node_path(t, ts) is Some,
    decreases ts.len(),
{
    if ts.len() > 0 {
        if let Some(k) = step_index(t, ts[0]) {
            lemma_resolve_has_path(child_at(t, k), ts.skip(1));
        }
    }
}

/// Successful writes keep every pointer's path and what it selects.
proof fn lemma_write_all_keeps_paths(t: JsonTree, ps: Seq<(Seq<char>, Seq<char>)>, a: Seq<Seq<char>>)
    requires
        write_all(t, ps).1 is None,
    ensures
        node_path(write_all(t, ps).0, a) == node_path(t, a),
        resolve(write_all(t, ps).0, a) is Some == resolve(t, a) is Some,
    decreases ps.len(),
{
    if ps.len() > 0 {
        lemma_write_all_keeps_paths(t, ps.drop_last(), a);
        let t1 = write_all(t, ps.drop_last()).0;
        let ts = pointer_tokens(ps.last().0)->0;
        lemma_replace_keeps_paths(t1, ts, ps.last().1, a);
    }
}

/// What a sequence of writes gives back: when every pair was written, each
/// pointer that no later pair writes over (by the path it selects) reads
/// back, as a string, the text its pair wrote; the last write to each
/// value is the one that stays.
pub proof fn lemma_write_all_reads_back(t: JsonTree, ps: Seq<(Seq<char>, Seq<char>)>, i: int)
    requires
        write_all(t, ps).1 is None,
        0 <= i < ps.len(),
        forall|j: int|
            i < j < ps.len() ==> node_path(t, pointer_tokens(#[trigger] ps[j].0)->0) != node_path(
                t,
                pointer_tokens(ps[i].0)->0,
            ),
    ensures
        pointer_tokens(ps[i].0) matches Some(ts) && resolve(write_all(t, ps).0, ts) == Some(
            JsonTree::Str(ps[i].1),
        ),
    decreases ps.len(),
{
    let init = ps.drop_last();
    let n = ps.len() - 1;
    let t1 = write_all(t, init).0;
    let last = ps.last();
    let tl = pointer_tokens(last.0)->0;
    assert(write_all(t, init).1 is None);
    if i == n {
        lemma_replace_reads_back(t1, tl, JsonTree::Str(last.1));
    } else {
        assert(init[i] == ps[i]);
        assert forall|j: int| i < j < init.len() implies node_path(t, pointer_tokens(#[trigger] init[j].0)->0)
            != node_path(t, pointer_tokens(init[i].0)->0) by {
            assert(init[j] == ps[j]);
        }
        lemma_write_all_reads_back(t, init, i);
        let ti = pointer_tokens(ps[i].0)->0;
        assert(ps[n] == last);
        lemma_write_all_keeps_paths(t, init, ti);
        lemma_write_all_keeps_paths(t, init, tl);
        lemma_replace_elsewhere(t1, tl, JsonTree::Str(last.1), ti);
    }
}

} // verus!

//! The title of a game, as its own files give it: the `GameTitle=` line of
//! a Wolf RPG `Game.ini`, the `gameTitle` of an MV/MZ `System.json`, the
//! `game_title` of a VX Ace `System.rvdata2`.
use vstd::prelude::*;
use vstd::utf8::*;

use crate::wolf::encoding::{decode_shiftjis, decode_text, decode_utf8_lossy, decoded_text, shift_jis_decoding, utf8_lossy_decoding};
use crate::json::{json_get, tree, Json};
use crate::vx_ace::marshal::{marshal_load_call, marshal_tagged, plain_of, plain_tree};
use crate::wolf::text_filter::{trim_str, trimmed};

verus! {

/// The text of a `Game.ini`: Shift-JIS when it decodes without error,
/// else UTF-8 when the bytes are valid UTF-8, else UTF-8 with malformed
/// sequences replaced.
pub open spec fn ini_text(bytes: Seq<u8>) -> Seq<char> {
    if !shift_jis_decoding(bytes).1 {
        shift_jis_decoding(bytes).0
    } else if valid_utf8(bytes) {
        decode_utf8(bytes)
    } else {
        utf8_lossy_decoding(bytes)
    }
}

/// The end of the line that starts at `i`: the index of the next `'\n'`,
/// or the end of the text.
pub open spec fn line_end(s: Seq<char>, i: int) -> int
    decreases s.len() - i,
{
    if i < 0 || i >= s.len() {
        s.len() as int
    } else if s[i] == '\n' {
        i
    } else {
        line_end(s, i + 1)
    }
}

/// The title a line gives: trimmed, it starts with `GameTitle=`, and what
/// follows, trimmed, is not empty.
pub open spec fn line_title(line: Seq<char>) -> Option<Seq<char>> {
    let t = trimmed(line);
    if t.len() >= 10 && t.take(10) == "GameTitle="@ && trimmed(t.skip(10)).len() > 0 {
        Some(trimmed(t.skip(10)))
    } else {
        None
    }
}

/// Where the line after the one that starts at `i` starts.
pub open spec fn next_line(s: Seq<char>, i: int) -> int {
    if i <= line_end(s, i) <= s.len() {
        line_end(s, i) + 1
    } else {
        i + 1
    }
}

/// The title of the first line, from the line that starts at `i` on, that
/// gives one.
pub open spec fn title_from(s: Seq<char>, i: int) -> Option<Seq<char>>
    decreases s.len() + 1 - i,
{
    if i < 0 || i >= s.len() {
        None
    } else {
        match line_title(s.subrange(i, line_end(s, i))) {
            Some(t) => Some(t),
            None => title_from(s, next_line(s, i)),
        }
    }
}

pub proof fn lemma_line_end_bounds(s: Seq<char>, i: int)
    requires
        0 <= i <= s.len(),
    ensures
        i <= line_end(s, i) <= s.len(),
    decreases s.len() - i,
{
    if i < s.len() && s[i] != '\n' {
        lemma_line_end_bounds(s, i + 1);
    }
}

fn find_line_end(s: &str, i: usize) -> (e: usize)
    requires
        i <= s@.len(),
    ensures
        e == line_end(s@, i as int),
{
    let n = s.unicode_len();
    let mut k = i;
    while k < n
        invariant
            n == s@.len(),
            i <= k <= n,
            line_end(s@, i as int) == line_end(s@, k as int),
        decreases n - k,
    {
        if s.get_char(k) == '\n' {
            return k;
        }
        k = k + 1;
    }
    k
}

fn title_of_line(line: &str) -> (r: Option<String>)
    ensures
        match line_title(line@) {
            Some(t) => r matches Some(x) && x@ == t,
            None => r is None,
        },
{
    proof {
        reveal_strlit("GameTitle=");
    }
    let t = trim_str(line);
    let n = t.unicode_len();
    if n < 10 {
        return None;
    }
    let head = t.substring_char(0, 10);
    assert(head@ =~= t@.take(10));
    if !crate::wolf::decryptor::str_equal(head, "GameTitle=") {
        return None;
    }
    let rest = t.substring_char(10, n);
    assert(rest@ =~= t@.skip(10));
    let title = trim_str(rest);
    if title.unicode_len() == 0 {
        return None;
    }
    Some(String::from_str(title))
}

/// The text of a `Game.ini` (see `ini_text`).
pub fn decode_ini(bytes: &[u8]) -> (s: String)
    ensures
        s@ == ini_text(bytes@),
{
    match decode_shiftjis(bytes) {
        Ok(s) => s,
        Err(_) => match decode_text(bytes, true) {
            Some(s) => s,
            None => decode_utf8_lossy(bytes),
        },
    }
}

/// The title in the text of a `Game.ini`: the first line that, trimmed,
/// starts with `GameTitle=` and has a non-empty value (see `title_from`).
pub fn ini_title(content: &str) -> (r: Option<String>)
    ensures
        match title_from(content@, 0) {
            Some(t) => r matches Some(x) && x@ == t,
            None => r is None,
        },
{
    let n = content.unicode_len();
    let mut i: usize = 0;
    while i < n
        invariant
            n == content@.len(),
            i <= n + 1,
            title_from(content@, 0) == title_from(content@, i as int),
        decreases n + 1 - i,
    {
        let e = find_line_end(content, i);
        proof {
            lemma_line_end_bounds(content@, i as int);
        }
        let line = content.substring_char(i, e);
        match title_of_line(line) {
            Some(t) => {
                return Some(t);
            },
            None => {},
        }
        if e == n {
            assert(title_from(content@, next_line(content@, i as int)) is None);
            return None;
        }
        i = e + 1;
    }
    None
}

/// The title of a Wolf RPG game from the bytes of its `Game.ini` (see
/// `ini_text` and `title_from`).
pub fn wolf_game_title(bytes: &[u8]) -> (r: Option<String>)
    ensures
        match title_from(ini_text(bytes@), 0) {
            Some(t) => r matches Some(x) && x@ == t,
            None => r is None,
        },
{
    let content = decode_ini(bytes);
    ini_title(content.as_str())
}

/// What `serde_json::from_str` gives for `content`, looked up with
/// `Value::get(key)` and read with `Value::as_str`: the text of the string
/// member `key` of the object that `content` holds.
pub uninterp spec fn json_string_member(content: Seq<char>, key: Seq<char>) -> Option<Seq<char>>;

/// Parses `content` with `serde_json::from_str` and reads member `key` as a
/// string; the claim is that the answer depends on `content` and `key`
/// alone, as named by `json_string_member` (`None` for a text that does not
/// parse, a missing member, or one that is no string).
#[verifier::external_body]
fn json_string_member_call(content: &str, key: &str) -> (r: Option<String>)
    ensures
        match json_string_member(content@, key@) {
            Some(t) => r matches Some(x) && x@ == t,
            None => r is None,
        },
{
    let v: serde_json::Value = serde_json::from_str(content).ok()?;
    v.get(key)?.as_str().map(|s| s.to_owned())
}

/// The `gameTitle` of an MV/MZ `System.json`, from its text.
pub fn mv_mz_game_title(system_json: &str) -> (r: Option<String>)
    ensures
        match json_string_member(system_json@, "gameTitle"@) {
            Some(t) => r matches Some(x) && x@ == t,
            None => r is None,
        },
{
    json_string_member_call(system_json, "gameTitle")
}

/// The `game_title` of a VX Ace `System.rvdata2`, from its bytes: the
/// string member of its plain tree (see `plain_tree`); `None` when the bytes
/// are no Marshal stream or the member is missing or no string.
pub fn vx_ace_game_title(bytes: &[u8]) -> (r: Option<String>)
    ensures
        match marshal_tagged(bytes@) {
            None => r is None,
            Some(t) => exists|tagged: Json, plain: Json|
                tree(tagged) == t && tree(plain) == plain_tree(tagged) && match json_get(plain, "game_title"@) {
                    Some(Json::Str(s)) => r matches Some(x) && x@ == s@,
                    _ => r is None,
                },
        },
{
    let tagged = match marshal_load_call(bytes) {
        Some(j) => j,
        None => return None,
    };
    let plain = plain_of(&tagged);
    let r = match plain.get("game_title") {
        Some(Json::Str(s)) => Some(s.clone()),
        _ => None,
    };
    assert(tree(tagged) == marshal_tagged(bytes@)->0);
    r
}

} // verus!

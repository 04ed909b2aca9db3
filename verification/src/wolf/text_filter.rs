//! Which Wolf RPG strings are worth translating: trimming, Japanese
//! detection, resource paths and placeholder-only strings.
use vstd::prelude::*;

use crate::glossary::occurs_in;
use crate::wolf::decryptor::str_equal;

verus! {

// ---------------------------------------------------------------------------
// Whitespace and trimming
// ---------------------------------------------------------------------------

/// Unicode `White_Space`, the set that `char::is_whitespace` and `str::trim` use.
pub open spec fn is_white(c: char) -> bool {
    let n = c as u32;
    (0x09 <= n && n <= 0x0D) || n == 0x20 || n == 0x85 || n == 0xA0 || n == 0x1680 || (0x2000 <= n
        && n <= 0x200A) || n == 0x2028 || n == 0x2029 || n == 0x202F || n == 0x205F || n == 0x3000
}

pub fn is_white_char(c: char) -> (r: bool)
    ensures
        r == is_white(c),
{
    let n = c as u32;
    (0x09 <= n && n <= 0x0D) || n == 0x20 || n == 0x85 || n == 0xA0 || n == 0x1680 || (0x2000 <= n
        && n <= 0x200A) || n == 0x2028 || n == 0x2029 || n == 0x202F || n == 0x205F || n == 0x3000
}

/// The first index at or after `i` that holds no whitespace (`s.len()` if none).
pub open spec fn first_non_white(s: Seq<char>, i: int) -> int
    decreases s.len() - i,
{
    if i < 0 || i >= s.len() {
        s.len() as int
    } else if is_white(s[i]) {
        first_non_white(s, i + 1)
    } else {
        i
    }
}

/// One past the last index before `j` that holds no whitespace (0 if none).
pub open spec fn non_white_end(s: Seq<char>, j: int) -> int
    decreases j,
{
    if j <= 0 || j > s.len() {
        0
    } else if is_white(s[j - 1]) {
        non_white_end(s, j - 1)
    } else {
        j
    }
}

/// `s` without its leading and trailing whitespace.
pub open spec fn trimmed(s: Seq<char>) -> Seq<char> {
    let a = first_non_white(s, 0);
    let b = non_white_end(s, s.len() as int);
    if a < b {
        s.subrange(a, b)
    } else {
        Seq::empty()
    }
}

proof fn lemma_first_non_white_bounds(s: Seq<char>, i: int)
    requires
        0 <= i <= s.len(),
    ensures
        i <= first_non_white(s, i) <= s.len(),
    decreases s.len() - i,
{
    if i < s.len() && is_white(s[i]) {
        lemma_first_non_white_bounds(s, i + 1);
    }
}

proof fn lemma_non_white_end_bounds(s: Seq<char>, j: int)
    requires
        0 <= j <= s.len(),
    ensures
        0 <= non_white_end(s, j) <= j,
    decreases j,
{
    if j > 0 && is_white(s[j - 1]) {
        lemma_non_white_end_bounds(s, j - 1);
    }
}

/// Every character of `w` is whitespace.
pub open spec fn all_white(w: Seq<char>) -> bool {
    forall|k: int| 0 <= k < w.len() ==> is_white(#[trigger] w[k])
}

proof fn lemma_first_in_lead(u: Seq<char>, n: int, i: int)
    requires
        0 <= i <= n <= u.len(),
        forall|k: int| i <= k < n ==> is_white(#[trigger] u[k]),
    ensures
        first_non_white(u, i) == first_non_white(u, n),
    decreases n - i,
{
    if i < n {
        lemma_first_in_lead(u, n, i + 1);
    }
}

proof fn lemma_first_in_middle(u: Seq<char>, off: int, t: Seq<char>, i: int)
    requires
        0 <= off,
        off + t.len() <= u.len(),
        0 <= i <= t.len(),
        forall|k: int| 0 <= k < t.len() ==> u[off + k] == #[trigger] t[k],
    ensures
        first_non_white(u, off + i) == if first_non_white(t, i) < t.len() {
            off + first_non_white(t, i)
        } else {
            first_non_white(u, off + t.len())
        },
    decreases t.len() - i,
{
    if i < t.len() {
        assert(u[off + i] == t[i]);
        lemma_first_in_middle(u, off, t, i + 1);
    }
}

proof fn lemma_end_in_tail(u: Seq<char>, n: int, j: int)
    requires
        0 <= n <= j <= u.len(),
        forall|k: int| n <= k < j ==> is_white(#[trigger] u[k]),
    ensures
        non_white_end(u, j) == non_white_end(u, n),
    decreases j - n,
{
    if n < j {
        lemma_end_in_tail(u, n, j - 1);
    }
}

proof fn lemma_end_in_middle(u: Seq<char>, off: int, t: Seq<char>, j: int)
    requires
        0 <= off,
        off + t.len() <= u.len(),
        0 <= j <= t.len(),
        forall|k: int| 0 <= k < t.len() ==> u[off + k] == #[trigger] t[k],
    ensures
        non_white_end(u, off + j) == if non_white_end(t, j) > 0 {
            off + non_white_end(t, j)
        } else {
            non_white_end(u, off)
        },
    decreases j,
{
    if j > 0 {
        assert(u[off + j - 1] == t[j - 1]);
        lemma_end_in_middle(u, off, t, j - 1);
    }
}

/// Whitespace around a text changes nothing of what trimming leaves.
pub proof fn lemma_trimmed_ignores_padding(w1: Seq<char>, t: Seq<char>, w2: Seq<char>)
    requires
        all_white(w1),
        all_white(w2),
    ensures
        trimmed(w1 + t + w2) == trimmed(t),
{
    let u = w1 + t + w2;
    let off = w1.len() as int;
    let mid = off + t.len();
    assert forall|k: int| 0 <= k < t.len() implies u[off + k] == #[trigger] t[k] by {}
    assert forall|k: int| 0 <= k < off implies is_white(#[trigger] u[k]) by {
        assert(u[k] == w1[k]);
    }
    assert forall|k: int| mid <= k < u.len() implies is_white(#[trigger] u[k]) by {
        assert(u[k] == w2[k - mid]);
    }
    lemma_first_in_lead(u, off, 0);
    lemma_first_in_middle(u, off, t, 0);
    lemma_first_in_lead(u, u.len() as int, mid);
    lemma_end_in_tail(u, mid, u.len() as int);
    lemma_end_in_middle(u, off, t, t.len() as int);
    lemma_end_in_tail(u, 0, off);
    lemma_first_non_white_bounds(t, 0);
    lemma_non_white_end_bounds(t, t.len() as int);
    let at = first_non_white(t, 0);
    let bt = non_white_end(t, t.len() as int);
    if at < t.len() && bt > 0 && at < bt {
        assert(u.subrange(off + at, off + bt) =~= t.subrange(at, bt));
    }
}

/// `text` without leading and trailing whitespace, as `str::trim` gives it.
pub fn trim_str(text: &str) -> (t: &str)
    ensures
        t@ == trimmed(text@),
{
    let n = text.unicode_len();
    let mut a: usize = 0;
    while a < n
        invariant
            n == text@.len(),
            a <= n,
            first_non_white(text@, 0) == first_non_white(text@, a as int),
        ensures
            first_non_white(text@, 0) == a,
        decreases n - a,
    {
        if !is_white_char(text.get_char(a)) {
            break;
        }
        a = a + 1;
    }
    let mut b: usize = n;
    while b > 0
        invariant
            n == text@.len(),
            b <= n,
            non_white_end(text@, n as int) == non_white_end(text@, b as int),
        ensures
            non_white_end(text@, n as int) == b,
        decreases b,
    {
        if !is_white_char(text.get_char(b - 1)) {
            break;
        }
        b = b - 1;
    }
    proof {
        lemma_first_non_white_bounds(text@, a as int);
        lemma_non_white_end_bounds(text@, b as int);
    }
    if a < b {
        text.substring_char(a, b)
    } else {
        let e = "";
        proof {
            reveal_strlit("");
        }
        e
    }
}

/// `text` holds nothing but whitespace.
pub fn is_blank(text: &str) -> (r: bool)
    ensures
        r == (trimmed(text@).len() == 0),
{
    trim_str(text).unicode_len() == 0
}

// ---------------------------------------------------------------------------
// Japanese text
// ---------------------------------------------------------------------------

/// Hiragana (U+3041–U+3096), katakana (U+30A0–U+30FF) or a CJK unified
/// ideograph (U+4E00–U+9FFF).
pub open spec fn is_japanese(c: char) -> bool {
    let n = c as u32;
    (0x3041 <= n && n <= 0x3096) || (0x30A0 <= n && n <= 0x30FF) || (0x4E00 <= n && n <= 0x9FFF)
}

pub open spec fn has_japanese(s: Seq<char>) -> bool {
    exists|i: int| 0 <= i < s.len() && #[trigger] is_japanese(s[i])
}

/// Whether `text` holds at least one Japanese character.
pub fn contains_japanese(text: &str) -> (r: bool)
    ensures
        r == has_japanese(text@),
{
    let n = text.unicode_len();
    let mut i: usize = 0;
    while i < n
        invariant
            n == text@.len(),
            i <= n,
            forall|j: int| 0 <= j < i ==> !is_japanese(#[trigger] text@[j]),
        decreases n - i,
    {
        let c = text.get_char(i);
        let v = c as u32;
        if (0x3041 <= v && v <= 0x3096) || (0x30A0 <= v && v <= 0x30FF) || (0x4E00 <= v && v <= 0x9FFF) {
            assert(is_japanese(text@[i as int]));
            return true;
        }
        i = i + 1;
    }
    false
}

/// Database field names whose values are translated even without Japanese text.
pub open spec fn known_translatable_field(name: Seq<char>) -> bool {
    name == "name"@ || name == "名前"@ || name == "description"@ || name == "説明"@ || name == "note"@
        || name == "備考"@ || name == "message"@ || name == "text"@
}

/// Whether `name` is one of the field names known to hold translatable text.
pub fn is_known_translatable_field(name: &str) -> (r: bool)
    ensures
        r == known_translatable_field(name@),
{
    str_equal(name, "name") || str_equal(name, "名前") || str_equal(name, "description") || str_equal(
        name,
        "説明",
    ) || str_equal(name, "note") || str_equal(name, "備考") || str_equal(name, "message") || str_equal(
        name,
        "text",
    )
}

// ---------------------------------------------------------------------------
// Patterns
// ---------------------------------------------------------------------------

/// What `regex::Regex::new(pattern)` followed by `is_match(text)` gives:
/// `None` when the pattern does not compile.
pub uninterp spec fn regex_match_result(pattern: Seq<char>, text: Seq<char>) -> Option<bool>;

/// What `regex::Regex::new(pattern)` followed by `replace_all(text, rep)`
/// gives: `None` when the pattern does not compile.
pub uninterp spec fn regex_replace_result(pattern: Seq<char>, text: Seq<char>, rep: Seq<char>) -> Option<
    Seq<char>,
>;

/// Compiles `pattern` with `regex::Regex::new` and tests it on `text` with
/// `Regex::is_match`. The result is named, not stated: it is `None` exactly
/// when the pattern does not compile, and otherwise whether the regex
/// matches somewhere in `text`; both depend on the two arguments alone.
#[verifier::external_body]
pub(crate) fn regex_is_match(pattern: &str, text: &str) -> (r: Option<bool>)
    ensures
        r == regex_match_result(pattern@, text@),
{
    match regex::Regex::new(pattern) {
        Ok(re) => Some(re.is_match(text)),
        Err(_) => None,
    }
}

/// Compiles `pattern` with `regex::Regex::new` and replaces every
/// non-overlapping match in `text` by `rep` with `Regex::replace_all`. The
/// result is named, not stated; it depends on the three arguments alone.
#[verifier::external_body]
fn regex_replace_all(pattern: &str, text: &str, rep: &str) -> (r: Option<String>)
    ensures
        match r {
            Some(s) => regex_replace_result(pattern@, text@, rep@) == Some(s@),
            None => regex_replace_result(pattern@, text@, rep@) is None,
        },
{
    match regex::Regex::new(pattern) {
        Ok(re) => Some(re.replace_all(text, rep).into_owned()),
        Err(_) => None,
    }
}

/// What `regex::Regex::new(pattern)` followed by `find_iter(text)` gives,
/// each match taken as its text: `None` when the pattern does not compile.
pub uninterp spec fn regex_matches_result(pattern: Seq<char>, text: Seq<char>) -> Option<Seq<Seq<char>>>;

/// Compiles `pattern` with `regex::Regex::new` and lists the texts of its
/// successive non-overlapping matches in `text` with `Regex::find_iter`.
/// The list is named, not stated: it depends on the two arguments alone,
/// and each match, as `Match::as_str` documents, is a run of `text`.
#[verifier::external_body]
fn regex_find_all(pattern: &str, text: &str) -> (r: Option<Vec<String>>)
    ensures
        match regex_matches_result(pattern@, text@) {
            Some(ms) => r matches Some(v) && v@.map_values(|m: String| m@) == ms,
            None => r is None,
        },
        r matches Some(v) ==> forall|i: int| 0 <= i < v@.len() ==> occurs_in(text@, #[trigger] v@[i]@),
{
    match regex::Regex::new(pattern) {
        Ok(re) => Some(re.find_iter(text).map(|m| m.as_str().to_owned()).collect()),
        Err(_) => None,
    }
}

/// The placeholders of `text` for the placeholder regex `pattern`: its
/// matches in order (none when the pattern does not compile).
pub fn placeholders_in(text: &str, pattern: &str) -> (ps: Vec<String>)
    ensures
        match regex_matches_result(pattern@, text@) {
            Some(ms) => ps@.map_values(|m: String| m@) == ms,
            None => ps@.len() == 0,
        },
        forall|i: int| 0 <= i < ps@.len() ==> occurs_in(text@, #[trigger] ps@[i]@),
{
    match regex_find_all(pattern, text) {
        Some(v) => v,
        None => Vec::new(),
    }
}

/// What `regex::Regex::new(pattern)` followed by `replace(text, rep)` gives:
/// `None` when the pattern does not compile.
pub uninterp spec fn regex_replace_first_result(pattern: Seq<char>, text: Seq<char>, rep: Seq<char>) -> Option<
    Seq<char>,
>;

/// Compiles `pattern` with `regex::Regex::new` and replaces its leftmost
/// match in `text` by `rep` with `Regex::replace`. The result is named, not
/// stated; it depends on the three arguments alone.
#[verifier::external_body]
pub(crate) fn regex_replace_first(pattern: &str, text: &str, rep: &str) -> (r: Option<String>)
    ensures
        match r {
            Some(s) => regex_replace_first_result(pattern@, text@, rep@) == Some(s@),
            None => regex_replace_first_result(pattern@, text@, rep@) is None,
        },
{
    match regex::Regex::new(pattern) {
        Ok(re) => Some(re.replace(text, rep).into_owned()),
        Err(_) => None,
    }
}

/// A trailing image, audio, video or font file extension, in any case.
pub open spec fn resource_pattern() -> Seq<char> {
    "(?i)\\.(png|jpe?g|bmp|gif|ogg|wav|mp3|mid|midi|ttf|otf|avi|webm|mp4)$"@
}

fn resource_pattern_str() -> (p: &'static str)
    ensures
        p@ == resource_pattern(),
{
    "(?i)\\.(png|jpe?g|bmp|gif|ogg|wav|mp3|mid|midi|ttf|otf|avi|webm|mp4)$"
}

/// The Wolf RPG placeholders and control codes: ruby `\r[..,..]`, database
/// references, system and self variables, the standard `\v \c \s \f \i`
/// codes and the others with a numeric argument, alignment tags `<L> <C> <R>`,
/// the codes without argument, a leading `@N` speaker line, and line breaks.
pub open spec fn wolf_placeholder_pattern() -> Seq<char> {
    "\\\\r\\[[^\\[\\],]+,[^\\[\\]]*\\]|\\\\(?:udb|cdb|sdb)\\[\\d+:\\d+:\\d+\\]|\\\\sysS\\[\\d+\\]|\\\\cself\\[\\d{1,2}\\]|\\\\self\\[\\d\\]|\\\\sys\\[\\d+\\]|\\\\space\\[\\d+\\]|\\\\v\\?\\[\\d+\\]|\\\\(?:sp|mx|my|ax|ay)\\[\\d+\\]|\\\\-\\[\\d+\\]|\\\\font\\[\\d\\]|\\\\[vcsfiVCSFI]\\[\\d+\\]|\\\\m\\[\\d+\\]|<[LCR]>|\\\\A[+\\-]|\\\\[EN\\\\!.^><]|^@\\d+\\n|\\n"@
}

pub fn wolf_placeholder_pattern_str() -> (p: &'static str)
    ensures
        p@ == wolf_placeholder_pattern(),
{
    "\\\\r\\[[^\\[\\],]+,[^\\[\\]]*\\]|\\\\(?:udb|cdb|sdb)\\[\\d+:\\d+:\\d+\\]|\\\\sysS\\[\\d+\\]|\\\\cself\\[\\d{1,2}\\]|\\\\self\\[\\d\\]|\\\\sys\\[\\d+\\]|\\\\space\\[\\d+\\]|\\\\v\\?\\[\\d+\\]|\\\\(?:sp|mx|my|ax|ay)\\[\\d+\\]|\\\\-\\[\\d+\\]|\\\\font\\[\\d\\]|\\\\[vcsfiVCSFI]\\[\\d+\\]|\\\\m\\[\\d+\\]|<[LCR]>|\\\\A[+\\-]|\\\\[EN\\\\!.^><]|^@\\d+\\n|\\n"
}

/// `text` ends with a resource file extension: a file path, not prose.
pub open spec fn resource_path(text: Seq<char>) -> bool {
    regex_match_result(resource_pattern(), text) == Some(true)
}

/// Whether `text` ends with a known image, audio, video or font extension.
pub fn is_resource_path(text: &str) -> (r: bool)
    ensures
        r == resource_path(text@),
{
    match regex_is_match(resource_pattern_str(), text) {
        Some(b) => b,
        None => false,
    }
}

/// `text` holds at least one placeholder and nothing but placeholders and
/// whitespace.
pub open spec fn placeholder_only(text: Seq<char>) -> bool {
    &&& regex_match_result(wolf_placeholder_pattern(), text) == Some(true)
    &&& match regex_replace_result(wolf_placeholder_pattern(), text, Seq::empty()) {
        Some(bare) => trimmed(bare).len() == 0,
        None => false,
    }
}

/// Whether `text` is made of Wolf placeholders alone (with whitespace).
pub fn is_wolf_placeholder_only(text: &str) -> (r: bool)
    ensures
        r == placeholder_only(text@),
{
    let pattern = wolf_placeholder_pattern_str();
    match regex_is_match(pattern, text) {
        Some(true) => {},
        _ => {
            return false;
        },
    }
    let empty = "";
    proof {
        reveal_strlit("");
        assert(empty@ =~= Seq::<char>::empty());
    }
    match regex_replace_all(pattern, text, empty) {
        Some(bare) => is_blank(bare.as_str()),
        None => false,
    }
}

/// Whether a map or common-event string is worth translating: not blank,
/// not placeholders alone, not a resource path.
pub open spec fn translatable(text: Seq<char>) -> bool {
    trimmed(text).len() > 0 && !placeholder_only(text) && !resource_path(trimmed(text))
}

/// Whether `text` is worth translating (see `translatable`).
pub fn is_translatable(text: &str) -> (r: bool)
    ensures
        r == translatable(text@),
{
    let t = trim_str(text);
    if t.unicode_len() == 0 {
        return false;
    }
    if is_wolf_placeholder_only(text) {
        return false;
    }
    !is_resource_path(t)
}

/// Something other than matches of `pattern` and whitespace is left in `t`.
/// A pattern that does not compile recognises no placeholder.
pub open spec fn placeholder_free_rest(pattern: Seq<char>, t: Seq<char>) -> bool {
    match regex_match_result(pattern, t) {
        Some(true) => match regex_replace_result(pattern, t, Seq::empty()) {
            Some(bare) => trimmed(bare).len() > 0,
            None => true,
        },
        _ => true,
    }
}

/// Whether `t` holds more than the placeholders that `pattern` matches and
/// whitespace (see `placeholder_free_rest`).
pub fn has_text_besides_placeholders(pattern: &str, t: &str) -> (r: bool)
    ensures
        r == placeholder_free_rest(pattern@, t@),
{
    match regex_is_match(pattern, t) {
        Some(true) => {},
        _ => {
            return true;
        },
    }
    let empty = "";
    proof {
        reveal_strlit("");
        assert(empty@ =~= Seq::<char>::empty());
    }
    match regex_replace_all(pattern, t, empty) {
        Some(bare) => !is_blank(bare.as_str()),
        None => true,
    }
}

} // verus!

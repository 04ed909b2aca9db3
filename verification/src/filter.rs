//! The filter that decides whether an extracted string is worth sending to
//! a translator.
use vstd::prelude::*;

use crate::wolf::text_filter::{
    all_white, is_white, is_white_char, lemma_trimmed_ignores_padding, placeholder_free_rest, trim_str, trimmed,
};

verus! {

/// An ASCII digit or a fullwidth digit `０`–`９`.
pub open spec fn is_digit_char(c: char) -> bool {
    let n = c as u32;
    (0x30 <= n && n <= 0x39) || (0xFF10 <= n && n <= 0xFF19)
}

/// Punctuation and symbols with nothing a translator can act on.
pub open spec fn is_symbol_char(c: char) -> bool {
    c == '…' || c == '‥' || c == '．' || c == '。' || c == '、' || c == '！' || c == '？' || c == '!'
        || c == '?' || c == '.' || c == '-' || c == '―' || c == '─' || c == '＿' || c == '_' || c
        == '・' || c == '★' || c == '☆' || c == '◆' || c == '◇' || c == '■' || c == '□' || c == '●'
        || c == '○' || c == '×' || c == '＊' || c == '*' || c == '♪' || c == '♫' || c == '♦' || c
        == '～' || c == '~' || c == '＝' || c == '=' || c == '「' || c == '」' || c == '『' || c == '』'
        || c == '【' || c == '】' || c == '（' || c == '）' || c == '(' || c == ')' || c == '／' || c
        == '/' || c == '|' || c == '｜'
}

pub open spec fn pure_number(s: Seq<char>) -> bool {
    let t = trimmed(s);
    t.len() > 0 && forall|i: int| 0 <= i < t.len() ==> #[trigger] is_digit_char(t[i])
}

pub open spec fn pure_symbol(s: Seq<char>) -> bool {
    let t = trimmed(s);
    t.len() > 0 && forall|i: int| 0 <= i < t.len() ==> is_symbol_char(#[trigger] t[i]) || is_white(t[i])
}

fn symbol_char(c: char) -> (r: bool)
    ensures
        r == is_symbol_char(c),
{
    c == '…' || c == '‥' || c == '．' || c == '。' || c == '、' || c == '！' || c == '？' || c == '!'
        || c == '?' || c == '.' || c == '-' || c == '―' || c == '─' || c == '＿' || c == '_' || c
        == '・' || c == '★' || c == '☆' || c == '◆' || c == '◇' || c == '■' || c == '□' || c == '●'
        || c == '○' || c == '×' || c == '＊' || c == '*' || c == '♪' || c == '♫' || c == '♦' || c
        == '～' || c == '~' || c == '＝' || c == '=' || c == '「' || c == '」' || c == '『' || c == '』'
        || c == '【' || c == '】' || c == '（' || c == '）' || c == '(' || c == ')' || c == '／' || c
        == '/' || c == '|' || c == '｜'
}

/// Whether `text`, trimmed, is a non-empty run of ASCII or fullwidth digits.
pub fn is_pure_number(text: &str) -> (r: bool)
    ensures
        r == pure_number(text@),
{
    let t = trim_str(text);
    let n = t.unicode_len();
    if n == 0 {
        return false;
    }
    let mut i: usize = 0;
    while i < n
        invariant
            n == t@.len(),
            t@ == trimmed(text@),
            i <= n,
            forall|j: int| 0 <= j < i ==> #[trigger] is_digit_char(t@[j]),
        decreases n - i,
    {
        let v = t.get_char(i) as u32;
        if !((0x30 <= v && v <= 0x39) || (0xFF10 <= v && v <= 0xFF19)) {
            assert(!is_digit_char(t@[i as int]));
            return false;
        }
        i = i + 1;
    }
    true
}

/// Whether `text`, trimmed, is non-empty and made of punctuation, symbols
/// and whitespace alone.
pub fn is_pure_symbol(text: &str) -> (r: bool)
    ensures
        r == pure_symbol(text@),
{
    let t = trim_str(text);
    let n = t.unicode_len();
    if n == 0 {
        return false;
    }
    let mut i: usize = 0;
    while i < n
        invariant
            n == t@.len(),
            t@ == trimmed(text@),
            i <= n,
            forall|j: int| 0 <= j < i ==> is_symbol_char(#[trigger] t@[j]) || is_white(t@[j]),
        decreases n - i,
    {
        let c = t.get_char(i);
        if !(symbol_char(c) || is_white_char(c)) {
            return false;
        }
        i = i + 1;
    }
    true
}

/// The RPG Maker MV/MZ escape codes: a backslash, letters, and an optional
/// bracketed argument (`\V[1]`, `\C[2]`, `\G`).
pub open spec fn mv_mz_placeholder_pattern() -> Seq<char> {
    "\\\\[A-Za-z]+(\\[[^\\]]*\\])?"@
}

pub fn mv_mz_placeholder_pattern_str() -> (p: &'static str)
    ensures
        p@ == mv_mz_placeholder_pattern(),
{
    "\\\\[A-Za-z]+(\\[[^\\]]*\\])?"
}

/// `text` needs a translator: trimmed, it is not empty, not a number, not
/// symbols alone, and something other than placeholders of `pattern` (the
/// engine's placeholder regex) and whitespace remains.
pub open spec fn needs_translation_spec(text: Seq<char>, pattern: Seq<char>) -> bool {
    let t = trimmed(text);
    t.len() > 0 && !pure_number(t) && !pure_symbol(t) && placeholder_free_rest(pattern, t)
}

/// The single gate of the extractors: whether `text` holds something worth
/// translating, where `placeholder_pattern` is the engine's placeholder
/// regex (see `needs_translation_spec`).
pub fn needs_translation(text: &str, placeholder_pattern: &str) -> (r: bool)
    ensures
        r == needs_translation_spec(text@, placeholder_pattern@),
{
    let t = trim_str(text);
    if t.unicode_len() == 0 || is_pure_number(t) || is_pure_symbol(t) {
        return false;
    }
    crate::wolf::text_filter::has_text_besides_placeholders(placeholder_pattern, t)
}

/// Whether a text needs a translator does not depend on the whitespace
/// around it.
pub proof fn lemma_needs_translation_ignores_padding(w1: Seq<char>, text: Seq<char>, w2: Seq<char>, pattern: Seq<char>)
    requires
        all_white(w1),
        all_white(w2),
    ensures
        needs_translation_spec(w1 + text + w2, pattern) == needs_translation_spec(text, pattern),
{
    lemma_trimmed_ignores_padding(w1, text, w2);
}

} // verus!

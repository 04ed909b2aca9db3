//! Translation memory: the key an entry is stored under, and the edit
//! distance behind fuzzy matches.
use vstd::prelude::*;
use vstd::utf8::encode_utf8;

use sha2::Digest;

use crate::wolf::text_filter::{trim_str, trimmed};

verus! {

pub open spec fn min3(x: nat, y: nat, z: nat) -> nat {
    if x <= y && x <= z {
        x
    } else if y <= z {
        y
    } else {
        z
    }
}

/// The Levenshtein distance between `a[0..i]` and `b[0..j]`: the fewest
/// single-character insertions, deletions and substitutions from one to
/// the other.
pub open spec fn edit_distance(a: Seq<char>, b: Seq<char>, i: int, j: int) -> nat
    decreases i + j,
{
    if i <= 0 {
        if j <= 0 {
            0
        } else {
            j as nat
        }
    } else if j <= 0 {
        i as nat
    } else {
        min3(
            edit_distance(a, b, i - 1, j) + 1,
            edit_distance(a, b, i, j - 1) + 1,
            edit_distance(a, b, i - 1, j - 1) + if a[i - 1] == b[j - 1] {
                0nat
            } else {
                1nat
            },
        )
    }
}

pub open spec fn levenshtein_spec(a: Seq<char>, b: Seq<char>) -> nat {
    edit_distance(a, b, a.len() as int, b.len() as int)
}

proof fn lemma_edit_distance_bound(a: Seq<char>, b: Seq<char>, i: int, j: int)
    requires
        0 <= i,
        0 <= j,
    ensures
        edit_distance(a, b, i, j) <= if i >= j {
            i
        } else {
            j
        },
    decreases i + j,
{
    if i > 0 && j > 0 {
        lemma_edit_distance_bound(a, b, i - 1, j - 1);
    }
}

proof fn lemma_edit_distance_same(a: Seq<char>, i: int)
    requires
        0 <= i,
    ensures
        edit_distance(a, a, i, i) == 0,
    decreases i,
{
    if i > 0 {
        lemma_edit_distance_same(a, i - 1);
    }
}

proof fn lemma_edit_distance_swap(a: Seq<char>, b: Seq<char>, i: int, j: int)
    ensures
        edit_distance(a, b, i, j) == edit_distance(b, a, j, i),
    decreases i + j,
{
    if i > 0 && j > 0 {
        lemma_edit_distance_swap(a, b, i - 1, j);
        lemma_edit_distance_swap(a, b, i, j - 1);
        lemma_edit_distance_swap(a, b, i - 1, j - 1);
    }
}

/// A text is at distance 0 from itself, the distance does not depend on
/// the order of the two texts, and it is at most the longer length.
pub proof fn lemma_levenshtein_metric(a: Seq<char>, b: Seq<char>)
    ensures
        levenshtein_spec(a, a) == 0,
        levenshtein_spec(a, b) == levenshtein_spec(b, a),
        levenshtein_spec(a, b) <= if a.len() >= b.len() {
            a.len()
        } else {
            b.len()
        },
{
    lemma_edit_distance_same(a, a.len() as int);
    lemma_edit_distance_swap(a, b, a.len() as int, b.len() as int);
    lemma_edit_distance_bound(a, b, a.len() as int, b.len() as int);
}

fn chars_vec(s: &str) -> (v: Vec<char>)
    ensures
        v@ == s@,
{
    let n = s.unicode_len();
    let mut v: Vec<char> = Vec::new();
    let mut i: usize = 0;
    while i < n
        invariant
            n == s@.len(),
            i <= n,
            v@ == s@.take(i as int),
        decreases n - i,
    {
        v.push(s.get_char(i));
        assert(v@ =~= s@.take(i + 1));
        i = i + 1;
    }
    assert(s@.take(n as int) =~= s@);
    v
}

/// The Levenshtein distance between `a` and `b`, over characters (not
/// bytes), computed with two rows of the Wagner–Fischer table.
pub fn levenshtein(a: &str, b: &str) -> (d: usize)
    requires
        a@.len() < usize::MAX,
        b@.len() < usize::MAX,
    ensures
        d == levenshtein_spec(a@, b@),
{
    let av = chars_vec(a);
    let bv = chars_vec(b);
    let n = av.len();
    let m = bv.len();
    if n == 0 {
        return m;
    }
    if m == 0 {
        return n;
    }
    let ghost sa = av@;
    let ghost sb = bv@;
    let mut prev: Vec<usize> = Vec::new();
    let mut k: usize = 0;
    while k <= m
        invariant
            m == sb.len(),
            m < usize::MAX,
            k <= m + 1,
            prev@.len() == k,
            forall|x: int| 0 <= x < k ==> #[trigger] prev@[x] == edit_distance(sa, sb, 0, x),
        decreases m + 1 - k,
    {
        prev.push(k);
        k = k + 1;
    }
    let mut i: usize = 1;
    while i <= n
        invariant
            n == sa.len(),
            m == sb.len(),
            av@ == sa,
            bv@ == sb,
            n < usize::MAX,
            m < usize::MAX,
            n > 0,
            m > 0,
            1 <= i <= n + 1,
            prev@.len() == m + 1,
            forall|x: int| 0 <= x <= m ==> #[trigger] prev@[x] == edit_distance(sa, sb, i - 1, x),
        decreases n + 1 - i,
    {
        let mut curr: Vec<usize> = Vec::new();
        curr.push(i);
        let mut j: usize = 1;
        while j <= m
            invariant
                n == sa.len(),
                m == sb.len(),
                av@ == sa,
                bv@ == sb,
                n < usize::MAX,
                m < usize::MAX,
                1 <= i <= n,
                1 <= j <= m + 1,
                prev@.len() == m + 1,
                curr@.len() == j,
                forall|x: int| 0 <= x <= m ==> #[trigger] prev@[x] == edit_distance(sa, sb, i - 1, x),
                forall|x: int| 0 <= x < j ==> #[trigger] curr@[x] == edit_distance(sa, sb, i as int, x),
            decreases m + 1 - j,
        {
            proof {
                lemma_edit_distance_bound(sa, sb, i - 1, j as int);
                lemma_edit_distance_bound(sa, sb, i as int, j - 1);
                lemma_edit_distance_bound(sa, sb, i - 1, j - 1);
            }
            let cost: usize = if av[i - 1] == bv[j - 1] {
                0
            } else {
                1
            };
            let del = prev[j] + 1;
            let ins = curr[j - 1] + 1;
            let sub = prev[j - 1] + cost;
            let best = if del <= ins && del <= sub {
                del
            } else if ins <= sub {
                ins
            } else {
                sub
            };
            curr.push(best);
            j = j + 1;
        }
        prev = curr;
        i = i + 1;
    }
    prev[m]
}

// ---------------------------------------------------------------------------
// Source hashes
// ---------------------------------------------------------------------------

/// The SHA-256 digest of `bytes`, as `sha2` computes it.
pub uninterp spec fn sha256_digest(bytes: Seq<u8>) -> Seq<u8>;

/// `text` in lowercase, as `str::to_lowercase` gives it (Unicode's
/// lowercase mapping).
pub uninterp spec fn lowercased(text: Seq<char>) -> Seq<char>;

/// Calls `sha2::Sha256::digest`. Its result is named by `sha256_digest`;
/// a SHA-256 digest is 32 bytes (the hasher's output size).
#[verifier::external_body]
fn sha256_call(bytes: &[u8]) -> (d: Vec<u8>)
    ensures
        d@ == sha256_digest(bytes@),
        d@.len() == 32,
{
    sha2::Sha256::digest(bytes).to_vec()
}

/// Calls `str::to_lowercase`. Its result is named by `lowercased`.
#[verifier::external_body]
pub(crate) fn lowercase_call(text: &str) -> (s: String)
    ensures
        s@ == lowercased(text@),
{
    text.to_lowercase()
}

/// The lowercase hexadecimal digit for `d` (below 16).
pub open spec fn hex_digit_lower(d: int) -> char {
    seq!['0', '1', '2', '3', '4', '5', '6', '7', '8', '9', 'a', 'b', 'c', 'd', 'e', 'f'][d]
}

/// Two lowercase hexadecimal digits per byte, high nibble first.
pub open spec fn hex_lower(bytes: Seq<u8>) -> Seq<char>
    decreases bytes.len(),
{
    if bytes.len() == 0 {
        Seq::empty()
    } else {
        hex_lower(bytes.drop_last()) + seq![
            hex_digit_lower((bytes.last() / 16) as int),
            hex_digit_lower((bytes.last() % 16) as int),
        ]
    }
}

fn hex_digit_text(d: u8) -> (s: &'static str)
    requires
        d < 16,
    ensures
        s@ == seq![hex_digit_lower(d as int)],
{
    let digits: [&'static str; 16] = ["0", "1", "2", "3", "4", "5", "6", "7", "8", "9", "a", "b", "c", "d", "e", "f"];
    proof {
        reveal_strlit("0");
        reveal_strlit("1");
        reveal_strlit("2");
        reveal_strlit("3");
        reveal_strlit("4");
        reveal_strlit("5");
        reveal_strlit("6");
        reveal_strlit("7");
        reveal_strlit("8");
        reveal_strlit("9");
        reveal_strlit("a");
        reveal_strlit("b");
        reveal_strlit("c");
        reveal_strlit("d");
        reveal_strlit("e");
        reveal_strlit("f");
    }
    digits[d as usize]
}

/// Each byte as two lowercase hexadecimal digits, high nibble first (see
/// `hex_lower`), as `hex::encode` writes it.
pub fn hex_encode(bytes: &[u8]) -> (s: String)
    ensures
        s@ == hex_lower(bytes@),
{
    let mut out = String::new();
    let mut i: usize = 0;
    while i < bytes.len()
        invariant
            i <= bytes@.len(),
            out@ == hex_lower(bytes@.take(i as int)),
        decreases bytes@.len() - i,
    {
        let b = bytes[i];
        assert(bytes@.take(i + 1).drop_last() =~= bytes@.take(i as int));
        out.append(hex_digit_text(b / 16));
        out.append(hex_digit_text(b % 16));
        assert(out@ =~= hex_lower(bytes@.take(i + 1)));
        i = i + 1;
    }
    assert(bytes@.take(bytes@.len() as int) =~= bytes@);
    out
}

proof fn lemma_hex_lower_len(bytes: Seq<u8>)
    ensures
        hex_lower(bytes).len() == 2 * bytes.len(),
    decreases bytes.len(),
{
    if bytes.len() > 0 {
        lemma_hex_lower_len(bytes.drop_last());
    }
}

/// The key of a source text: the SHA-256 of its trimmed, lowercased UTF-8,
/// in lowercase hexadecimal.
pub open spec fn source_hash(text: Seq<char>) -> Seq<char> {
    hex_lower(sha256_digest(encode_utf8(lowercased(trimmed(text)))))
}

/// The key a translation-memory entry is stored under (see `source_hash`):
/// 64 hexadecimal digits.
pub fn hash_source(text: &str) -> (h: String)
    ensures
        h@ == source_hash(text@),
        h@.len() == 64,
{
    let normalised = lowercase_call(trim_str(text));
    let digest = sha256_call(normalised.as_str().as_bytes());
    proof {
        lemma_hex_lower_len(digest@);
    }
    hex_encode(digest.as_slice())
}

/// Texts that differ only in surrounding whitespace or letter case share a
/// key.
pub proof fn lemma_hash_ignores_case_and_padding(a: Seq<char>, b: Seq<char>)
    requires
        lowercased(trimmed(a)) == lowercased(trimmed(b)),
    ensures
        source_hash(a) == source_hash(b),
{
}

} // verus!

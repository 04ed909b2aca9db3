//! Which glossary terms go with a batch of segments sent for translation:
//! the terms whose source text occurs in one of the segments, at most 20
//! in the glossary's order; when there are none, the 10 shortest terms
//! (short proper names add the least noise).
use vstd::prelude::*;
use vstd::set_lib::{lemma_int_range, lemma_len_subset, set_int_range};
use vstd::utf8::*;

verus! {

/// `needle` occurs in `hay` as a run of characters (`str::contains`).
pub open spec fn occurs_in(hay: Seq<char>, needle: Seq<char>) -> bool {
    exists|i: int| 0 <= i && i + needle.len() <= hay.len() && #[trigger] hay.subrange(i, i + needle.len()) == needle
}

/// `needle` occurs in one of the texts.
pub open spec fn occurs_in_any(texts: Seq<Seq<char>>, needle: Seq<char>) -> bool {
    exists|k: int| 0 <= k < texts.len() && occurs_in(#[trigger] texts[k], needle)
}

/// The terms, in order, whose source text occurs in one of the texts.
pub open spec fn found_terms(terms: Seq<(Seq<char>, Seq<char>)>, texts: Seq<Seq<char>>) -> Seq<
    (Seq<char>, Seq<char>),
>
    decreases terms.len(),
{
    if terms.len() == 0 {
        Seq::empty()
    } else {
        let f = found_terms(terms.drop_last(), texts);
        if occurs_in_any(texts, terms.last().0) {
            f.push(terms.last())
        } else {
            f
        }
    }
}

/// The length of a text in UTF-8 bytes (`str::len`).
pub open spec fn byte_len(s: Seq<char>) -> nat {
    encode_utf8(s).len()
}

/// Term `j` comes before term `i` when the terms are ordered by the byte
/// length of their source text, equal lengths keeping their order.
pub open spec fn comes_before(terms: Seq<(Seq<char>, Seq<char>)>, j: int, i: int) -> bool {
    byte_len(terms[j].0) < byte_len(terms[i].0) || (byte_len(terms[j].0) == byte_len(terms[i].0) && j < i)
}

/// `idx` picks the first `min(n, terms.len())` terms of that order, in
/// order: each pick comes before the next, and every term not picked
/// comes after every pick.
pub open spec fn shortest_picks(terms: Seq<(Seq<char>, Seq<char>)>, n: nat, idx: Seq<int>) -> bool {
    &&& idx.len() == if terms.len() < n {
        terms.len()
    } else {
        n
    }
    &&& forall|k: int| 0 <= k < idx.len() ==> 0 <= #[trigger] idx[k] < terms.len()
    &&& forall|k: int| 0 <= k < idx.len() - 1 ==> comes_before(terms, #[trigger] idx[k], idx[k + 1])
    &&& forall|j: int|
        0 <= j < terms.len() && !#[trigger] picked(idx, j) ==> forall|k: int|
            0 <= k < idx.len() ==> comes_before(terms, #[trigger] idx[k], j)
}

/// `j` is one of the picks.
pub open spec fn picked(idx: Seq<int>, j: int) -> bool {
    exists|k: int| 0 <= k < idx.len() && #[trigger] idx[k] == j
}

/// The glossary terms for a batch: the found ones, at most 20 (see
/// `found_terms`); when none is found, the 10 shortest (see
/// `shortest_picks`).
pub open spec fn chosen_terms(
    terms: Seq<(Seq<char>, Seq<char>)>,
    texts: Seq<Seq<char>>,
    out: Seq<(Seq<char>, Seq<char>)>,
) -> bool {
    let f = found_terms(terms, texts);
    if f.len() > 0 {
        out == if f.len() > 20 {
            f.take(20)
        } else {
            f
        }
    } else {
        exists|idx: Seq<int>|
            shortest_picks(terms, 10, idx) && out.len() == idx.len() && forall|k: int|
                0 <= k < idx.len() ==> out[k] == terms[#[trigger] idx[k]]
    }
}

pub open spec fn pairs_view(v: Seq<(String, String)>) -> Seq<(Seq<char>, Seq<char>)> {
    v.map_values(|p: (String, String)| (p.0@, p.1@))
}

pub open spec fn texts_view(v: Seq<String>) -> Seq<Seq<char>> {
    v.map_values(|s: String| s@)
}

fn starts_at(hay: &str, needle: &str, i: usize) -> (r: bool)
    requires
        i + needle@.len() <= hay@.len(),
    ensures
        r == (hay@.subrange(i as int, i + needle@.len()) == needle@),
{
    let m = needle.unicode_len();
    let n = hay.unicode_len();
    let mut k: usize = 0;
    while k < m
        invariant
            m == needle@.len(),
            n == hay@.len(),
            i + m <= hay@.len(),
            k <= m,
            forall|t: int| 0 <= t < k ==> hay@[i + t] == needle@[t],
        decreases m - k,
    {
        if hay.get_char(i + k) != needle.get_char(k) {
            assert(hay@.subrange(i as int, i + m)[k as int] != needle@[k as int]);
            return false;
        }
        k = k + 1;
    }
    assert(hay@.subrange(i as int, i + m) =~= needle@);
    true
}

/// Whether `needle` occurs in `hay` (see `occurs_in`).
pub fn contains_text(hay: &str, needle: &str) -> (r: bool)
    ensures
        r == occurs_in(hay@, needle@),
{
    let n = hay.unicode_len();
    let m = needle.unicode_len();
    if m > n {
        return false;
    }
    let mut i: usize = 0;
    loop
        invariant
            n == hay@.len(),
            m == needle@.len(),
            m <= n,
            i <= n - m,
            forall|p: int| 0 <= p < i ==> #[trigger] hay@.subrange(p, p + m) != needle@,
        decreases n - m - i,
    {
        if starts_at(hay, needle, i) {
            return true;
        }
        if i == n - m {
            assert forall|p: int| 0 <= p && p + m <= n implies #[trigger] hay@.subrange(p, p + m) != needle@ by {
                if p < i {
                }
            }
            return false;
        }
        i = i + 1;
    }
}

fn occurs_in_any_exec(texts: &Vec<String>, needle: &str) -> (r: bool)
    ensures
        r == occurs_in_any(texts_view(texts@), needle@),
{
    let ghost tv = texts_view(texts@);
    let mut k: usize = 0;
    while k < texts.len()
        invariant
            tv == texts_view(texts@),
            k <= texts@.len(),
            forall|q: int| 0 <= q < k ==> !occurs_in(#[trigger] tv[q], needle@),
        decreases texts@.len() - k,
    {
        if contains_text(texts[k].as_str(), needle) {
            assert(occurs_in(tv[k as int], needle@));
            return true;
        }
        k = k + 1;
    }
    false
}

proof fn lemma_order(terms: Seq<(Seq<char>, Seq<char>)>, a: int, b: int)
    requires
        a != b,
    ensures
        comes_before(terms, a, b) != comes_before(terms, b, a),
{
}

proof fn lemma_order_trans(terms: Seq<(Seq<char>, Seq<char>)>, a: int, b: int, c: int)
    requires
        comes_before(terms, a, b),
        comes_before(terms, b, c),
    ensures
        comes_before(terms, a, c),
{
}

proof fn lemma_picked_push(idx: Seq<int>, b: int, x: int)
    ensures
        picked(idx.push(b), x) == (picked(idx, x) || x == b),
{
    let p = idx.push(b);
    if picked(idx, x) {
        let k = choose|k: int| 0 <= k < idx.len() && idx[k] == x;
        assert(p[k] == x);
    }
    if x == b {
        assert(p[idx.len() as int] == x);
    }
    if picked(p, x) {
        let k = choose|k: int| 0 <= k < p.len() && p[k] == x;
        if k < idx.len() {
            assert(idx[k] == x);
        }
    }
}

proof fn lemma_some_unpicked(idx: Seq<int>, n: int)
    requires
        idx.len() < n,
    ensures
        exists|j: int| 0 <= j < n && !picked(idx, j),
{
    if forall|j: int| 0 <= j < n ==> picked(idx, j) {
        lemma_int_range(0, n);
        vstd::seq_lib::seq_to_set_is_finite(idx);
        idx.lemma_cardinality_of_set();
        assert forall|j: int| set_int_range(0, n).contains(j) implies idx.to_set().contains(j) by {
            assert(picked(idx, j));
            let k = choose|k: int| 0 <= k < idx.len() && idx[k] == j;
            assert(idx.contains(j));
        }
        lemma_len_subset(set_int_range(0, n), idx.to_set());
    }
}

/// Whether term `j` comes before term `i` (see `comes_before`).
fn comes_before_exec(terms: &Vec<(String, String)>, j: usize, i: usize) -> (r: bool)
    requires
        j < terms@.len(),
        i < terms@.len(),
    ensures
        r == comes_before(pairs_view(terms@), j as int, i as int),
{
    let lj = terms[j].0.as_str().as_bytes().len();
    let li = terms[i].0.as_str().as_bytes().len();
    assert(pairs_view(terms@)[j as int].0 == terms@[j as int].0@);
    assert(pairs_view(terms@)[i as int].0 == terms@[i as int].0@);
    lj < li || (lj == li && j < i)
}

/// The glossary terms to send with segments whose source texts are
/// `texts` (see `chosen_terms`).
pub fn select_glossary_terms(terms: &Vec<(String, String)>, texts: &Vec<String>) -> (out: Vec<(String, String)>)
    ensures
        chosen_terms(pairs_view(terms@), texts_view(texts@), pairs_view(out@)),
{
    let ghost tv = pairs_view(terms@);
    let ghost xv = texts_view(texts@);
    let mut found: Vec<(String, String)> = Vec::new();
    let mut i: usize = 0;
    while i < terms.len()
        invariant
            tv == pairs_view(terms@),
            xv == texts_view(texts@),
            i <= terms@.len(),
            pairs_view(found@) == found_terms(tv.take(i as int), xv),
        decreases terms@.len() - i,
    {
        assert(tv.take(i + 1).drop_last() =~= tv.take(i as int));
        assert(tv.take(i + 1).last() == (terms@[i as int].0@, terms@[i as int].1@));
        if occurs_in_any_exec(texts, terms[i].0.as_str()) {
            let ghost before = found@;
            found.push((terms[i].0.clone(), terms[i].1.clone()));
            assert(pairs_view(found@) =~= pairs_view(before).push(tv.take(i + 1).last()));
        }
        i = i + 1;
    }
    assert(tv.take(terms.len() as int) =~= tv);
    if found.len() > 0 {
        let mut out: Vec<(String, String)> = Vec::new();
        let mut k: usize = 0;
        while k < found.len() && k < 20
            invariant
                k <= found@.len(),
                k <= 20,
                pairs_view(out@) =~= pairs_view(found@).take(k as int),
            decreases found@.len() - k,
        {
            let ghost before = out@;
            out.push((found[k].0.clone(), found[k].1.clone()));
            assert(pairs_view(out@) =~= pairs_view(before).push(pairs_view(found@)[k as int]));
            k = k + 1;
        }
        assert(pairs_view(found@).take(found@.len() as int) =~= pairs_view(found@));
        return out;
    }
    let n = terms.len();
    let want: usize = if n < 10 {
        n
    } else {
        10
    };
    let mut out: Vec<(String, String)> = Vec::new();
    let ghost mut idx: Seq<int> = Seq::empty();
    let mut last: usize = 0;
    while out.len() < want
        invariant
            tv == pairs_view(terms@),
            n == terms@.len(),
            want <= n,
            want <= 10,
            out@.len() == idx.len(),
            out@.len() <= want,
            out@.len() > 0 ==> last == idx.last(),
            forall|k: int| 0 <= k < idx.len() ==> 0 <= #[trigger] idx[k] < n,
            forall|k: int| 0 <= k < idx.len() - 1 ==> comes_before(tv, #[trigger] idx[k], idx[k + 1]),
            forall|j: int|
                0 <= j < n && !#[trigger] picked(idx, j) ==> forall|k: int|
                    0 <= k < idx.len() ==> comes_before(tv, #[trigger] idx[k], j),
            forall|j: int| #[trigger] picked(idx, j) && out@.len() > 0 ==> !comes_before(tv, idx.last(), j),
            forall|k: int| 0 <= k < idx.len() ==> pairs_view(out@)[k] == tv[#[trigger] idx[k]],
        decreases want - out@.len(),
    {
        proof {
            lemma_some_unpicked(idx, n as int);
        }
        let started = out.len() > 0;
        let mut best: usize = n;
        let mut j: usize = 0;
        while j < n
            invariant
                tv == pairs_view(terms@),
                n == terms@.len(),
                j <= n,
                best <= n,
                best < n ==> best < j,
                started == (out@.len() > 0),
                out@.len() == idx.len(),
                out@.len() > 0 ==> last == idx.last(),
                best < n ==> (!picked(idx, best as int) && forall|q: int|
                    0 <= q < j && !picked(idx, q) && q != best ==> comes_before(tv, best as int, q)),
                best == n ==> forall|q: int| 0 <= q < j ==> picked(idx, q),
                forall|k: int| 0 <= k < idx.len() ==> 0 <= #[trigger] idx[k] < n,
                forall|j2: int|
                    0 <= j2 < n && !#[trigger] picked(idx, j2) ==> forall|k: int|
                        0 <= k < idx.len() ==> comes_before(tv, #[trigger] idx[k], j2),
                forall|j2: int| #[trigger] picked(idx, j2) && out@.len() > 0 ==> !comes_before(tv, idx.last(), j2),
            decreases n - j,
        {
            let candidate = if started {
                comes_before_exec(terms, last, j)
            } else {
                true
            };
            proof {
                if started {
                    if picked(idx, j as int) {
                        assert(!comes_before(tv, idx.last(), j as int));
                    } else {
                        assert(comes_before(tv, idx[idx.len() - 1], j as int));
                    }
                } else {
                    assert(!picked(idx, j as int));
                }
            }
            assert(candidate == !picked(idx, j as int));
            let ghost old_best = best;
            if candidate {
                if best == n || comes_before_exec(terms, j, best) {
                    best = j;
                }
            }
            proof {
                if candidate && old_best < n {
                    lemma_order(tv, j as int, old_best as int);
                    assert forall|q: int| 0 <= q < j && !picked(idx, q) && q != old_best implies comes_before(
                        tv,
                        old_best as int,
                        q,
                    ) by {}
                    assert forall|q: int| 0 <= q < j && !picked(idx, q) && q != best implies comes_before(
                        tv,
                        best as int,
                        q,
                    ) by {
                        if best != old_best && q != old_best {
                            lemma_order_trans(tv, j as int, old_best as int, q);
                        }
                    }
                }
            }
            j = j + 1;
        }
        proof {
            lemma_some_unpicked(idx, n as int);
        }
        assert(best < n);
        let b = best;
        out.push((terms[b].0.clone(), terms[b].1.clone()));
        let ghost old_idx = idx;
        proof {
            idx = idx.push(b as int);
        }
        last = b;
        proof {
            let bi = b as int;
            assert forall|q: int| 0 <= q < n && !picked(old_idx, q) && q != bi implies comes_before(tv, bi, q) by {}
            assert forall|x: int| #[trigger] picked(idx, x) == (picked(old_idx, x) || x == bi) by {
                lemma_picked_push(old_idx, bi, x);
            }
            assert forall|k: int| 0 <= k < idx.len() - 1 implies comes_before(tv, #[trigger] idx[k], idx[k + 1]) by {
                if k == idx.len() - 2 {
                    assert(idx[k] == old_idx.last());
                    assert(comes_before(tv, old_idx[old_idx.len() - 1], bi));
                } else {
                    assert(idx[k] == old_idx[k] && idx[k + 1] == old_idx[k + 1]);
                }
            }
            assert forall|x: int| 0 <= x < n && !#[trigger] picked(idx, x) implies forall|k: int|
                0 <= k < idx.len() ==> comes_before(tv, #[trigger] idx[k], x) by {
                assert forall|k: int| 0 <= k < idx.len() implies comes_before(tv, #[trigger] idx[k], x) by {
                    if k < old_idx.len() {
                        assert(idx[k] == old_idx[k]);
                    }
                }
            }
            assert forall|x: int| #[trigger] picked(idx, x) && out@.len() > 0 implies !comes_before(tv, idx.last(), x) by {
                if x != bi {
                    assert(picked(old_idx, x));
                    let k = choose|k: int| 0 <= k < old_idx.len() && old_idx[k] == x;
                    assert(old_idx[k] == x);
                    assert(comes_before(tv, old_idx[k], bi));
                }
            }
            assert forall|k: int| 0 <= k < idx.len() implies pairs_view(out@)[k] == tv[#[trigger] idx[k]] by {
                if k < old_idx.len() {
                    assert(idx[k] == old_idx[k]);
                }
            }
        }
    }
    proof {
        assert(shortest_picks(tv, 10, idx));
    }
    out
}

} // verus!

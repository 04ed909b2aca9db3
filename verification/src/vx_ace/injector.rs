//! RPG Maker VX Ace injector: writes translations back at the JSON Pointer
//! keys the extractor produced, into a plain tree (`inject`) or into the
//! Marshal stream of a `.rvdata2` file (`inject_and_serialize`).
use vstd::prelude::*;

use crate::json::{
    chars_view, pairs_view, parse_pointer, pointer_tokens, replace_at, resolve, tree, write_all, write_at,
    write_strings, Json, JsonTree, PointerFault,
};
use crate::vx_ace::marshal::{marshal_dumped, marshal_load_call, marshal_tagged, serialize, tagged_tokens, tagged_tokens_of};

verus! {

/// Why an injection stopped.
#[derive(Debug)]
pub enum InjectorError {
    /// No value at the key.
    KeyNotFound(String),
    /// The value at the key is not a string.
    NotAString(String),
    /// The `.rvdata2` data did not load.
    ParseError(String),
}

impl InjectorError {
    /// The error's text.
    pub fn message(&self) -> (m: String)
        ensures
            match self {
                InjectorError::KeyNotFound(k) => m@ == "key not found in Marshal value: "@ + k@,
                InjectorError::NotAString(k) => m@ == "target at key is not a string: "@ + k@,
                InjectorError::ParseError(e) => m@ == "failed to parse .rvdata2: "@ + e@,
            },
    {
        match self {
            InjectorError::KeyNotFound(k) => String::from_str("key not found in Marshal value: ").concat(k.as_str()),
            InjectorError::NotAString(k) => String::from_str("target at key is not a string: ").concat(k.as_str()),
            InjectorError::ParseError(e) => String::from_str("failed to parse .rvdata2: ").concat(e.as_str()),
        }
    }
}

/// Writes each `(json_pointer_key, translated_text)` pair into `value`, in
/// order, stopping at the first key that selects nothing (`KeyNotFound`) or
/// a value that is not a string (`NotAString`); the pairs before it stay
/// written (see `write_all`).
pub fn inject(value: &mut Json, translations: &[(&str, &str)]) -> (r: Result<(), InjectorError>)
    ensures
        tree(*final(value)) == write_all(tree(*old(value)), pairs_view(translations@)).0,
        match write_all(tree(*old(value)), pairs_view(translations@)).1 {
            None => r is Ok,
            Some((PointerFault::Missing, i)) => r matches Err(InjectorError::KeyNotFound(k)) && k@
                == translations@[i].0@,
            Some((PointerFault::NotString, i)) => r matches Err(InjectorError::NotAString(k)) && k@
                == translations@[i].0@,
        },
{
    match write_strings(value, translations) {
        Ok(()) => Ok(()),
        Err((PointerFault::Missing, i)) => Err(InjectorError::KeyNotFound(String::from_str(translations[i].0))),
        Err((PointerFault::NotString, i)) => Err(InjectorError::NotAString(String::from_str(translations[i].0))),
    }
}

/// Each (pointer, text) pair with the tagged tokens of the place its plain
/// pointer stands for in `j` (`None` where it stands for none).
pub open spec fn tagged_pairs(j: Json, ps: Seq<(Seq<char>, Seq<char>)>) -> Seq<(Option<Seq<Seq<char>>>, Seq<char>)> {
    Seq::new(
        ps.len(),
        |i: int|
            (
                match pointer_tokens(ps[i].0) {
                    Some(ts) => tagged_tokens(j, ts),
                    None => None,
                },
                ps[i].1,
            ),
    )
}

/// Writing each text at its tokens in turn, stopping at the first place
/// that is missing or holds no string: the tree reached, and the fault
/// with the index of the pair that failed.
pub open spec fn write_tagged(t: JsonTree, qs: Seq<(Option<Seq<Seq<char>>>, Seq<char>)>) -> (
    JsonTree,
    Option<(PointerFault, int)>,
)
    decreases qs.len(),
{
    if qs.len() == 0 {
        (t, None)
    } else {
        let (t1, e) = write_tagged(t, qs.drop_last());
        if e is Some {
            (t1, e)
        } else {
            let i = qs.len() - 1;
            match qs.last().0 {
                None => (t1, Some((PointerFault::Missing, i))),
                Some(ts) => match resolve(t1, ts) {
                    None => (t1, Some((PointerFault::Missing, i))),
                    Some(JsonTree::Str(_)) => (replace_at(t1, ts, JsonTree::Str(qs.last().1)), None),
                    Some(_) => (t1, Some((PointerFault::NotString, i))),
                },
            }
        }
    }
}

/// What `inject_and_serialize` gives for a loaded tagged value `j`: the
/// translations written at the places their plain pointers stand for, and
/// the tree written back with marshal-rs.
pub open spec fn tagged_injection(j: Json, translations: Seq<(&str, &str)>, r: Result<Vec<u8>, InjectorError>) -> bool {
    match write_tagged(tree(j), tagged_pairs(j, pairs_view(translations))) {
        (t2, None) => match marshal_dumped(t2) {
            Some(b) => r matches Ok(v) && v@ == b,
            None => r matches Err(e) && e is ParseError,
        },
        (_, Some((PointerFault::Missing, i))) => r matches Err(InjectorError::KeyNotFound(k)) && k@
            == translations[i].0@,
        (_, Some((PointerFault::NotString, i))) => r matches Err(InjectorError::NotAString(k)) && k@
            == translations[i].0@,
    }
}

/// Loads a `.rvdata2` file with marshal-rs (else `ParseError`), writes each
/// translation, in order, at the place its plain pointer stands for in the
/// tagged tree (see `tagged_tokens`), stopping at the first key that leads
/// nowhere (`KeyNotFound`) or to no string (`NotAString`), and writes the
/// tree back with marshal-rs (else `ParseError`).
pub fn inject_and_serialize(bytes: &[u8], translations: &[(&str, &str)]) -> (r: Result<Vec<u8>, InjectorError>)
    ensures
        match marshal_tagged(bytes@) {
            None => r matches Err(e) && e is ParseError,
            Some(t) => exists|j: Json| tree(j) == t && tagged_injection(j, translations@, r),
        },
{
    let mut j = match marshal_load_call(bytes) {
        Some(j) => j,
        None => return Err(InjectorError::ParseError(String::from_str("not a Ruby Marshal stream"))),
    };
    let ghost j0 = j;
    let ghost t0 = tree(j);
    assert(t0 == marshal_tagged(bytes@)->0);
    let ghost qs = tagged_pairs(j0, pairs_view(translations@));
    let mut places: Vec<Option<Vec<Vec<char>>>> = Vec::new();
    let mut i: usize = 0;
    while i < translations.len()
        invariant
            i <= translations@.len(),
            j == j0,
            qs == tagged_pairs(j0, pairs_view(translations@)),
            places@.len() == i,
            forall|m: int|
                0 <= m < i ==> match qs[m].0 {
                    Some(ts) => (#[trigger] places@[m]) matches Some(v) && chars_view(v@) == ts,
                    None => places@[m] is None,
                },
        decreases translations@.len() - i,
    {
        let place = match parse_pointer(translations[i].0) {
            None => None,
            Some(ts) => {
                assert(chars_view(ts@).skip(0) =~= chars_view(ts@));
                tagged_tokens_of(&j, &ts, 0)
            },
        };
        places.push(place);
        i = i + 1;
    }
    let mut k: usize = 0;
    assert(qs.take(0) =~= Seq::<(Option<Seq<Seq<char>>>, Seq<char>)>::empty());
    while k < translations.len()
        invariant
            k <= translations@.len(),
            qs == tagged_pairs(j0, pairs_view(translations@)),
            qs.len() == translations@.len(),
            t0 == tree(j0),
            t0 == marshal_tagged(bytes@)->0,
            marshal_tagged(bytes@) is Some,
            places@.len() == translations@.len(),
            forall|m: int|
                0 <= m < translations@.len() ==> match qs[m].0 {
                    Some(ts) => (#[trigger] places@[m]) matches Some(v) && chars_view(v@) == ts,
                    None => places@[m] is None,
                },
            write_tagged(t0, qs.take(k as int)) == (tree(j), None::<(PointerFault, int)>),
        decreases translations@.len() - k,
    {
        assert(qs.take(k + 1).drop_last() =~= qs.take(k as int));
        assert(qs.take(k + 1).last() == qs[k as int]);
        let key = translations[k].0;
        let text = translations[k].1;
        let fault = match &places[k] {
            None => Some(PointerFault::Missing),
            Some(ts) => {
                assert(chars_view(ts@).skip(0) =~= chars_view(ts@));
                match write_at(&mut j, ts, 0, text) {
                    Ok(()) => None,
                    Err(f) => Some(f),
                }
            },
        };
        match fault {
            None => {},
            Some(f) => {
                proof {
                    lemma_write_tagged_stops(t0, qs, k as int + 1);
                }
                let res = match f {
                    PointerFault::Missing => Err(InjectorError::KeyNotFound(String::from_str(key))),
                    PointerFault::NotString => Err(InjectorError::NotAString(String::from_str(key))),
                };
                assert(tagged_injection(j0, translations@, res));
                assert(tree(j0) == marshal_tagged(bytes@)->0);
                assert(exists|x: Json| tree(x) == marshal_tagged(bytes@)->0 && tagged_injection(x, translations@, res));
                return res;
            },
        }
        k = k + 1;
    }
    assert(qs.take(k as int) =~= qs);
    let res = match serialize(&j) {
        Some(b) => Ok(b),
        None => Err(InjectorError::ParseError(String::from_str("the tree is no Marshal arena"))),
    };
    assert(tagged_injection(j0, translations@, res));
    assert(tree(j0) == marshal_tagged(bytes@)->0);
    assert(exists|x: Json| tree(x) == marshal_tagged(bytes@)->0 && tagged_injection(x, translations@, res));
    res
}

/// Once a pair has failed, the pairs after it change nothing.
proof fn lemma_write_tagged_stops(t: JsonTree, qs: Seq<(Option<Seq<Seq<char>>>, Seq<char>)>, n: int)
    requires
        0 <= n <= qs.len(),
        write_tagged(t, qs.take(n)).1 is Some,
    ensures
        write_tagged(t, qs) == write_tagged(t, qs.take(n)),
    decreases qs.len() - n,
{
    if n < qs.len() {
        assert(qs.take(n + 1).drop_last() =~= qs.take(n));
        lemma_write_tagged_stops(t, qs, n + 1);
    } else {
        assert(qs.take(n) =~= qs);
    }
}

} // verus!

//! What a game data file is, by its name.
use vstd::prelude::*;

use crate::wolf::decryptor::str_equal;
use crate::wolf::injector::{chars_of, parse_usize, parsed_usize};

verus! {

/// The end of the run of copies of `p` that starts at `a`.
pub open spec fn prefix_run_end(s: Seq<char>, p: Seq<char>, a: int) -> int
    decreases s.len() - a,
{
    if p.len() > 0 && 0 <= a && a + p.len() <= s.len() && s.subrange(a, a + p.len()) == p {
        prefix_run_end(s, p, a + p.len())
    } else {
        a
    }
}

/// The start of the run of copies of `p` that ends at `b`, not before `a`.
pub open spec fn suffix_run_start(s: Seq<char>, p: Seq<char>, a: int, b: int) -> int
    decreases b - a,
{
    if p.len() > 0 && a <= b - p.len() && b <= s.len() && s.subrange(b - p.len(), b) == p {
        suffix_run_start(s, p, a, b - p.len())
    } else {
        b
    }
}

/// `s` with every leading `Map` and then every trailing `ext` removed (as
/// `trim_start_matches` and `trim_end_matches` do).
pub open spec fn map_number_part(s: Seq<char>, ext: Seq<char>) -> Seq<char> {
    let a = prefix_run_end(s, "Map"@, 0);
    let b = suffix_run_start(s, ext, a, s.len() as int);
    s.subrange(a, b)
}

/// A numbered map file such as `Map001{ext}`: it starts with `Map`, is not
/// the map index `infos`, and what is left once the `Map` and `ext` runs are
/// removed parses as a `u32`.
pub open spec fn numbered_map(s: Seq<char>, infos: Seq<char>, ext: Seq<char>) -> bool {
    &&& s.len() >= 3 && s.take(3) == "Map"@
    &&& s != infos
    &&& (parsed_usize(map_number_part(s, ext)) matches Some(v) && v <= 0xFFFF_FFFFusize)
}

pub(crate) fn matches_at(s: &Vec<char>, a: usize, p: &str) -> (r: bool)
    requires
        a <= s@.len(),
    ensures
        r == (a + p@.len() <= s@.len() && s@.subrange(a as int, a + p@.len()) == p@),
{
    let n = p.unicode_len();
    if n > s.len() - a {
        return false;
    }
    let mut i: usize = 0;
    while i < n
        invariant
            n == p@.len(),
            a + n <= s.len(),
            i <= n,
            forall|j: int| 0 <= j < i ==> s@[a + j] == p@[j],
        decreases n - i,
    {
        if s[a + i] != p.get_char(i) {
            assert(s@.subrange(a as int, a + n)[i as int] != p@[i as int]);
            return false;
        }
        i = i + 1;
    }
    assert(s@.subrange(a as int, a + n) =~= p@);
    true
}

pub(crate) fn is_numbered_map(name: &str, infos: &str, ext: &str) -> (r: bool)
    ensures
        r == numbered_map(name@, infos@, ext@),
{
    let map = "Map";
    proof {
        reveal_strlit("Map");
    }
    let s = chars_of(name);
    if !matches_at(&s, 0, map) {
        assert(!(name@.len() >= 3 && name@.take(3) == "Map"@)) by {
            if name@.len() >= 3 {
                assert(name@.take(3) =~= name@.subrange(0, 3));
            }
        }
        return false;
    }
    assert(name@.take(3) =~= name@.subrange(0, 3));
    if str_equal(name, infos) {
        return false;
    }
    let len = s.len();
    let mut a: usize = 0;
    while matches_at(&s, a, map)
        invariant
            s@ == name@,
            len == s@.len(),
            map@ == "Map"@,
            map@.len() == 3,
            a <= len,
            prefix_run_end(s@, map@, 0) == prefix_run_end(s@, map@, a as int),
        decreases len - a,
    {
        a = a + 3;
    }
    let e = ext.unicode_len();
    let mut b: usize = len;
    if e > 0 {
        while b - a >= e && matches_at(&s, b - e, ext)
            invariant
                s@ == name@,
                len == s@.len(),
                e == ext@.len(),
                e > 0,
                a <= b <= len,
                suffix_run_start(s@, ext@, a as int, len as int) == suffix_run_start(
                    s@,
                    ext@,
                    a as int,
                    b as int,
                ),
            decreases b,
        {
            b = b - e;
        }
    }
    let mut part: Vec<char> = Vec::new();
    let mut k: usize = a;
    while k < b
        invariant
            a <= k <= b <= len,
            len == s@.len(),
            part@ == s@.subrange(a as int, k as int),
        decreases b - k,
    {
        part.push(s[k]);
        assert(part@ =~= s@.subrange(a as int, k + 1));
        k = k + 1;
    }
    match parse_usize(&part) {
        Some(v) => v <= 0xFFFF_FFFF,
        None => false,
    }
}

/// The kind of an RPG Maker MV/MZ data file.
pub open spec fn mv_mz_class(s: Seq<char>) -> Seq<char> {
    if numbered_map(s, "MapInfos.json"@, ".json"@) {
        "map"@
    } else if s == "Actors.json"@ {
        "actors"@
    } else if s == "Armors.json"@ {
        "armors"@
    } else if s == "Classes.json"@ {
        "classes"@
    } else if s == "CommonEvents.json"@ {
        "common_events"@
    } else if s == "Enemies.json"@ {
        "enemies"@
    } else if s == "Items.json"@ {
        "items"@
    } else if s == "MapInfos.json"@ {
        "map_infos"@
    } else if s == "Skills.json"@ {
        "skills"@
    } else if s == "States.json"@ {
        "states"@
    } else if s == "System.json"@ {
        "system"@
    } else if s == "Troops.json"@ {
        "troops"@
    } else if s == "Weapons.json"@ {
        "weapons"@
    } else {
        "unknown"@
    }
}

/// Classifies an MV/MZ data file by name (see `mv_mz_class`).
pub fn classify_mv_mz_file(file_name: &str) -> (r: &'static str)
    ensures
        r@ == mv_mz_class(file_name@),
{
    if is_numbered_map(file_name, "MapInfos.json", ".json") {
        "map"
    } else if str_equal(file_name, "Actors.json") {
        "actors"
    } else if str_equal(file_name, "Armors.json") {
        "armors"
    } else if str_equal(file_name, "Classes.json") {
        "classes"
    } else if str_equal(file_name, "CommonEvents.json") {
        "common_events"
    } else if str_equal(file_name, "Enemies.json") {
        "enemies"
    } else if str_equal(file_name, "Items.json") {
        "items"
    } else if str_equal(file_name, "MapInfos.json") {
        "map_infos"
    } else if str_equal(file_name, "Skills.json") {
        "skills"
    } else if str_equal(file_name, "States.json") {
        "states"
    } else if str_equal(file_name, "System.json") {
        "system"
    } else if str_equal(file_name, "Troops.json") {
        "troops"
    } else if str_equal(file_name, "Weapons.json") {
        "weapons"
    } else {
        "unknown"
    }
}

/// The kind of an RPG Maker VX Ace data file.
pub open spec fn vx_ace_class(s: Seq<char>) -> Seq<char> {
    if numbered_map(s, "MapInfos.rvdata2"@, ".rvdata2"@) {
        "vx_map"@
    } else if s == "Actors.rvdata2"@ {
        "vx_actors"@
    } else if s == "Armors.rvdata2"@ {
        "vx_armors"@
    } else if s == "Classes.rvdata2"@ {
        "vx_classes"@
    } else if s == "CommonEvents.rvdata2"@ {
        "vx_common_events"@
    } else if s == "Enemies.rvdata2"@ {
        "vx_enemies"@
    } else if s == "Items.rvdata2"@ {
        "vx_items"@
    } else if s == "MapInfos.rvdata2"@ {
        "vx_map_infos"@
    } else if s == "Skills.rvdata2"@ {
        "vx_skills"@
    } else if s == "States.rvdata2"@ {
        "vx_states"@
    } else if s == "System.rvdata2"@ {
        "vx_system"@
    } else if s == "Troops.rvdata2"@ {
        "vx_troops"@
    } else if s == "Weapons.rvdata2"@ {
        "vx_weapons"@
    } else {
        "unknown"@
    }
}

/// Classifies a VX Ace data file by name (see `vx_ace_class`).
pub fn classify_vx_ace_file(file_name: &str) -> (r: &'static str)
    ensures
        r@ == vx_ace_class(file_name@),
{
    if is_numbered_map(file_name, "MapInfos.rvdata2", ".rvdata2") {
        "vx_map"
    } else if str_equal(file_name, "Actors.rvdata2") {
        "vx_actors"
    } else if str_equal(file_name, "Armors.rvdata2") {
        "vx_armors"
    } else if str_equal(file_name, "Classes.rvdata2") {
        "vx_classes"
    } else if str_equal(file_name, "CommonEvents.rvdata2") {
        "vx_common_events"
    } else if str_equal(file_name, "Enemies.rvdata2") {
        "vx_enemies"
    } else if str_equal(file_name, "Items.rvdata2") {
        "vx_items"
    } else if str_equal(file_name, "MapInfos.rvdata2") {
        "vx_map_infos"
    } else if str_equal(file_name, "Skills.rvdata2") {
        "vx_skills"
    } else if str_equal(file_name, "States.rvdata2") {
        "vx_states"
    } else if str_equal(file_name, "System.rvdata2") {
        "vx_system"
    } else if str_equal(file_name, "Troops.rvdata2") {
        "vx_troops"
    } else if str_equal(file_name, "Weapons.rvdata2") {
        "vx_weapons"
    } else {
        "unknown"
    }
}

} // verus!

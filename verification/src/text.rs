use vstd::prelude::*;

use crate::skill::{Skill, SkillView};

verus! {

/// ASCII lower-casing of one character; anything else is left alone.
pub open spec fn lower_char(c: char) -> char {
    if 'A' <= c && c <= 'Z' {
        ((c as u32) + 32) as char
    } else {
        c
    }
}

/// Case-insensitive character equality (ASCII case only).
pub open spec fn chars_ci(a: char, b: char) -> bool {
    lower_char(a) == lower_char(b)
}

/// The pattern occurs at offset `k` of the text, ignoring ASCII case.
pub open spec fn matches_at(text: Seq<char>, pat: Seq<char>, k: int) -> bool {
    forall|j: int| 0 <= j < pat.len() ==> chars_ci(text[k + j], #[trigger] pat[j])
}

/// The pattern occurs somewhere in the text, ignoring ASCII case; an empty
/// pattern occurs in every text.
pub open spec fn contains_ci(text: Seq<char>, pat: Seq<char>) -> bool {
    exists|k: int| 0 <= k <= text.len() - pat.len() && matches_at(text, pat, k)
}

/// A record matches a query when the query occurs, ignoring ASCII case, in
/// its name, slug, description or long-form text.
pub open spec fn matches_query(r: SkillView, q: Seq<char>) -> bool {
    ||| contains_ci(r.name, q)
    ||| contains_ci(r.slug, q)
    ||| contains_ci(r.description, q)
    ||| contains_ci(r.skill_md, q)
}

/// Case-insensitive character comparison.
pub fn char_eq_ci(a: char, b: char) -> (r: bool)
    ensures
        r == chars_ci(a, b),
{
    if a == b {
        return true;
    }
    let x = a as u32;
    let y = b as u32;
    if 65 <= x && x <= 90 && x + 32 == y {
        return true;
    }
    if 65 <= y && y <= 90 && y + 32 == x {
        return true;
    }
    false
}

/// True when the pattern occurs in the text, ignoring ASCII case.
pub fn str_contains_ci(text: &str, pat: &str) -> (r: bool)
    ensures
        r == contains_ci(text@, pat@),
{
    let tl = text.unicode_len();
    let pl = pat.unicode_len();
    if pl > tl {
        return false;
    }
    let mut k: usize = 0;
    while k <= tl - pl
        invariant
            tl == text@.len(),
            pl == pat@.len(),
            pl <= tl,
            0 <= k <= tl - pl + 1,
            forall|k2: int| 0 <= k2 < k ==> !matches_at(text@, pat@, k2),
        decreases tl - pl - k + 1,
    {
        let mut j: usize = 0;
        let mut hit = true;
        while j < pl
            invariant
                tl == text@.len(),
                pl == pat@.len(),
                pl <= tl,
                0 <= k <= tl - pl,
                0 <= j <= pl,
                hit ==> forall|j2: int| 0 <= j2 < j ==> chars_ci(text@[k + j2], #[trigger] pat@[j2]),
                !hit ==> !matches_at(text@, pat@, k as int),
            decreases pl - j,
        {
            let tc = text.get_char(k + j);
            let pc = pat.get_char(j);
            if !char_eq_ci(tc, pc) {
                proof {
                    assert(!chars_ci(text@[k + j], pat@[j as int]));
                }
                hit = false;
                j = pl;
            } else {
                j = j + 1;
            }
        }
        if hit {
            proof {
                assert(matches_at(text@, pat@, k as int));
            }
            return true;
        }
        k = k + 1;
    }
    false
}

/// True when the record matches the query, ignoring ASCII case.
pub fn skill_matches(s: &Skill, query: &str) -> (r: bool)
    ensures
        r == matches_query(s@, query@),
{
    if str_contains_ci(s.name.as_str(), query) {
        return true;
    }
    if str_contains_ci(s.slug.as_str(), query) {
        return true;
    }
    if str_contains_ci(s.description.as_str(), query) {
        return true;
    }
    if str_contains_ci(s.skill_md.as_str(), query) {
        return true;
    }
    false
}

} // verus!

//! Folding text the way the full-text index tokenises it, so that what a search matches and
//! what it shows a user agree.
//!
//! The SQLite index uses fts5's `unicode61` tokenizer, which strips diacritics: a chunk
//! holding `façade` is indexed under `facade`, so searching `facade` finds it. Folding both
//! sides with the same function is what keeps the line a search shows in step with the
//! document it found.
//!
//! This covers Latin-1 Supplement, Latin Extended-A and the Latin Extended-B letters that are
//! a base letter plus a mark. It is deliberately not a full Unicode normalisation: the
//! tokenizer's own table is finite too, and anything outside this range (CJK, Greek,
//! Cyrillic, emoji) carries no diacritics to strip. A codepoint this misses degrades a
//! snippet; it can never change which documents a search returns, because the index decides
//! that on its own.

use vstd::prelude::*;
use crate::chars::{ascii_lower, char_lower, lower_chars};
use crate::text::{chars_of, string_of};

verus! {

/// The first character of a character's lower-case form.
pub open spec fn first_lower(c: char) -> char {
    if char_lower(c).len() > 0 {
        char_lower(c)[0]
    } else {
        c
    }
}

fn lower_first(c: char) -> (r: char)
    ensures
        r == first_lower(c),
        c == '\n' <==> r == '\n',
        (c as u32) < 128 ==> r == ascii_lower(c),
{
    let low = lower_chars(c);
    if low.len() > 0 {
        assert(low@.contains(low@[0]));
        low[0]
    } else {
        c
    }
}

/// The base letter for one character, or the character itself when it has no diacritic. Only
/// lower-case letters have one here: text is lowered first.
///
/// The gaps are the characters unicode61 also leaves alone: ×, ÷, ß, þ, ð, the ligatures (æ, Ĳ,
/// Œ) and the letters that are not a base letter with a mark (ŉ, ŋ).
pub open spec fn base_of(c: char) -> char {
    let u = c as u32;
    if 0xE0 <= u <= 0xE5 || 0x100 <= u <= 0x105 || 0x1CE <= u <= 0x1CF || u == 0x1E3 {
        'a'
    } else if u == 0xE7 || 0x106 <= u <= 0x10D {
        'c'
    } else if 0x10E <= u <= 0x111 {
        'd'
    } else if 0xE8 <= u <= 0xEB || 0x112 <= u <= 0x11B {
        'e'
    } else if 0x11C <= u <= 0x123 || u == 0x1E7 || u == 0x1F5 {
        'g'
    } else if 0x124 <= u <= 0x127 {
        'h'
    } else if 0xEC <= u <= 0xEF || 0x128 <= u <= 0x131 || 0x1D0 <= u <= 0x1D1 {
        'i'
    } else if 0x134 <= u <= 0x135 {
        'j'
    } else if 0x136 <= u <= 0x138 || u == 0x1E9 {
        'k'
    } else if 0x139 <= u <= 0x142 {
        'l'
    } else if u == 0xF1 || 0x143 <= u <= 0x148 || u == 0x1F9 {
        'n'
    } else if 0xF2 <= u <= 0xF6 || u == 0xF8 || 0x14C <= u <= 0x151 || 0x1D2 <= u <= 0x1D3 || u == 0x1EB {
        'o'
    } else if 0x154 <= u <= 0x159 {
        'r'
    } else if 0x15A <= u <= 0x161 || u == 0x17F {
        's'
    } else if 0x162 <= u <= 0x167 {
        't'
    } else if 0xF9 <= u <= 0xFC || 0x168 <= u <= 0x173 || 0x1D4 <= u <= 0x1DC {
        'u'
    } else if 0x174 <= u <= 0x175 {
        'w'
    } else if u == 0xFD || u == 0xFF || 0x176 <= u <= 0x178 {
        'y'
    } else if 0x179 <= u <= 0x17E {
        'z'
    } else {
        c
    }
}

fn within(u: u32, lo: u32, hi: u32) -> (r: bool)
    ensures
        r == (lo <= u <= hi),
{
    lo <= u && u <= hi
}

/// The base letter for one character, or the character itself when it has no diacritic.
fn base(c: char) -> (r: char)
    ensures
        r == base_of(c),
{
    let u: u32 = c as u32;
    if u < 0xE0 || u > 0x1F9 {
        return c;
    }
    if within(u, 0xE0, 0xE5) || within(u, 0x100, 0x105) || within(u, 0x1CE, 0x1CF) || u == 0x1E3 {
        'a'
    } else if u == 0xE7 || within(u, 0x106, 0x10D) {
        'c'
    } else if within(u, 0x10E, 0x111) {
        'd'
    } else if within(u, 0xE8, 0xEB) || within(u, 0x112, 0x11B) {
        'e'
    } else if within(u, 0x11C, 0x123) || u == 0x1E7 || u == 0x1F5 {
        'g'
    } else if within(u, 0x124, 0x127) {
        'h'
    } else if within(u, 0xEC, 0xEF) || within(u, 0x128, 0x131) || within(u, 0x1D0, 0x1D1) {
        'i'
    } else if within(u, 0x134, 0x135) {
        'j'
    } else if within(u, 0x136, 0x138) || u == 0x1E9 {
        'k'
    } else if within(u, 0x139, 0x142) {
        'l'
    } else if u == 0xF1 || within(u, 0x143, 0x148) || u == 0x1F9 {
        'n'
    } else if within(u, 0xF2, 0xF6) || u == 0xF8 || within(u, 0x14C, 0x151) || within(u, 0x1D2, 0x1D3) || u == 0x1EB {
        'o'
    } else if within(u, 0x154, 0x159) {
        'r'
    } else if within(u, 0x15A, 0x161) || u == 0x17F {
        's'
    } else if within(u, 0x162, 0x167) {
        't'
    } else if within(u, 0xF9, 0xFC) || within(u, 0x168, 0x173) || within(u, 0x1D4, 0x1DC) {
        'u'
    } else if within(u, 0x174, 0x175) {
        'w'
    } else if u == 0xFD || u == 0xFF || within(u, 0x176, 0x178) {
        'y'
    } else if within(u, 0x179, 0x17E) {
        'z'
    } else {
        c
    }
}

/// A text in lower case, without the diacritics the index strips.
pub open spec fn folded(s: Seq<char>) -> Seq<char> {
    Seq::new(s.len(), |i: int| base_of(first_lower(s[i])))
}

/// Characters in lower case, without the diacritics the index strips. One character can become
/// several in lower case; taking the first keeps the one-for-one property, and the rest are
/// combining marks that would be dropped.
pub fn fold_chars(s: &[char]) -> (out: Vec<char>)
    ensures
        out@ == folded(s@),
        newlines_kept(s@, out@),
        ascii_lowered(s@, out@),
{
    let mut out: Vec<char> = Vec::new();
    let mut i: usize = 0;
    while i < s.len()
        invariant
            i <= s@.len(),
            out@.len() == i,
            forall|k: int| 0 <= k < i ==> #[trigger] out@[k] == base_of(first_lower(s@[k])),
            forall|k: int| 0 <= k < i ==> (s@[k] == '\n' <==> #[trigger] out@[k] == '\n'),
            forall|k: int| 0 <= k < i && (s@[k] as u32) < 128 ==> #[trigger] out@[k] == ascii_lower(s@[k]),
        decreases s@.len() - i,
    {
        out.push(base(lower_first(s[i])));
        i += 1;
    }
    assert(out@ =~= folded(s@));
    out
}

/// Newlines stand in `out` where they stand in `s`, and nowhere else.
pub open spec fn newlines_kept(s: Seq<char>, out: Seq<char>) -> bool {
    out.len() == s.len() && forall|k: int| 0 <= k < s.len() ==> (s[k] == '\n' <==> #[trigger] out[k] == '\n')
}

/// The ASCII characters of `s` stand in `out` in lower case.
pub open spec fn ascii_lowered(s: Seq<char>, out: Seq<char>) -> bool {
    out.len() == s.len() && forall|k: int|
        0 <= k < s.len() && (s[k] as u32) < 128 ==> #[trigger] out[k] == ascii_lower(s[k])
}

/// Folding keeps the number of characters, and folds each by itself: a text in two parts is folded
/// part by part.
pub proof fn law_fold_concat(s: Seq<char>, t: Seq<char>)
    ensures
        folded(s + t) == folded(s) + folded(t),
        folded(s).len() == s.len(),
{
    assert(folded(s + t) =~= folded(s) + folded(t));
}

/// Lowercase `s` and strip the diacritics the index strips.
///
/// Order-preserving and one output character per input character, so a place in the result is
/// the same place in the input — which is what lets a caller turn a match position back into a
/// line number.
pub fn fold(s: &str) -> (r: String)
    ensures
        r@ == folded(s@),
        newlines_kept(s@, r@),
        ascii_lowered(s@, r@),
{
    string_of(fold_chars(chars_of(s).as_slice()).as_slice())
}

} // verus!

//! The front matter block at the start of a document.

use vstd::prelude::*;
use vstd::slice::slice_subrange;

verus! {

/// The next newline at `i` or later, or the end.
pub open spec fn newline_at(s: Seq<u8>, i: int) -> int
    decreases s.len() - i,
{
    if i >= s.len() {
        s.len() as int
    } else if s[i] == 10 {
        i
    } else {
        newline_at(s, i + 1)
    }
}

fn find_newline(s: &[u8], from: usize) -> (r: usize)
    requires
        from <= s@.len(),
    ensures
        r == newline_at(s@, from as int),
        from <= r <= s@.len(),
        r < s@.len() ==> s@[r as int] == 10,
{
    let mut i: usize = from;
    while i < s.len() && s[i] != 10
        invariant
            from <= i <= s@.len(),
            newline_at(s@, from as int) == newline_at(s@, i as int),
        decreases s@.len() - i,
    {
        i += 1;
    }
    i
}

/// Does the line `[i, e)` close a front matter block: `---` or `...`, a carriage return behind it
/// or not?
pub open spec fn closing(s: Seq<u8>, i: int, e: int) -> bool {
    let end = if e > i && s[e - 1] == 13 { e - 1 } else { e };
    end - i == 3 && (s[i] == 45 && s[i + 1] == 45 && s[i + 2] == 45 || s[i] == 46 && s[i + 1] == 46 && s[i + 2] == 46)
}

/// The front matter that begins at `from`: where it ends, and where what follows it begins.
pub open spec fn closes_at(s: Seq<u8>, i: int) -> Option<(int, int)>
    decreases s.len() + 1 - i,
{
    if i < 0 || i >= s.len() {
        None
    } else {
        let e = newline_at(s, i);
        if e < i || e > s.len() {
            None
        } else if closing(s, i, e) {
            Some((i, if e + 1 < s.len() { e + 1 } else { s.len() as int }))
        } else {
            closes_at(s, e + 1)
        }
    }
}

/// Does a document open with a line `---`?
pub open spec fn opens_block(s: Seq<u8>) -> bool {
    s.len() >= 4 && s[0] == 45 && s[1] == 45 && s[2] == 45 && (s[3] == 10 || s.len() >= 5 && s[3] == 13 && s[4] == 10)
}

/// The front matter of a document, and where its body begins.
pub open spec fn frontmatter_of(s: Seq<u8>) -> Option<(Seq<u8>, int)> {
    let from = newline_at(s, 0) + 1;
    if !opens_block(s) {
        None
    } else {
        match closes_at(s, from) {
            Some(p) => Some((s.subrange(from, p.0), p.1)),
            None => None,
        }
    }
}

fn is_closing(s: &[u8], i: usize, e: usize) -> (r: bool)
    requires
        i <= e <= s@.len(),
    ensures
        r == closing(s@, i as int, e as int),
{
    let end: usize = if e > i && s[e - 1] == 13 {
        e - 1
    } else {
        e
    };
    end - i == 3 && (s[i] == 45 && s[i + 1] == 45 && s[i + 2] == 45 || s[i] == 46 && s[i + 1] == 46 && s[i + 2] == 46)
}

/// Split off a leading YAML frontmatter block. Returns `(yaml_text, body_offset)`.
pub fn split_frontmatter<'a>(bytes: &'a [u8]) -> (r: Option<(&'a [u8], usize)>)
    ensures
        match r {
            Some(p) => frontmatter_of(bytes@) == Some((p.0@, p.1 as int)) && p.1 <= bytes@.len(),
            None => frontmatter_of(bytes@) is None,
        },
{
    let n: usize = bytes.len();
    if !(n >= 4 && bytes[0] == 45 && bytes[1] == 45 && bytes[2] == 45 && (bytes[3] == 10 || n >= 5 && bytes[3] == 13
        && bytes[4] == 10)) {
        return None;
    }
    let first = find_newline(bytes, 0);
    if first >= n {
        return None;
    }
    let mut i: usize = first + 1;
    while i < n
        invariant
            n == bytes@.len(),
            first < n,
            first == newline_at(bytes@, 0),
            first < i <= n,
            opens_block(bytes@),
            closes_at(bytes@, first + 1) == closes_at(bytes@, i as int),
        decreases n - i,
    {
        let e = find_newline(bytes, i);
        if is_closing(bytes, i, e) {
            let yaml = slice_subrange(bytes, first + 1, i);
            let off: usize = if e < n && e + 1 < n {
                e + 1
            } else {
                n
            };
            return Some((yaml, off));
        }
        if e >= n {
            assert(closes_at(bytes@, e + 1) is None);
            return None;
        }
        i = e + 1;
    }
    None
}

} // verus!

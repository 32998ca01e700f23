//! Links in a markdown document, with where each target is written so a rename can rewrite it:
//! wikilinks `[[target#anchor|alias]]`, embeds `![[…]]`, and markdown links and images
//! `[text](target#anchor)`. Nothing inside code spans or code blocks is a link.

use std::ops::Range;
use vstd::prelude::*;
use vstd::slice::slice_subrange;
use vstd::string::*;
use vstd::utf8::*;
use crate::chars::{
    begins, begins_with, find_char, find_from, find_text, has_char, is_digit, is_white, next_at, stands_at,
    trim_both_white, trim_white, trim_white_start, white_prefix, white_space,
};
use crate::md::events::{
    link_events, marks, parsed_marks, LinkMark, Mark, FORM_AUTO, FORM_EMAIL, FORM_INLINE, FORM_WIKI, MARKDOWN_OPTIONS,
};
use crate::md::frontmatter::{frontmatter_of, split_frontmatter};
use crate::md::offsets::{byte_at, byte_len, byte_offsets, find_place, lemma_text_bytes, place_at};
use crate::text::{chars_of, lossy_text, string_of, utf8_lossy, utf8_text};

verus! {

#[derive(Debug, PartialEq, Eq)]
pub struct LinkSpan {
    /// `wiki`, `embed`, `md` or `image`.
    pub kind: &'static str,
    /// The target without anchor, alias or query; percent-decoded for markdown links.
    pub target: String,
    pub anchor: Option<String>,
    pub alias: Option<String>,
    /// A URL, email address, query or numbered reference rather than a document.
    pub external: bool,
    /// The bytes of the target as written; `None` when it is not written in place (reference
    /// links, autolinks).
    pub range: Option<Range<usize>>,
    /// Where the link starts.
    pub offset: usize,
    /// A markdown destination written in `<…>`.
    pub angle: bool,
}

/// A link as a mathematical value.
#[verifier::ext_equal]
pub struct Found {
    pub kind: Seq<char>,
    pub target: Seq<char>,
    pub anchor: Option<Seq<char>>,
    pub alias: Option<Seq<char>>,
    pub outside: bool,
    pub range: Option<(int, int)>,
    pub offset: int,
    pub angle: bool,
}

pub open spec fn opt_view(s: Option<String>) -> Option<Seq<char>> {
    match s {
        Some(s) => Some(s@),
        None => None,
    }
}

impl View for LinkSpan {
    type V = Found;

    open spec fn view(&self) -> Found {
        Found {
            kind: self.kind@,
            target: self.target@,
            anchor: opt_view(self.anchor),
            alias: opt_view(self.alias),
            outside: self.external,
            range: match self.range {
                Some(r) => Some((r.start as int, r.end as int)),
                None => None,
            },
            offset: self.offset as int,
            angle: self.angle,
        }
    }
}

pub open spec fn all_found(v: Seq<LinkSpan>) -> Seq<Found> {
    Seq::new(v.len(), |i: int| v[i]@)
}

pub open spec fn letter(c: char) -> bool {
    'a' <= c && c <= 'z' || 'A' <= c && c <= 'Z'
}

/// A character of a URL scheme.
pub open spec fn scheme_char(c: char) -> bool {
    letter(c) || is_digit(c) || c == '+' || c == '.' || c == '-'
}

/// Does a target begin with a URL scheme: a letter, and letters, digits, `+`, `.` or `-` up to a
/// colon?
pub open spec fn schemed(s: Seq<char>) -> bool {
    let i = next_at(s, ':', 0);
    0 < i < s.len() && letter(s[0]) && forall|k: int| 0 <= k < i ==> scheme_char(#[trigger] s[k])
}

fn has_scheme(s: &[char]) -> (r: bool)
    ensures
        r == schemed(s@),
{
    let i = find_char(s, ':', 0);
    if i == 0 || i >= s.len() {
        return false;
    }
    let c = s[0];
    if !('a' <= c && c <= 'z' || 'A' <= c && c <= 'Z') {
        return false;
    }
    let mut k: usize = 0;
    while k < i
        invariant
            k <= i < s@.len(),
            i == next_at(s@, ':', 0),
            forall|j: int| 0 <= j < k ==> scheme_char(#[trigger] s@[j]),
        decreases i - k,
    {
        let c = s[k];
        if !('a' <= c && c <= 'z' || 'A' <= c && c <= 'Z' || '0' <= c && c <= '9' || c == '+' || c == '.' || c == '-') {
            assert(!scheme_char(s@[k as int]));
            return false;
        }
        k += 1;
    }
    true
}

pub open spec fn email(s: Seq<char>) -> bool {
    s.contains('@') && !s.contains('/')
}

fn is_email(s: &[char]) -> (r: bool)
    ensures
        r == email(s@),
{
    has_char(s, '@') && !has_char(s, '/')
}

/// The value of a hexadecimal digit.
pub open spec fn hex_of_byte(b: u8) -> Option<int> {
    if 48 <= b <= 57 {
        Some(b - 48)
    } else if 97 <= b <= 102 {
        Some(b - 87)
    } else if 65 <= b <= 70 {
        Some(b - 55)
    } else {
        None
    }
}

/// Bytes with `%` and two hexadecimal digits read as the byte they spell.
pub open spec fn percent_bytes(b: Seq<u8>, i: int) -> Seq<u8>
    decreases b.len() - i,
{
    if i < 0 || i >= b.len() {
        Seq::empty()
    } else if b[i] == 37 && i + 2 < b.len() && hex_of_byte(b[i + 1]) is Some && hex_of_byte(b[i + 2]) is Some {
        seq![(hex_of_byte(b[i + 1])->0 * 16 + hex_of_byte(b[i + 2])->0) as u8] + percent_bytes(b, i + 3)
    } else {
        seq![b[i]] + percent_bytes(b, i + 1)
    }
}

/// A target decoded, unless that gives no valid text.
pub open spec fn percent_decoded(s: Seq<char>) -> Seq<char> {
    let b = percent_bytes(encode_utf8(s), 0);
    if valid_utf8(b) {
        decode_utf8(b)
    } else {
        s
    }
}

fn hex_digit(b: u8) -> (r: Option<u8>)
    ensures
        match r {
            Some(d) => hex_of_byte(b) == Some(d as int) && d < 16,
            None => hex_of_byte(b) is None,
        },
{
    if 48 <= b && b <= 57 {
        Some(b - 48)
    } else if 97 <= b && b <= 102 {
        Some(b - 87)
    } else if 65 <= b && b <= 70 {
        Some(b - 55)
    } else {
        None
    }
}

pub fn percent_decode(s: &str) -> (r: String)
    ensures
        r@ == percent_decoded(s@),
{
    let b = s.as_bytes();
    let n: usize = b.len();
    let mut out: Vec<u8> = Vec::new();
    let mut i: usize = 0;
    assert(out@ + percent_bytes(b@, 0) =~= percent_bytes(b@, 0));
    while i < n
        invariant
            n == b@.len(),
            i <= n,
            percent_bytes(b@, 0) == out@ + percent_bytes(b@, i as int),
        decreases n - i,
    {
        let ghost before = out@;
        if b[i] == 37 && n - i > 2 {
            match (hex_digit(b[i + 1]), hex_digit(b[i + 2])) {
                (Some(x), Some(y)) => {
                    let v: u8 = x * 16 + y;
                    out.push(v);
                    proof {
                        assert(before + (seq![v] + percent_bytes(b@, i + 3)) =~= out@ + percent_bytes(b@, i + 3));
                    }
                    i += 3;
                },
                _ => {
                    out.push(b[i]);
                    proof {
                        assert(before + (seq![b@[i as int]] + percent_bytes(b@, i + 1)) =~= out@ + percent_bytes(b@, i + 1));
                    }
                    i += 1;
                },
            }
        } else {
            out.push(b[i]);
            proof {
                assert(before + (seq![b@[i as int]] + percent_bytes(b@, i + 1)) =~= out@ + percent_bytes(b@, i + 1));
            }
            i += 1;
        }
    }
    assert(out@ + percent_bytes(b@, i as int) =~= out@);
    match utf8_text(out) {
        Some(t) => t,
        None => String::from_str(s),
    }
}

/// The first `#` or `?` of a destination, or its end.
pub open spec fn cut_at(s: Seq<char>, i: int) -> int
    decreases s.len() - i,
{
    if i >= s.len() {
        s.len() as int
    } else if s[i] == '#' || s[i] == '?' {
        i
    } else {
        cut_at(s, i + 1)
    }
}

fn find_cut(s: &[char]) -> (r: usize)
    ensures
        r == cut_at(s@, 0),
        r <= s@.len(),
{
    let mut i: usize = 0;
    while i < s.len() && s[i] != '#' && s[i] != '?'
        invariant
            i <= s@.len(),
            cut_at(s@, 0) == cut_at(s@, i as int),
        decreases s@.len() - i,
    {
        i += 1;
    }
    i
}

/// A text, unless it is empty.
pub open spec fn unless_empty(s: Seq<char>) -> Option<Seq<char>> {
    if s.len() == 0 {
        None
    } else {
        Some(s)
    }
}

/// The last place of `p` in `s` at `i` or before; -1 if there is none.
pub open spec fn last_from(s: Seq<char>, p: Seq<char>, i: int) -> int
    decreases i + 1,
{
    if i < 0 {
        -1
    } else if stands_at(s, p, i) {
        i
    } else {
        last_from(s, p, i - 1)
    }
}

fn find_last(s: &[char], p: &[char]) -> (r: Option<usize>)
    ensures
        match r {
            Some(i) => last_from(s@, p@, s@.len() as int) == i && stands_at(s@, p@, i as int),
            None => last_from(s@, p@, s@.len() as int) == -1,
        },
{
    let mut i: usize = s.len();
    loop
        invariant
            i <= s@.len(),
            last_from(s@, p@, s@.len() as int) == last_from(s@, p@, i as int),
        decreases i,
    {
        if crate::chars::is_at(s, p, i) {
            return Some(i);
        }
        if i == 0 {
            assert(last_from(s@, p@, -1) == -1);
            return None;
        }
        i -= 1;
    }
}

/// The first white space of a text from place `i` on, or its end.
pub open spec fn white_at(s: Seq<char>, i: int) -> int
    decreases s.len() - i,
{
    if i >= s.len() {
        s.len() as int
    } else if white_space(s[i]) {
        i
    } else {
        white_at(s, i + 1)
    }
}

/// The destination of the inline link or image at places `[a, b)`, and whether it is in `<…>`.
pub open spec fn dest_places(t: Seq<char>, a: int, b: int) -> Option<((int, int), bool)> {
    let src = t.subrange(a, b);
    let i = last_from(src, "]("@, src.len() as int);
    if src.len() == 0 || src.last() != ')' || i < 0 {
        None
    } else {
        let inner = src.subrange(i + 2, src.len() - 1);
        let start = a + i + 2 + (inner.len() - trim_white_start(inner).len());
        let rest = t.subrange(start, b - 1);
        if rest.len() > 0 && rest[0] == '<' {
            let e = next_at(rest, '>', 1);
            if e < rest.len() {
                Some(((start + 1, start + e), true))
            } else {
                None
            }
        } else {
            Some(((start, start + white_at(rest, 0)), false))
        }
    }
}

fn dest_range(t: &Vec<char>, a: usize, b: usize) -> (r: Option<(usize, usize, bool)>)
    requires
        a <= b <= t@.len(),
    ensures
        match r {
            Some(x) => dest_places(t@, a as int, b as int) == Some(((x.0 as int, x.1 as int), x.2)) && a <= x.0 <= x.1 <= b,
            None => dest_places(t@, a as int, b as int) is None,
        },
{
    let src = slice_subrange(t.as_slice(), a, b);
    let n: usize = src.len();
    if n == 0 || src[n - 1] != ')' {
        return None;
    }
    let pat = chars_of("](");
    proof {
        reveal_strlit("](");
    }
    let i: usize = match find_last(src, pat.as_slice()) {
        Some(i) => i,
        None => {
            return None;
        },
    };
    proof {
        assert(src@.subrange(i as int, i + 2)[1] == '(');
        assert(src@[i + 1] == '(');
    }
    let inner = slice_subrange(src, i + 2, n - 1);
    let lead: usize = white_prefix(inner);
    let start: usize = a + i + 2 + lead;
    let rest = slice_subrange(t.as_slice(), start, b - 1);
    if rest.len() > 0 && rest[0] == '<' {
        let e = find_char(rest, '>', 1);
        if e < rest.len() {
            Some((start + 1, start + e, true))
        } else {
            None
        }
    } else {
        let mut k: usize = 0;
        while k < rest.len() && !is_white(rest[k])
            invariant
                k <= rest@.len(),
                white_at(rest@, 0) == white_at(rest@, k as int),
            decreases rest@.len() - k,
        {
            k += 1;
        }
        Some((start, start + k, false))
    }
}

/// The display text of the markdown link or image at places `[a, b)`: what sits between `[` and
/// `](`.
pub open spec fn display_text(t: Seq<char>, a: int, b: int) -> Option<Seq<char>> {
    let src = t.subrange(a, b);
    let open = next_at(src, '[', 0) + 1;
    let close = last_from(src, "]("@, src.len() as int);
    if open > src.len() || close <= open {
        None
    } else {
        unless_empty(trim_white(src.subrange(open, close)))
    }
}

fn link_text(t: &Vec<char>, a: usize, b: usize) -> (r: Option<String>)
    requires
        a <= b <= t@.len(),
    ensures
        opt_view(r) == display_text(t@, a as int, b as int),
{
    let src = slice_subrange(t.as_slice(), a, b);
    let pat = chars_of("](");
    let i = find_char(src, '[', 0);
    if i >= src.len() {
        return None;
    }
    match find_last(src, pat.as_slice()) {
        Some(close) => {
            if close <= i + 1 {
                return None;
            }
            let x = trim_both_white(slice_subrange(src, i + 1, close));
            if x.len() == 0 {
                None
            } else {
                Some(string_of(x))
            }
        },
        None => None,
    }
}

/// Are all characters digits?
pub open spec fn numbered(s: Seq<char>) -> bool {
    s.len() > 0 && forall|k: int| 0 <= k < s.len() ==> is_digit(#[trigger] s[k])
}

fn is_numbered(s: &[char]) -> (r: bool)
    ensures
        r == numbered(s@),
{
    if s.len() == 0 {
        return false;
    }
    let mut k: usize = 0;
    while k < s.len()
        invariant
            k <= s@.len(),
            forall|j: int| 0 <= j < k ==> is_digit(#[trigger] s@[j]),
        decreases s@.len() - k,
    {
        if !('0' <= s[k] && s[k] <= '9') {
            assert(!is_digit(s@[k as int]));
            return false;
        }
        k += 1;
    }
    true
}

/// The anchor of a destination: what is behind its first `#`, from its cut on.
pub open spec fn dest_anchor(dest: Seq<char>) -> Option<Seq<char>> {
    let tail = dest.skip(cut_at(dest, 0));
    let h = next_at(tail, '#', 0);
    if h < tail.len() {
        unless_empty(percent_decoded(tail.skip(h + 1)))
    } else {
        None
    }
}

/// Is the destination something other than a document?
pub open spec fn outside_dest(form: u8, dest: Seq<char>) -> bool {
    form == FORM_AUTO || form == FORM_EMAIL || begins(dest, "?"@) || schemed(dest) || email(dest) || numbered(
        percent_decoded(dest.take(cut_at(dest, 0))),
    )
}

/// The places at bytes `[from, to)`, if both are places of the text in order.
pub open spec fn places(t: Seq<char>, from: int, to: int) -> Option<(int, int)> {
    match (place_at(t, from), place_at(t, to)) {
        (Some(a), Some(b)) => if a <= b {
            Some((a, b))
        } else {
            None
        },
        _ => None,
    }
}

/// The markdown link or image at bytes `[from, to)`.
pub open spec fn markdown_found(
    t: Seq<char>,
    from: int,
    to: int,
    form: u8,
    dest: Seq<char>,
    kind: Seq<char>,
) -> Option<Found> {
    let at = places(t, from, to);
    let span = match at {
        Some(p) => if form == FORM_INLINE {
            dest_places(t, p.0, p.1)
        } else {
            None
        },
        None => None,
    };
    if form == FORM_WIKI || dest.len() == 0 {
        None
    } else {
        Some(
            Found {
                kind,
                target: percent_decoded(dest.take(cut_at(dest, 0))),
                anchor: dest_anchor(dest),
                alias: match at {
                    Some(p) => display_text(t, p.0, p.1),
                    None => None,
                },
                outside: outside_dest(form, dest),
                range: match span {
                    Some(x) => Some(
                        (
                            byte_at(t, x.0.0),
                            byte_at(t, x.0.0 + cut_at(t.subrange(x.0.0, x.0.1), 0)),
                        ),
                    ),
                    None => None,
                },
                offset: from,
                angle: match span {
                    Some(x) => x.1,
                    None => false,
                },
            },
        )
    }
}

fn markdown_link(t: &Vec<char>, offs: &Vec<usize>, from: usize, to: usize, form: u8, dest: &str, kind: &'static str) -> (r: Option<
    LinkSpan,
>)
    requires
        offs@.len() == t@.len() + 1,
        forall|i: int| 0 <= i <= t@.len() ==> (#[trigger] offs@[i]) == byte_at(t@, i),
    ensures
        match r {
            Some(l) => markdown_found(t@, from as int, to as int, form, dest@, kind@) == Some(l@),
            None => markdown_found(t@, from as int, to as int, form, dest@, kind@) is None,
        },
{
    let d = chars_of(dest);
    if form == FORM_WIKI || d.len() == 0 {
        return None;
    }
    let cut = find_cut(d.as_slice());
    let head = slice_subrange(d.as_slice(), 0, cut);
    assert(head@ =~= dest@.take(cut as int));
    let target = percent_decode(string_of(head).as_str());
    let tail = slice_subrange(d.as_slice(), cut, d.len());
    assert(tail@ =~= dest@.skip(cut as int));
    let h = find_char(tail, '#', 0);
    let anchor: Option<String> = if h < tail.len() {
        let behind = slice_subrange(tail, h + 1, tail.len());
        assert(behind@ =~= tail@.skip(h + 1));
        let a = percent_decode(string_of(behind).as_str());
        if chars_of(a.as_str()).len() == 0 {
            None
        } else {
            Some(a)
        }
    } else {
        None
    };
    let tc = chars_of(target.as_str());
    let external: bool = form == FORM_AUTO || form == FORM_EMAIL || begins_with(d.as_slice(), chars_of("?").as_slice())
        || has_scheme(d.as_slice()) || is_email(d.as_slice()) || is_numbered(tc.as_slice());
    let mut range: Option<Range<usize>> = None;
    let mut angle: bool = false;
    let mut alias: Option<String> = None;
    let pa = find_place(t, offs, from);
    let pb = find_place(t, offs, to);
    match (pa, pb) {
        (Some(a), Some(b)) => {
            if a <= b {
                alias = link_text(t, a, b);
                if form == FORM_INLINE {
                    match dest_range(t, a, b) {
                        Some((x, y, in_angle)) => {
                            let raw = slice_subrange(t.as_slice(), x, y);
                            let c = find_cut(raw);
                            range = Some(offs[x]..offs[x + c]);
                            angle = in_angle;
                        },
                        None => {},
                    }
                }
            }
        },
        _ => {},
    }
    Some(LinkSpan { kind, target, anchor, alias, external, range, offset: from, angle })
}

/// Is byte `b` inside any of some spans?
pub open spec fn in_code(code: Seq<(int, int)>, b: int) -> bool {
    exists|k: int| 0 <= k < code.len() && (#[trigger] code[k]).0 <= b < code[k].1
}

/// A wiki target with its anchor: the target's places, and the anchor.
pub struct Target {
    pub from: int,
    pub to: int,
    pub anchor: Option<Seq<char>>,
}

/// The target of a wikilink whose text before its pipe is at places `[i, j)`.
pub open spec fn wiki_target(t: Seq<char>, i: int, j: int) -> Target {
    // In a table the pipe is written `\|`.
    let e = if j > i && t[j - 1] == '\\' { j - 1 } else { j };
    let before = t.subrange(i, e);
    let h = next_at(before, '#', 0);
    let raw = before.take(h);
    let lead = raw.len() - trim_white_start(raw).len();
    Target {
        from: i + lead,
        to: i + lead + trim_white(raw).len(),
        anchor: if h < before.len() { unless_empty(trim_white(before.skip(h + 1))) } else { None },
    }
}

/// The wikilink whose inside is at places `[i, j)`.
pub open spec fn wiki_found(t: Seq<char>, i: int, j: int) -> Found {
    let inner = t.subrange(i, j);
    let p = next_at(inner, '|', 0);
    let w = wiki_target(t, i, i + p);
    let target = t.subrange(w.from, w.to);
    let embed = i > 2 && t[i - 3] == '!';
    Found {
        kind: if embed { "embed"@ } else { "wiki"@ },
        target,
        anchor: w.anchor,
        alias: if p < inner.len() { unless_empty(trim_white(inner.skip(p + 1))) } else { None },
        outside: schemed(target) || email(target),
        range: Some((byte_at(t, w.from), byte_at(t, w.to))),
        offset: byte_at(t, if embed { i - 3 } else { i - 2 }),
        angle: false,
    }
}

/// The wikilinks of a text from place `i` on. Those that begin inside code are none; nor are
/// empty ones and those that span lines.
pub open spec fn wiki_links(t: Seq<char>, code: Seq<(int, int)>, i: int) -> Seq<Found>
    decreases t.len() - i,
{
    if i < 0 || i + 2 > t.len() {
        Seq::empty()
    } else if !stands_at(t, "[["@, i) || in_code(code, byte_at(t, i)) {
        wiki_links(t, code, i + 1)
    } else {
        match find_from(t, "]]"@, i + 2) {
            None => Seq::empty(),
            Some(j) => if j < i + 2 || j + 2 > t.len() {
                Seq::empty()
            } else if j == i + 2 || t.subrange(i + 2, j).contains('\n') {
                wiki_links(t, code, i + 2)
            } else {
                seq![wiki_found(t, i + 2, j)] + wiki_links(t, code, j + 2)
            },
        }
    }
}

/// A text trimmed, unless that leaves nothing.
fn trimmed_text(s: &[char]) -> (r: Option<String>)
    ensures
        opt_view(r) == unless_empty(trim_white(s@)),
{
    let x = trim_both_white(s);
    if x.len() == 0 {
        None
    } else {
        Some(string_of(x))
    }
}

/// The places of a wikilink's target, and its anchor.
fn wiki_parts(t: &Vec<char>, i: usize, j: usize) -> (r: (usize, usize, Option<String>))
    requires
        i <= j <= t@.len(),
    ensures
        (Target { from: r.0 as int, to: r.1 as int, anchor: opt_view(r.2) }) == wiki_target(t@, i as int, j as int),
        i <= r.0 <= r.1 <= j,
{
    // In a table the pipe is written `\\|`.
    let e: usize = if j > i && t[j - 1] == '\\' {
        j - 1
    } else {
        j
    };
    let before = slice_subrange(t.as_slice(), i, e);
    let h = find_char(before, '#', 0);
    let raw = slice_subrange(before, 0, h);
    assert(raw@ =~= before@.take(h as int));
    let lead: usize = white_prefix(raw);
    let target = trim_both_white(raw);
    proof {
        lemma_trimmed_part(raw@, lead as int);
    }
    let anchor: Option<String> = if h < before.len() {
        let behind = slice_subrange(before, h + 1, before.len());
        assert(behind@ =~= before@.skip(h + 1));
        trimmed_text(behind)
    } else {
        None
    };
    (i + lead, i + lead + target.len(), anchor)
}

/// A wikilink, its inside at places `[i, j)`.
fn wiki_link(t: &Vec<char>, offs: &Vec<usize>, i: usize, j: usize) -> (l: LinkSpan)
    requires
        2 <= i <= j <= t@.len(),
        offs@.len() == t@.len() + 1,
        forall|i: int| 0 <= i <= t@.len() ==> (#[trigger] offs@[i]) == byte_at(t@, i),
    ensures
        l@ == wiki_found(t@, i as int, j as int),
{
    let inner = slice_subrange(t.as_slice(), i, j);
    let p = find_char(inner, '|', 0);
    let alias: Option<String> = if p < inner.len() {
        let behind = slice_subrange(inner, p + 1, inner.len());
        assert(behind@ =~= inner@.skip(p + 1));
        trimmed_text(behind)
    } else {
        None
    };
    let (from, to, anchor): (usize, usize, Option<String>) = wiki_parts(t, i, i + p);
    let embed: bool = i > 2 && t[i - 3] == '!';
    let target = slice_subrange(t.as_slice(), from, to);
    let external: bool = has_scheme(target) || is_email(target);
    LinkSpan {
        kind: if embed {
            "embed"
        } else {
            "wiki"
        },
        target: string_of(target),
        anchor,
        alias,
        external,
        range: Some(offs[from]..offs[to]),
        offset: offs[if embed {
            i - 3
        } else {
            i - 2
        }],
        angle: false,
    }
}

/// A text trimmed is the part of it behind its leading white space.
proof fn lemma_trimmed_part(s: Seq<char>, lead: int)
    requires
        0 <= lead <= s.len(),
        s.skip(lead) == trim_white_start(s),
    ensures
        lead + trim_white(s).len() <= s.len(),
        trim_white(s) == s.subrange(lead, lead + trim_white(s).len()),
{
    lemma_trim_end_part(trim_white_start(s));
    let t = trim_white_start(s);
    assert(s.subrange(lead, lead + trim_white(s).len()) =~= t.take(trim_white(s).len() as int));
}

proof fn lemma_trim_end_part(s: Seq<char>)
    ensures
        crate::chars::trim_white_end(s).len() <= s.len(),
        crate::chars::trim_white_end(s) == s.take(crate::chars::trim_white_end(s).len() as int),
    decreases s.len(),
{
    if s.len() > 0 && white_space(s.last()) {
        lemma_trim_end_part(s.drop_last());
        let n = crate::chars::trim_white_end(s).len() as int;
        assert(s.take(n) =~= s.drop_last().take(n));
    } else {
        assert(s.take(s.len() as int) =~= s);
    }
}

spec fn spans_of(code: Seq<(usize, usize)>) -> Seq<(int, int)> {
    Seq::new(code.len(), |i: int| (code[i].0 as int, code[i].1 as int))
}

fn inside_code(code: &Vec<(usize, usize)>, b: usize) -> (r: bool)
    ensures
        r == in_code(spans_of(code@), b as int),
{
    let mut k: usize = 0;
    while k < code.len()
        invariant
            k <= code@.len(),
            forall|j: int| 0 <= j < k ==> !((#[trigger] spans_of(code@)[j]).0 <= b < spans_of(code@)[j].1),
        decreases code@.len() - k,
    {
        if code[k].0 <= b && b < code[k].1 {
            assert(spans_of(code@)[k as int].0 <= b < spans_of(code@)[k as int].1);
            return true;
        }
        k += 1;
    }
    false
}

/// Appends the wikilinks of a text.
fn scan_wiki(t: &Vec<char>, offs: &Vec<usize>, code: &Vec<(usize, usize)>, out: &mut Vec<LinkSpan>)
    requires
        offs@.len() == t@.len() + 1,
        forall|i: int| 0 <= i <= t@.len() ==> (#[trigger] offs@[i]) == byte_at(t@, i),
    ensures
        all_found(final(out)@) == all_found(old(out)@) + wiki_links(t@, spans_of(code@), 0),
{
    let n: usize = t.len();
    let open = chars_of("[[");
    let close = chars_of("]]");
    let ghost cv = spans_of(code@);
    let ghost start = all_found(out@);
    let ghost all = wiki_links(t@, cv, 0);
    proof {
        reveal_strlit("[[");
        reveal_strlit("]]");
        assert(all_found(out@) + all =~= start + all);
    }
    let mut i: usize = 0;
    while i < n && n - i >= 2
        invariant
            n == t@.len(),
            i <= n,
            open@ == "[["@,
            close@ == "]]"@,
            close@.len() == 2,
            cv == spans_of(code@),
            offs@.len() == t@.len() + 1,
            forall|i: int| 0 <= i <= t@.len() ==> (#[trigger] offs@[i]) == byte_at(t@, i),
            start == all_found(old(out)@),
            all == wiki_links(t@, cv, 0),
            start + all == all_found(out@) + wiki_links(t@, cv, i as int),
        decreases n - i,
    {
        if !crate::chars::is_at(t.as_slice(), open.as_slice(), i) || inside_code(code, offs[i]) {
            i += 1;
            continue;
        }
        match find_text(t.as_slice(), close.as_slice(), i + 2) {
            None => {
                assert(all_found(out@) + wiki_links(t@, cv, i as int) =~= all_found(out@));
                return;
            },
            Some(j) => {
                let inner = slice_subrange(t.as_slice(), i + 2, j);
                if inner.len() == 0 || has_char(inner, '\n') {
                    i += 2;
                } else {
                    let l = wiki_link(t, offs, i + 2, j);
                    let ghost before = out@;
                    out.push(l);
                    proof {
                        assert(all_found(out@) =~= all_found(before).push(l@));
                        let rest = wiki_links(t@, cv, j + 2);
                        assert(all_found(before) + (seq![l@] + rest) =~= all_found(out@) + rest);
                    }
                    i = j + 2;
                }
            },
        }
    }
    assert(all_found(out@) + wiki_links(t@, cv, i as int) =~= all_found(out@));
}

/// A link put among others in the order of where they start, behind those at the same place.
pub open spec fn link_put(ls: Seq<Found>, l: Found) -> Seq<Found>
    decreases ls.len(),
{
    if ls.len() == 0 || ls.last().offset <= l.offset {
        ls.push(l)
    } else {
        link_put(ls.drop_last(), l).push(ls.last())
    }
}

/// Links in the order of where they start.
pub open spec fn in_order(ls: Seq<Found>) -> Seq<Found>
    decreases ls.len(),
{
    if ls.len() == 0 {
        Seq::empty()
    } else {
        link_put(in_order(ls.drop_last()), ls.last())
    }
}

/// Puts a link among others.
fn put_link(ls: Vec<LinkSpan>, l: LinkSpan) -> (out: Vec<LinkSpan>)
    ensures
        all_found(out@) == link_put(all_found(ls@), l@),
{
    let mut out = ls;
    let ghost all = all_found(out@);
    let ghost one = l@;
    let mut i: usize = out.len();
    proof {
        assert(all.take(i as int) =~= all);
        assert(all.skip(i as int) =~= Seq::empty());
        assert(link_put(all.take(i as int), one) + all.skip(i as int) =~= link_put(all, one));
    }
    while i > 0 && out[i - 1].offset > l.offset
        invariant
            i <= out@.len(),
            all == all_found(out@),
            one == l@,
            link_put(all, one) == link_put(all.take(i as int), one) + all.skip(i as int),
        decreases i,
    {
        proof {
            let t = all.take(i as int);
            assert(t.last() == out@[i - 1]@);
            assert(t.drop_last() =~= all.take(i - 1));
            assert(link_put(all.take(i - 1), one).push(t.last()) + all.skip(i as int) =~= link_put(all.take(i - 1), one)
                + all.skip(i - 1));
        }
        i -= 1;
    }
    proof {
        let t = all.take(i as int);
        if i > 0 {
            assert(t.last() == out@[i - 1]@);
        }
        assert(link_put(t, one) == t.push(one));
    }
    out.insert(i, l);
    assert(all_found(out@) =~= all.take(i as int).push(one) + all.skip(i as int));
    out
}

/// A byte of the body as a byte of the document.
pub open spec fn in_doc(body: int, b: usize, len: int) -> int {
    if body + b > len {
        len
    } else {
        body + b
    }
}

/// The code spans among the first `n` events, in bytes of the document.
pub open spec fn code_spans(ms: Seq<(usize, usize, Mark)>, body: int, len: int, n: int) -> Seq<(int, int)>
    decreases n,
{
    if n <= 0 {
        Seq::empty()
    } else {
        let m = ms[n - 1];
        let front = code_spans(ms, body, len, n - 1);
        if m.2 is Code {
            front.push((in_doc(body, m.0, len), in_doc(body, m.1, len)))
        } else {
            front
        }
    }
}

/// The link an event is, if it is one.
pub open spec fn event_link(t: Seq<char>, m: (usize, usize, Mark), body: int, len: int) -> Option<Found> {
    let from = in_doc(body, m.0, len);
    let to = in_doc(body, m.1, len);
    match m.2 {
        Mark::Link(form, dest) => markdown_found(t, from, to, form, dest, "md"@),
        Mark::Image(form, dest) => markdown_found(t, from, to, form, dest, "image"@),
        _ => None,
    }
}

/// The markdown links among the first `n` events.
pub open spec fn event_links(t: Seq<char>, ms: Seq<(usize, usize, Mark)>, body: int, len: int, n: int) -> Seq<Found>
    decreases n,
{
    if n <= 0 {
        Seq::empty()
    } else {
        let front = event_links(t, ms, body, len, n - 1);
        match event_link(t, ms[n - 1], body, len) {
            Some(l) => front.push(l),
            None => front,
        }
    }
}

/// Where the body of a text begins, in bytes: behind its front matter.
pub open spec fn body_start(t: Seq<char>) -> int {
    match frontmatter_of(encode_utf8(t)) {
        Some(p) => p.1,
        None => 0,
    }
}

/// The text from byte `b` on; nothing if no character begins there.
pub open spec fn text_from(t: Seq<char>, b: int) -> Seq<char> {
    match place_at(t, b) {
        Some(i) => t.skip(i),
        None => Seq::empty(),
    }
}

/// The links of a text, given the events of its body.
pub open spec fn links_in(t: Seq<char>, ms: Seq<(usize, usize, Mark)>) -> Seq<Found> {
    let body = body_start(t);
    let len = byte_len(t) as int;
    let n = ms.len() as int;
    in_order(event_links(t, ms, body, len, n) + wiki_links(t, code_spans(ms, body, len, n), 0))
}

/// Every link of a text, given the events of its body, in document order.
pub fn links_of_events(text: &str, events: &Vec<(usize, usize, LinkMark)>) -> (out: Vec<LinkSpan>)
    ensures
        all_found(out@) == links_in(text@, marks(events@)),
{
    let t = chars_of(text);
    let offs = byte_offsets(text, &t);
    let len: usize = text.as_bytes().len();
    proof {
        lemma_text_bytes(text@);
    }
    let body: usize = match split_frontmatter(text.as_bytes()) {
        Some(p) => p.1,
        None => 0,
    };
    let ghost ms = marks(events@);
    let mut code: Vec<(usize, usize)> = Vec::new();
    let mut found: Vec<LinkSpan> = Vec::new();
    let mut i: usize = 0;
    assert(spans_of(code@) =~= Seq::empty());
    assert(all_found(found@) =~= Seq::empty());
    while i < events.len()
        invariant
            i <= events@.len(),
            t@ == text@,
            ms == marks(events@),
            len == byte_len(text@),
            body == body_start(text@),
            body <= len,
            offs@.len() == t@.len() + 1,
            forall|i: int| 0 <= i <= t@.len() ==> (#[trigger] offs@[i]) == byte_at(t@, i),
            spans_of(code@) == code_spans(ms, body as int, len as int, i as int),
            all_found(found@) == event_links(text@, ms, body as int, len as int, i as int),
        decreases events@.len() - i,
    {
        let e = &events[i];
        let from: usize = if e.0 > len - body {
            len
        } else {
            body + e.0
        };
        let to: usize = if e.1 > len - body {
            len
        } else {
            body + e.1
        };
        let ghost code0 = code@;
        let ghost found0 = found@;
        assert(ms[i as int] == (e.0, e.1, e.2@));
        match &e.2 {
            LinkMark::Code => {
                code.push((from, to));
                assert(spans_of(code@) =~= spans_of(code0).push((from as int, to as int)));
            },
            LinkMark::Link(form, dest) => match markdown_link(&t, &offs, from, to, *form, dest.as_str(), "md") {
                Some(l) => {
                    found.push(l);
                    assert(all_found(found@) =~= all_found(found0).push(l@));
                },
                None => {},
            },
            LinkMark::Image(form, dest) => match markdown_link(&t, &offs, from, to, *form, dest.as_str(), "image") {
                Some(l) => {
                    found.push(l);
                    assert(all_found(found@) =~= all_found(found0).push(l@));
                },
                None => {},
            },
            LinkMark::Other => {},
        }
        i += 1;
    }
    scan_wiki(&t, &offs, &code, &mut found);
    let ghost all = all_found(found@);
    let mut out: Vec<LinkSpan> = Vec::new();
    assert(all_found(out@) =~= Seq::empty());
    assert(all.take(0) =~= Seq::empty());
    let n: usize = found.len();
    // Last first, to be taken from the end.
    let mut back: Vec<LinkSpan> = Vec::new();
    while found.len() > 0
        invariant
            n == all.len(),
            found@.len() + back@.len() == n,
            forall|j: int| 0 <= j < found@.len() ==> (#[trigger] found@[j])@ == all[j],
            forall|j: int| 0 <= j < back@.len() ==> (#[trigger] back@[j])@ == all[n - 1 - j],
        decreases found@.len(),
    {
        let ghost f0 = found@;
        let l = found.pop().unwrap();
        proof {
            assert(f0[f0.len() - 1]@ == all[f0.len() - 1]);
        }
        back.push(l);
    }
    let mut k: usize = 0;
    while k < n
        invariant
            k <= n,
            n == all.len(),
            back@.len() == n - k,
            forall|j: int| 0 <= j < n - k ==> (#[trigger] back@[j])@ == all[n - 1 - j],
            all_found(out@) == in_order(all.take(k as int)),
        decreases n - k,
    {
        let ghost before = back@;
        let l = back.pop().unwrap();
        proof {
            assert(before[n - 1 - k]@ == all[k as int]);
            assert(all.take(k + 1).drop_last() =~= all.take(k as int));
            assert(all.take(k + 1).last() == l@);
            assert forall|j: int| 0 <= j < n - k - 1 implies (#[trigger] back@[j])@ == all[n - 1 - j] by {
                assert(back@[j] == before[j]);
            }
        }
        out = put_link(out, l);
        k += 1;
    }
    assert(all.take(k as int) =~= all);
    out
}

/// The events of the body of a text.
pub open spec fn body_marks(t: Seq<char>) -> Seq<(usize, usize, Mark)> {
    parsed_marks(MARKDOWN_OPTIONS, text_from(t, body_start(t)))
}

/// The part of a text from byte `b` on.
pub(crate) fn tail_text(text: &str, b: usize) -> (r: String)
    ensures
        r@ == text_from(text@, b as int),
{
    let t = chars_of(text);
    let offs = byte_offsets(text, &t);
    match find_place(&t, &offs, b) {
        Some(i) => {
            let s = slice_subrange(t.as_slice(), i, t.len());
            assert(s@ =~= t@.skip(i as int));
            string_of(s)
        },
        None => String::new(),
    }
}

/// Every link in `bytes`, in document order.
pub fn scan(bytes: &[u8]) -> (out: Vec<LinkSpan>)
    ensures
        all_found(out@) == links_in(utf8_lossy(bytes@), body_marks(utf8_lossy(bytes@))),
{
    let text = lossy_text(bytes);
    let body: usize = match split_frontmatter(text.as_str().as_bytes()) {
        Some(p) => p.1,
        None => 0,
    };
    let tail = tail_text(text.as_str(), body);
    let events = link_events(MARKDOWN_OPTIONS, tail.as_str());
    links_of_events(text.as_str(), &events)
}

} // verus!

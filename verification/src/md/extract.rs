//! Markdown structure extractor: sections (heading path, level, line span), links (wikilinks
//! and relative markdown links) and YAML frontmatter.
//!
//! Runs on the full materialized document after each commit. Only this module knows markdown;
//! core is format-agnostic.

use vstd::prelude::*;
use vstd::slice::slice_subrange;
use vstd::string::*;
use crate::chars::{joined_with, lower_case, lowered, push_chars, trim_both_white, trim_white};
use crate::chunker::{lemma_newlines_concat, newlines};
use crate::linelaw::aligned;
use crate::md::events::{heading_events, heads, parsed_heads, Head, HeadMark, MARKDOWN_OPTIONS};
use crate::md::frontmatter::{frontmatter_of, split_frontmatter};
use crate::md::links::{
    all_found, body_marks, in_doc, links_in, opt_view, scan, tail_text, text_from, Found, LinkSpan,
};
use crate::md::offsets::{byte_len, lemma_text_bytes, line_number, LineTable};
use crate::md::resolve::{heading_tail, last_heading};
use crate::md::yaml::yaml_data;
use crate::structure::{parts, Link, Part, Section, Structure, StructureExtractor};
use crate::text::{chars_of, lossy_text, same_text, string_of, utf8_lossy};
use crate::tree::{law_line_start_unique, starts_line};
use crate::value::{holds, Value};
use crate::words::{count_words, lemma_words_bound, word_count};

verus! {

#[derive(Clone, Copy, Debug)]
pub struct MarkdownExtractor;

impl StructureExtractor for MarkdownExtractor {
    fn extract(&self, bytes: &[u8]) -> (r: Structure)
        ensures
            extracted(bytes@, r),
    {
        extract(bytes)
    }
}

/// Front matter YAML (without its `---` lines) as data, as it is kept for the `frontmatter` table.
pub fn parse_yaml(text: &str) -> (r: Option<Value>)
    ensures
        r matches Some(v) && holds(v, yaml_data(text@)),
{
    crate::md::yaml::parse(text)
}

/// A heading as a mathematical value.
#[verifier::ext_equal]
pub struct Title {
    pub level: u32,
    pub text: Seq<char>,
    pub line: nat,
}

/// A heading that has begun: its level, its byte, and its text so far.
pub struct Begun {
    pub level: u32,
    pub at: int,
    pub text: Seq<char>,
}

/// The headings among the first `n` events, and the one that has begun and not ended.
pub open spec fn titles(doc: Seq<u8>, hs: Seq<(usize, Head)>, body: int, n: int) -> (Seq<Title>, Option<Begun>)
    decreases n,
{
    if n <= 0 {
        (Seq::empty(), None)
    } else {
        let (done, cur) = titles(doc, hs, body, n - 1);
        match hs[n - 1].1 {
            Head::Start(level) => (
                done,
                Some(Begun { level, at: in_doc(body, hs[n - 1].0, doc.len() as int), text: Seq::empty() }),
            ),
            Head::Text(t) => (
                done,
                match cur {
                    Some(b) => Some(Begun { text: b.text + t, ..b }),
                    None => None,
                },
            ),
            Head::End => match cur {
                Some(b) => (
                    done.push(Title { level: b.level, text: trim_white(b.text), line: line_number(doc, b.at) }),
                    None,
                ),
                None => (done, None),
            },
            Head::Other => (done, cur),
        }
    }
}

struct Heading {
    level: u32,
    text: String,
    line: u64,
}

impl View for Heading {
    type V = Title;

    closed spec fn view(&self) -> Title {
        Title { level: self.level, text: self.text@, line: self.line as nat }
    }
}

spec fn titles_of(v: Seq<Heading>) -> Seq<Title> {
    Seq::new(v.len(), |i: int| v[i]@)
}

/// The headings that some events tell of.
fn read_headings(doc: &[u8], table: &LineTable, events: &Vec<(usize, HeadMark)>, body: usize) -> (out: Vec<Heading>)
    requires
        table.tells(doc@),
        body <= doc@.len(),
    ensures
        titles_of(out@) == titles(doc@, heads(events@), body as int, events@.len() as int).0,
        forall|i: int| 0 <= i < out@.len() ==> 1 <= (#[trigger] out@[i]).line,
{
    let ghost hs = heads(events@);
    let n: usize = doc.len();
    let mut out: Vec<Heading> = Vec::new();
    let mut open: bool = false;
    let mut level: u32 = 0;
    let mut at: usize = 0;
    let mut text: Vec<char> = Vec::new();
    let mut i: usize = 0;
    assert(titles_of(out@) =~= Seq::empty());
    while i < events.len()
        invariant
            i <= events@.len(),
            n == doc@.len(),
            body <= n,
            table.tells(doc@),
            hs == heads(events@),
            titles_of(out@) == titles(doc@, hs, body as int, i as int).0,
            open ==> titles(doc@, hs, body as int, i as int).1 == Some(
                (Begun { level, at: at as int, text: text@ }),
            ),
            !open ==> titles(doc@, hs, body as int, i as int).1 is None,
            forall|i: int| 0 <= i < out@.len() ==> 1 <= (#[trigger] out@[i]).line,
        decreases events@.len() - i,
    {
        let e = &events[i];
        assert(hs[i as int] == (e.0, e.1@));
        match &e.1 {
            HeadMark::Start(l) => {
                open = true;
                level = *l;
                at = if e.0 > n - body {
                    n
                } else {
                    body + e.0
                };
                text = Vec::new();
                assert(text@ =~= Seq::empty());
            },
            HeadMark::Text(t) => {
                if open {
                    push_chars(&mut text, chars_of(t.as_str()).as_slice());
                }
            },
            HeadMark::End => {
                if open {
                    let h = Heading {
                        level,
                        text: string_of(trim_both_white(text.as_slice())),
                        line: table.line(at) as u64,
                    };
                    let ghost before = out@;
                    out.push(h);
                    assert(titles_of(out@) =~= titles_of(before).push(h@));
                    open = false;
                }
            },
            HeadMark::Other => {},
        }
        i += 1;
    }
    out
}

/// Headings above a new one of some level.
pub open spec fn above(stack: Seq<Title>, level: u32) -> Seq<Title>
    decreases stack.len(),
{
    if stack.len() > 0 && stack.last().level >= level {
        above(stack.drop_last(), level)
    } else {
        stack
    }
}

/// The headings that heading `i` stands under, and itself.
pub open spec fn lineage(hs: Seq<Title>, i: int) -> Seq<Title>
    decreases i + 1,
{
    if i < 0 {
        Seq::empty()
    } else {
        above(lineage(hs, i - 1), hs[i].level).push(hs[i])
    }
}

pub open spec fn title_texts(hs: Seq<Title>) -> Seq<Seq<char>> {
    Seq::new(hs.len(), |i: int| hs[i].text)
}

/// The first heading from `i` on that is not deeper than `level`; their number if none is.
pub open spec fn next_peer(hs: Seq<Title>, level: u32, i: int) -> int
    decreases hs.len() - i,
{
    if i >= hs.len() {
        hs.len() as int
    } else if hs[i].level <= level {
        i
    } else {
        next_peer(hs, level, i + 1)
    }
}

pub open spec fn at_least(x: int, y: int) -> int {
    if x < y {
        y
    } else {
        x
    }
}

pub open spec fn at_most(x: int, y: int) -> int {
    if x < y {
        x
    } else {
        y
    }
}

/// The last line of a document; a newline at its end begins none.
pub open spec fn last_line(doc: Seq<u8>) -> int {
    at_least(if doc.len() > 0 && doc.last() == 10 { newlines(doc) as int } else { newlines(doc) as int + 1 }, 1)
}

/// The last line of the section of heading `i`: it spans until the next heading of the same or a
/// higher level.
pub open spec fn section_end(doc: Seq<u8>, hs: Seq<Title>, i: int) -> int {
    let k = next_peer(hs, hs[i].level, i + 1);
    at_least(if k < hs.len() { hs[k].line - 1 } else { last_line(doc) }, hs[i].line as int)
}

/// The last of the section's own lines: they run to the next heading of any level, since that
/// heading starts a section of its own.
pub open spec fn own_end(doc: Seq<u8>, hs: Seq<Title>, i: int) -> int {
    let to = section_end(doc, hs, i);
    at_most(if i + 1 < hs.len() { at_least(hs[i + 1].line - 1, hs[i].line as int) } else { to }, to)
}

/// Where line `k`, counted from zero, begins; the end if there is no such line.
pub open spec fn line_offset(doc: Seq<u8>, k: int) -> int {
    if k <= 0 {
        0
    } else if k > newlines(doc) {
        doc.len() as int
    } else {
        choose|o: int| starts_line(doc, k, o)
    }
}

/// Words of the first `k` lines.
pub open spec fn words_before(doc: Seq<u8>, k: int) -> int {
    word_count(doc.take(line_offset(doc, k))) as int
}

/// Words in lines `from` to `to`, counted from one, both included.
pub open spec fn words_in_lines(doc: Seq<u8>, from: int, to: int) -> int {
    let last = newlines(doc) as int + 1;
    let n = words_before(doc, at_most(to, last)) - words_before(doc, at_most(at_least(from - 1, 0), last));
    if to < from || n < 0 {
        0
    } else {
        n
    }
}

/// The section of heading `i`.
pub open spec fn section_of(doc: Seq<u8>, hs: Seq<Title>, i: int) -> Part {
    let to = section_end(doc, hs, i);
    Part {
        path: joined_with(title_texts(lineage(hs, i)), " / "@),
        level: hs[i].level,
        from: hs[i].line as int,
        to,
        heading: hs[i].text,
        own_words: words_in_lines(doc, hs[i].line as int, own_end(doc, hs, i)),
        all_words: words_in_lines(doc, hs[i].line as int, to),
    }
}

pub open spec fn sections_of(doc: Seq<u8>, hs: Seq<Title>) -> Seq<Part> {
    Seq::new(hs.len(), |i: int| section_of(doc, hs, i))
}

/// A later line begins later.
proof fn lemma_line_order(doc: Seq<u8>, i: int, a: int, b: int)
    requires
        starts_line(doc, i + 1, b),
        a == line_offset(doc, i),
        0 <= i <= newlines(doc),
        i > 0 ==> starts_line(doc, i, a),
    ensures
        a <= b,
{
    if b < a {
        assert(doc.take(a) =~= doc.take(b) + doc.subrange(b, a));
        lemma_newlines_concat(doc.take(b), doc.subrange(b, a));
    }
}

/// The words of the first lines of a document, for each number of lines.
fn word_prefix(doc: &[u8], table: &LineTable) -> (cum: Vec<u64>)
    requires
        table.tells(doc@),
    ensures
        cum@.len() == newlines(doc@) + 2,
        forall|k: int| 0 <= k < cum@.len() ==> (#[trigger] cum@[k]) == words_before(doc@, k),
{
    let n: usize = table.count();
    let len: usize = doc.len();
    let mut cum: Vec<u64> = Vec::new();
    let mut running: u64 = 0;
    cum.push(0);
    let mut i: usize = 0;
    let mut from: usize = 0;
    assert(doc@.take(0) =~= Seq::empty());
    while i < n
        invariant
            i <= n,
            len == doc@.len(),
            n == newlines(doc@) + 1,
            n == table.lines(),
            table.tells(doc@),
            from == line_offset(doc@, i as int),
            from <= len,
            i < n ==> aligned(doc@, from as int),
            0 < i < n ==> starts_line(doc@, i as int, from as int),
            running == words_before(doc@, i as int),
            cum@.len() == i + 1,
            forall|k: int| 0 <= k < cum@.len() ==> (#[trigger] cum@[k]) == words_before(doc@, k),
        decreases n - i,
    {
        let to: usize = if i + 1 < n {
            table.start(i + 1)
        } else {
            len
        };
        proof {
            if i + 1 < n {
                law_line_start_unique(doc@, i + 1, to as int, line_offset(doc@, i + 1));
                lemma_line_order(doc@, i as int, from as int, to as int);
            }
            crate::words::lemma_words_cut(doc@, from as int, to as int);
            lemma_words_bound(doc@.take(to as int), false);
        }
        let line = slice_subrange(doc, from, to);
        running = running + count_words(line);
        cum.push(running);
        from = to;
        i += 1;
    }
    cum
}

/// Words in the 1-based inclusive line range `[from, to]`.
fn words_in(cum: &Vec<u64>, from: u64, to: u64, doc: Ghost<Seq<u8>>) -> (r: u64)
    requires
        cum@.len() == newlines(doc@) + 2,
        forall|k: int| 0 <= k < cum@.len() ==> (#[trigger] cum@[k]) == words_before(doc@, k),
    ensures
        r == words_in_lines(doc@, from as int, to as int),
{
    if to < from {
        return 0;
    }
    let last: usize = cum.len() - 1;
    let hi: usize = if to < last as u64 {
        to as usize
    } else {
        last
    };
    let before: u64 = if from == 0 {
        0
    } else {
        from - 1
    };
    let lo: usize = if before < last as u64 {
        before as usize
    } else {
        last
    };
    let a: u64 = cum[hi];
    let b: u64 = cum[lo];
    if a < b {
        0
    } else {
        a - b
    }
}

/// The headings above heading `i` and itself, as indices.
spec fn picked_titles(hs: Seq<Title>, ix: Seq<usize>) -> Seq<Title> {
    Seq::new(ix.len(), |k: int| hs[ix[k] as int])
}

/// The next heading that is not deeper.
fn find_peer(hs: &Vec<Heading>, level: u32, from: usize) -> (r: usize)
    requires
        from <= hs@.len(),
    ensures
        r == next_peer(titles_of(hs@), level, from as int),
        from <= r <= hs@.len(),
{
    let mut i: usize = from;
    while i < hs.len() && hs[i].level > level
        invariant
            from <= i <= hs@.len(),
            next_peer(titles_of(hs@), level, from as int) == next_peer(titles_of(hs@), level, i as int),
        decreases hs@.len() - i,
    {
        assert(titles_of(hs@)[i as int] == hs@[i as int]@);
        i += 1;
    }
    proof {
        if i < hs@.len() {
            assert(titles_of(hs@)[i as int] == hs@[i as int]@);
        }
    }
    i
}

/// The heading path of some headings.
fn path_of(hs: &Vec<Heading>, stack: &Vec<usize>) -> (r: String)
    requires
        forall|k: int| 0 <= k < stack@.len() ==> (#[trigger] stack@[k]) < hs@.len(),
    ensures
        r@ == joined_with(title_texts(picked_titles(titles_of(hs@), stack@)), " / "@),
{
    let ghost hv = titles_of(hs@);
    let ghost all = title_texts(picked_titles(hv, stack@));
    let sep = chars_of(" / ");
    let mut out: Vec<char> = Vec::new();
    let mut i: usize = 0;
    assert(all.take(0) =~= Seq::empty());
    while i < stack.len()
        invariant
            i <= stack@.len(),
            hv == titles_of(hs@),
            sep@ == " / "@,
            all == title_texts(picked_titles(hv, stack@)),
            forall|k: int| 0 <= k < stack@.len() ==> (#[trigger] stack@[k]) < hs@.len(),
            out@ == joined_with(all.take(i as int), " / "@),
        decreases stack@.len() - i,
    {
        let k: usize = stack[i];
        proof {
            assert(hv[k as int] == hs@[k as int]@);
            assert(all.take(i + 1).drop_last() =~= all.take(i as int));
            assert(all.take(i + 1).last() == hs@[k as int].text@);
            if i == 0 {
                assert(all.take(1)[0] == hs@[k as int].text@);
            }
        }
        if i > 0 {
            push_chars(&mut out, sep.as_slice());
        }
        push_chars(&mut out, chars_of(hs[k].text.as_str()).as_slice());
        assert(out@ =~= joined_with(all.take(i + 1), " / "@));
        i += 1;
    }
    assert(all.take(i as int) =~= all);
    string_of(out.as_slice())
}

/// The sections of some headings: each spans until the next heading of the same or higher level.
#[verifier::rlimit(30)]
fn build_sections(doc: &[u8], hs: &Vec<Heading>, cum: &Vec<u64>, lines: usize) -> (out: Vec<Section>)
    requires
        lines == newlines(doc@) + 1,
        forall|i: int| 0 <= i < hs@.len() ==> 1 <= (#[trigger] hs@[i]).line,
        cum@.len() == newlines(doc@) + 2,
        forall|k: int| 0 <= k < cum@.len() ==> (#[trigger] cum@[k]) == words_before(doc@, k),
    ensures
        parts(out@) == sections_of(doc@, titles_of(hs@)),
{
    let ghost hv = titles_of(hs@);
    let len: usize = doc.len();
    let shown: u64 = if len > 0 && doc[len - 1] == 10 {
        (lines - 1) as u64
    } else {
        lines as u64
    };
    let end: u64 = if shown < 1 {
        1
    } else {
        shown
    };
    assert(end == last_line(doc@));
    let mut out: Vec<Section> = Vec::new();
    let mut stack: Vec<usize> = Vec::new();
    let mut i: usize = 0;
    assert(picked_titles(hv, stack@) =~= Seq::empty());
    while i < hs.len()
        invariant
            i <= hs@.len(),
            hv == titles_of(hs@),
            end == last_line(doc@),
            forall|i: int| 0 <= i < hs@.len() ==> 1 <= (#[trigger] hs@[i]).line,
            cum@.len() == newlines(doc@) + 2,
            forall|k: int| 0 <= k < cum@.len() ==> (#[trigger] cum@[k]) == words_before(doc@, k),
            forall|k: int| 0 <= k < stack@.len() ==> (#[trigger] stack@[k]) < i,
            picked_titles(hv, stack@) == lineage(hv, i - 1),
            out@.len() == i,
            forall|k: int| 0 <= k < i ==> (#[trigger] out@[k])@ == section_of(doc@, hv, k),
        decreases hs@.len() - i,
    {
        let h = &hs[i];
        let level: u32 = h.level;
        assert(hv[i as int] == h@);
        while stack.len() > 0 && hs[stack[stack.len() - 1]].level >= level
            invariant
                i < hs@.len(),
                hv == titles_of(hs@),
                forall|k: int| 0 <= k < stack@.len() ==> (#[trigger] stack@[k]) < i,
                above(picked_titles(hv, stack@), level) == above(lineage(hv, i - 1), level),
            decreases stack@.len(),
        {
            let ghost before = stack@;
            proof {
                let s = picked_titles(hv, before);
                assert(s.last() == hs@[before.last() as int]@);
                assert(s.drop_last() =~= picked_titles(hv, before.drop_last()));
            }
            stack.pop();
            assert(stack@ =~= before.drop_last());
        }
        proof {
            let s = picked_titles(hv, stack@);
            if stack@.len() > 0 {
                assert(s.last() == hs@[stack@.last() as int]@);
            }
            assert(above(s, level) == s);
        }
        let ghost before = stack@;
        stack.push(i);
        assert(picked_titles(hv, stack@) =~= picked_titles(hv, before).push(hv[i as int]));
        let heading_path = path_of(hs, &stack);
        let k: usize = find_peer(hs, level, i + 1);
        let to0: u64 = if k < hs.len() {
            assert(hv[k as int] == hs@[k as int]@);
            hs[k].line - 1
        } else {
            end
        };
        let line_to: u64 = if to0 < h.line {
            h.line
        } else {
            to0
        };
        let own0: u64 = if i + 1 < hs.len() {
            assert(hv[i + 1] == hs@[i + 1]@);
            let x: u64 = hs[i + 1].line - 1;
            if x < h.line {
                h.line
            } else {
                x
            }
        } else {
            line_to
        };
        let own_to: u64 = if own0 < line_to {
            own0
        } else {
            line_to
        };
        assert(line_to == section_end(doc@, hv, i as int));
        assert(own_to == own_end(doc@, hv, i as int));
        let s = Section {
            heading_path,
            level,
            line_from: h.line,
            line_to,
            heading: String::from_str(h.text.as_str()),
            nwords: words_in(cum, h.line, own_to, Ghost(doc@)),
            nwords_total: words_in(cum, h.line, line_to, Ghost(doc@)),
        };
        assert(s@ =~= section_of(doc@, hv, i as int));
        out.push(s);
        i += 1;
    }
    assert(parts(out@) =~= sections_of(doc@, hv));
    out
}

/// A stored link tells the link found in a document.
pub open spec fn link_told(doc: Seq<u8>, l: Link, f: Found) -> bool {
    &&& l.target_path@ == f.target
    &&& l.line == line_number(doc, f.offset)
    &&& l.kind@ == f.kind
    &&& opt_view(l.anchor) == f.anchor
    &&& opt_view(l.alias) == f.alias
    &&& l.external == f.outside
    &&& match (l.span, f.range) {
        (Some(a), Some(b)) => a.0 == b.0 && a.1 == b.1,
        (None, None) => true,
        _ => false,
    }
}

pub open spec fn links_told(doc: Seq<u8>, ls: Seq<Link>, fs: Seq<Found>) -> bool {
    ls.len() == fs.len() && forall|i: int| 0 <= i < ls.len() ==> link_told(doc, #[trigger] ls[i], fs[i])
}

fn tell_links(doc: &[u8], table: &LineTable, found: Vec<LinkSpan>) -> (out: Vec<Link>)
    requires
        table.tells(doc@),
    ensures
        links_told(doc@, out@, all_found(found@)),
{
    let ghost all = all_found(found@);
    let mut out: Vec<Link> = Vec::new();
    let mut i: usize = 0;
    while i < found.len()
        invariant
            i <= found@.len(),
            table.tells(doc@),
            all == all_found(found@),
            out@.len() == i,
            forall|k: int| 0 <= k < i ==> link_told(doc@, #[trigger] out@[k], all[k]),
        decreases found@.len() - i,
    {
        let f = &found[i];
        assert(all[i as int] == f@);
        let l = Link {
            target_path: String::from_str(f.target.as_str()),
            line: table.line(f.offset) as u64,
            kind: String::from_str(f.kind),
            anchor: copied(&f.anchor),
            alias: copied(&f.alias),
            external: f.external,
            span: match &f.range {
                Some(r) => Some((r.start as u64, r.end as u64)),
                None => None,
            },
        };
        out.push(l);
        i += 1;
    }
    out
}

fn copied(s: &Option<String>) -> (r: Option<String>)
    ensures
        opt_view(r) == opt_view(*s),
{
    match s {
        Some(t) => Some(String::from_str(t.as_str())),
        None => None,
    }
}

/// Where the body of a document begins, in bytes.
pub open spec fn doc_body(doc: Seq<u8>) -> int {
    match frontmatter_of(doc) {
        Some(p) => p.1,
        None => 0,
    }
}

/// The body of a document as text.
pub open spec fn doc_text(doc: Seq<u8>) -> Seq<char> {
    let t = utf8_lossy(doc);
    text_from(t, at_most(doc_body(doc), byte_len(t) as int))
}

/// The headings of a document, given the events of its body.
pub open spec fn doc_titles(doc: Seq<u8>, hs: Seq<(usize, Head)>) -> Seq<Title> {
    titles(doc, hs, doc_body(doc), hs.len() as int).0
}

/// `s` is the structure of a document whose body has the events `hs`, and in which the links `fs`
/// were found.
pub open spec fn structure_told(doc: Seq<u8>, hs: Seq<(usize, Head)>, fs: Seq<Found>, s: Structure) -> bool {
    &&& parts(s.sections@) == sections_of(doc, doc_titles(doc, hs))
    &&& links_told(doc, s.links@, fs)
    &&& match frontmatter_of(doc) {
        Some(p) => s.frontmatter matches Some(v) && holds(v, yaml_data(utf8_lossy(p.0))),
        None => s.frontmatter is None,
    }
}

/// `s` is the structure of a document.
pub open spec fn extracted(doc: Seq<u8>, s: Structure) -> bool {
    structure_told(
        doc,
        parsed_heads(MARKDOWN_OPTIONS, doc_text(doc)),
        links_in(utf8_lossy(doc), body_marks(utf8_lossy(doc))),
        s,
    )
}

/// The structure of a document, given the events of its body and the links found in it.
pub fn structure_of(bytes: &[u8], events: &Vec<(usize, HeadMark)>, found: Vec<LinkSpan>) -> (s: Structure)
    ensures
        structure_told(bytes@, heads(events@), all_found(found@), s),
{
    let table = LineTable::new(bytes);
    let mut body: usize = 0;
    let mut frontmatter: Option<Value> = None;
    match split_frontmatter(bytes) {
        Some((yaml, off)) => {
            frontmatter = crate::md::yaml::parse(lossy_text(yaml).as_str());
            body = off;
        },
        None => {},
    }
    let hs = read_headings(bytes, &table, events, body);
    let links = tell_links(bytes, &table, found);
    // Words per line, accumulated once, so every section's two counts are a subtraction rather
    // than a re-scan.
    let cum = word_prefix(bytes, &table);
    let sections = build_sections(bytes, &hs, &cum, table.count());
    Structure { sections, links, frontmatter }
}

/// Sections, links and front matter of a document.
pub fn extract(bytes: &[u8]) -> (s: Structure)
    ensures
        extracted(bytes@, s),
{
    let text = lossy_text(bytes);
    let len: usize = text.as_str().as_bytes().len();
    proof {
        lemma_text_bytes(text@);
    }
    let off: usize = match split_frontmatter(bytes) {
        Some(p) => p.1,
        None => 0,
    };
    let at: usize = if off < len {
        off
    } else {
        len
    };
    let body = tail_text(text.as_str(), at);
    let events = heading_events(MARKDOWN_OPTIONS, body.as_str());
    let found = scan(bytes);
    structure_of(bytes, &events, found)
}

/// The first section from `i` on with this path.
pub open spec fn by_path(ss: Seq<Part>, path: Seq<char>, i: int) -> Option<Part>
    decreases ss.len() - i,
{
    if i >= ss.len() {
        None
    } else if ss[i].path == path {
        Some(ss[i])
    } else {
        by_path(ss, path, i + 1)
    }
}

/// The first section from `i` on whose own heading is this one, in any case.
pub open spec fn by_heading(ss: Seq<Part>, low: Seq<char>, i: int) -> Option<Part>
    decreases ss.len() - i,
{
    if i >= ss.len() {
        None
    } else if lower_case(last_heading(ss[i].path)) == low {
        Some(ss[i])
    } else {
        by_heading(ss, low, i + 1)
    }
}

/// The section a heading names.
pub open spec fn named_section(ss: Seq<Part>, heading: Seq<char>) -> Option<Part> {
    let h = trim_white(heading);
    match by_path(ss, h, 0) {
        Some(p) => Some(p),
        None => by_heading(ss, lower_case(h), 0),
    }
}

/// Find the section whose heading matches `heading`: exact heading-path match first, then
/// the last path component, case-insensitively. Returns the 1-based inclusive line span.
pub fn find_section(structure: &Structure, heading: &str) -> (r: Option<(u64, u64)>)
    ensures
        match r {
            Some(p) => named_section(parts(structure.sections@), heading@) matches Some(s) && p.0 == s.from && p.1 == s.to,
            None => named_section(parts(structure.sections@), heading@) is None,
        },
{
    let ghost ss = parts(structure.sections@);
    let c = chars_of(heading);
    let h = string_of(trim_both_white(c.as_slice()));
    let mut i: usize = 0;
    while i < structure.sections.len()
        invariant
            i <= structure.sections@.len(),
            ss == parts(structure.sections@),
            h@ == trim_white(heading@),
            by_path(ss, h@, 0) == by_path(ss, h@, i as int),
        decreases structure.sections@.len() - i,
    {
        let s = &structure.sections[i];
        assert(ss[i as int] == s@);
        if same_text(s.heading_path.as_str(), h.as_str()) {
            return Some((s.line_from, s.line_to));
        }
        i += 1;
    }
    let low = lowered(h.as_str());
    let mut k: usize = 0;
    while k < structure.sections.len()
        invariant
            k <= structure.sections@.len(),
            ss == parts(structure.sections@),
            h@ == trim_white(heading@),
            low@ == lower_case(h@),
            by_path(ss, h@, 0) is None,
            by_heading(ss, low@, 0) == by_heading(ss, low@, k as int),
        decreases structure.sections@.len() - k,
    {
        let s = &structure.sections[k];
        assert(ss[k as int] == s@);
        let path = chars_of(s.heading_path.as_str());
        let last = string_of(heading_tail(path.as_slice()));
        if same_text(lowered(last.as_str()).as_str(), low.as_str()) {
            return Some((s.line_from, s.line_to));
        }
        k += 1;
    }
    None
}

} // verus!

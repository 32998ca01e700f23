//! What a commit records: sizes, what the folders above gain, and whether the structure rows move.

use vstd::prelude::*;
use vstd::string::*;
use crate::chars::{ascii_lowered, ends, ends_with, to_ascii_lowered, trim_both_white, trim_white};
use crate::chunker::newlines;
use crate::commit::Committed;
use crate::hash::same_hash;
use crate::md::resolve::{key_of_name, name_key};
use crate::model::{doc, sound};
use crate::pg::bulk::{get_member, member};
use crate::storage::{missing_node, Result, Storage};
use crate::structure::{Link, Section, Structure};
use crate::text::{chars_of, same_text, string_of};
use crate::tree::{hashes_of, totals};
use crate::value::Value;
use crate::words::{word_count, word_delta, words_at};

verus! {

/// What a node adds to every folder above it.
#[derive(Clone, Copy, Debug, PartialEq, Eq, Structural)]
pub struct Totals {
    pub files: i64,
    pub folders: i64,
    pub bytes: i64,
    pub lines: i64,
    pub words: i64,
    pub versions: i64,
    /// Structure counts, maintained like the word count: computed at commit from what the
    /// extractor returned, stored on the node row, rolled up here. `links_broken` is the
    /// one that also moves without a commit, when a link's target is deleted.
    pub sections: i64,
    pub props: i64,
    pub links: i64,
    pub links_broken: i64,
}

impl Default for Totals {
    fn default() -> (r: Self)
        ensures
            r == Totals::none(),
    {
        Totals {
            files: 0,
            folders: 0,
            bytes: 0,
            lines: 0,
            words: 0,
            versions: 0,
            sections: 0,
            props: 0,
            links: 0,
            links_broken: 0,
        }
    }
}

impl Totals {
    /// Nothing added.
    pub open spec fn none() -> Totals {
        Totals {
            files: 0,
            folders: 0,
            bytes: 0,
            lines: 0,
            words: 0,
            versions: 0,
            sections: 0,
            props: 0,
            links: 0,
            links_broken: 0,
        }
    }

    /// Each total can be taken back.
    pub open spec fn reversible(self) -> bool {
        &&& self.files > i64::MIN && self.folders > i64::MIN && self.bytes > i64::MIN
        &&& self.lines > i64::MIN && self.words > i64::MIN && self.versions > i64::MIN
        &&& self.sections > i64::MIN && self.props > i64::MIN && self.links > i64::MIN
        &&& self.links_broken > i64::MIN
    }

    /// The other totals take back what these add.
    pub open spec fn undoes(self, t: Totals) -> bool {
        &&& self.files + t.files == 0 && self.folders + t.folders == 0 && self.bytes + t.bytes == 0
        &&& self.lines + t.lines == 0 && self.words + t.words == 0 && self.versions + t.versions == 0
        &&& self.sections + t.sections == 0 && self.props + t.props == 0 && self.links + t.links == 0
        &&& self.links_broken + t.links_broken == 0
    }

    /// What leaves the folders above when the node does.
    pub fn neg(self) -> (r: Self)
        requires
            self.reversible(),
        ensures
            r.undoes(self),
    {
        Totals {
            files: -self.files,
            folders: -self.folders,
            bytes: -self.bytes,
            lines: -self.lines,
            words: -self.words,
            versions: -self.versions,
            sections: -self.sections,
            props: -self.props,
            links: -self.links,
            links_broken: -self.links_broken,
        }
    }
}

/// What a file's row held before a commit.
#[derive(Clone, Copy, Debug, PartialEq, Eq, Structural)]
pub struct OldCounts {
    pub bytes: Option<i64>,
    pub lines: Option<i64>,
    pub words: Option<i64>,
}

pub open spec fn count_or_zero(n: Option<i64>) -> int {
    match n {
        Some(n) => n as int,
        None => 0,
    }
}

/// What a commit records.
#[derive(Debug)]
pub struct CommitRecord {
    pub nbytes: i64,
    pub nlines: i64,
    pub nwords: i64,
    /// `create` for the first version, `commit` after.
    pub op: &'static str,
    /// What the folders above gain. The structure counts move on their own.
    pub change: Totals,
    /// The chunks of the version that may be new, each once.
    pub chunks: Vec<crate::hash::Hash>,
    /// Whether the file has structure to read.
    pub markdown: bool,
    /// The name that links elsewhere may have been waiting for.
    pub awaited: Option<String>,
}

/// Is the file a markdown document, by its name?
pub open spec fn markdown_path(path: Seq<char>) -> bool {
    ends(ascii_lowered(path), ".md"@) || ends(ascii_lowered(path), ".markdown"@)
}

/// Is the file a markdown document, by its name?
pub fn is_markdown(path: &str) -> (r: bool)
    ensures
        r == markdown_path(path@),
{
    let low: Vec<char> = to_ascii_lowered(chars_of(path).as_slice());
    ends_with(low.as_slice(), chars_of(".md").as_slice()) || ends_with(low.as_slice(), chars_of(".markdown").as_slice())
}

/// The first `n` hashes, each where it is met first.
pub open spec fn distinct(hs: Seq<Seq<u8>>, n: int) -> Seq<Seq<u8>>
    decreases n,
{
    if n <= 0 {
        Seq::empty()
    } else {
        let before = distinct(hs, n - 1);
        if before.contains(hs[n - 1]) {
            before
        } else {
            before.push(hs[n - 1])
        }
    }
}

/// The hashes, each where it is met first.
pub fn distinct_hashes(hs: &Vec<crate::hash::Hash>) -> (out: Vec<crate::hash::Hash>)
    ensures
        hashes_of(out@) == distinct(hashes_of(hs@), hs@.len() as int),
{
    let ghost all = hashes_of(hs@);
    let mut out: Vec<crate::hash::Hash> = Vec::new();
    let mut n: usize = 0;
    proof {
        assert(hashes_of(out@) =~= Seq::<Seq<u8>>::empty());
    }
    while n < hs.len()
        invariant
            n <= hs@.len(),
            all == hashes_of(hs@),
            hashes_of(out@) == distinct(all, n as int),
        decreases hs@.len() - n,
    {
        let h = hs[n];
        let ghost before = hashes_of(out@);
        let mut seen: bool = false;
        let mut i: usize = 0;
        while i < out.len() && !seen
            invariant
                i <= out@.len(),
                before == hashes_of(out@),
                seen ==> before.contains(h@),
                !seen ==> forall|k: int| 0 <= k < i ==> (#[trigger] before[k]) != h@,
            decreases out@.len() - i + (if seen { 0int } else { 1int }),
        {
            proof {
                assert(before[i as int] == out@[i as int]@);
            }
            if same_hash(&out[i], &h) {
                seen = true;
            } else {
                i += 1;
            }
        }
        proof {
            assert(all[n as int] == h@);
        }
        if !seen {
            out.push(h);
            proof {
                assert(hashes_of(out@) =~= before.push(h@));
            }
        }
        n += 1;
    }
    out
}

/// The words of a commit: those of the version before it and what the lines that changed add,
/// where the count is known; else those of the whole text.
pub open spec fn words_now(version: u64, old: Option<i64>, prev: Seq<u8>, text: Seq<u8>) -> int {
    match old {
        Some(w) => if version > 1 {
            w + word_count(text) - word_count(prev)
        } else {
            word_count(text) as int
        },
        None => word_count(text) as int,
    }
}

/// The record of a commit is that of its text.
pub open spec fn records(
    c: Committed,
    path: Seq<char>,
    text: Seq<u8>,
    prev: Seq<u8>,
    old: OldCounts,
    r: CommitRecord,
) -> bool {
    &&& r.nbytes == text.len()
    &&& r.nlines == newlines(text)
    &&& r.nwords == words_now(c.version, old.words, prev, text)
    &&& r.op@ == if c.version == 1 {
        "create"@
    } else {
        "commit"@
    }
    &&& r.change.files == if c.version == 1 {
        1int
    } else {
        0int
    }
    &&& r.change.bytes == text.len() - count_or_zero(old.bytes)
    &&& r.change.lines == newlines(text) - count_or_zero(old.lines)
    &&& r.change.words == r.nwords - count_or_zero(old.words)
    &&& r.change.versions == 1
    &&& r.change.folders == 0 && r.change.sections == 0 && r.change.props == 0
    &&& r.change.links == 0 && r.change.links_broken == 0
    &&& hashes_of(r.chunks@) == distinct(hashes_of(c.new_chunks@), c.new_chunks@.len() as int)
    &&& r.markdown == markdown_path(path)
    &&& match r.awaited {
        Some(n) => c.version == 1 && n@ == key_of_name(path),
        None => c.version != 1,
    }
}

/// Where the count of the version before is that of its text, the record's count is that of the
/// new text.
pub proof fn law_words_stay_exact(c: Committed, path: Seq<char>, text: Seq<u8>, prev: Seq<u8>, old: OldCounts, r: CommitRecord)
    requires
        records(c, path, text, prev, old, r),
        old.words matches Some(w) ==> w == word_count(prev),
    ensures
        r.nwords == word_count(text),
{
}

fn or_zero(n: Option<i64>) -> (r: i64)
    ensures
        r == count_or_zero(n),
{
    match n {
        Some(n) => n,
        None => 0,
    }
}

/// What a commit records. `previous` is the root of the version before it: with several writers
/// the commit may have been rebased over one that landed after its base was read. It is read only
/// where the file's row has a word count.
pub fn commit_record<S: Storage + ?Sized>(
    storage: &S,
    path: &str,
    c: &Committed,
    previous: &crate::hash::Hash,
    old: OldCounts,
) -> (r: Result<CommitRecord>)
    requires
        sound(storage.store()),
        storage.store().nodes.contains_key(c.root@) ==> doc(storage.store(), c.root@).len() <= i64::MAX,
        storage.store().nodes.contains_key(previous@) ==> doc(storage.store(), previous@).len() <= i64::MAX,
        count_or_zero(old.bytes) >= 0,
        count_or_zero(old.lines) >= 0,
        count_or_zero(old.words) >= 0,
        storage.store().nodes.contains_key(c.root@) ==> count_or_zero(old.words) + doc(storage.store(), c.root@).len()
            <= i64::MAX,
    ensures
        r is Ok ==> storage.store().nodes.contains_key(c.root@),
        storage.local() && storage.store().nodes.contains_key(c.root@) && (old.words is None || c.version <= 1
            || storage.store().nodes.contains_key(previous@)) ==> r is Ok,
        storage.local() && !storage.store().nodes.contains_key(c.root@) ==> missing_node(r, c.root@),
        r matches Ok(x) ==> records(
            *c,
            path@,
            doc(storage.store(), c.root@),
            doc(storage.store(), previous@),
            old,
            x,
        ),
{
    let ghost st = storage.store();
    let ghost text = doc(st, c.root@);
    let (nbytes, nlines): (u64, u64) = match totals(storage, &c.root) {
        Ok(p) => p,
        Err(e) => {
            return Err(e);
        },
    };
    proof {
        crate::chunker::lemma_newlines_bound(text);
        crate::words::lemma_words_bound(text, false);
        crate::words::lemma_words_bound(doc(st, previous@), false);
    }
    let nwords: i64 = match old.words {
        Some(w) if c.version > 1 => match word_delta(storage, previous, &c.root) {
            Ok(d) => {
                proof {
                    if previous@ == c.root@ {
                        assert(d == 0);
                    }
                }
                w + d
            },
            Err(e) => {
                return Err(e);
            },
        },
        _ => match words_at(storage, &c.root) {
            Ok(n) => n as i64,
            Err(e) => {
                return Err(e);
            },
        },
    };
    let first: bool = c.version == 1;
    let change = Totals {
        files: if first {
            1
        } else {
            0
        },
        folders: 0,
        bytes: nbytes as i64 - or_zero(old.bytes),
        lines: nlines as i64 - or_zero(old.lines),
        words: nwords - or_zero(old.words),
        versions: 1,
        sections: 0,
        props: 0,
        links: 0,
        links_broken: 0,
    };
    let awaited: Option<String> = if first {
        Some(name_key(path))
    } else {
        None
    };
    Ok(
        CommitRecord {
            nbytes: nbytes as i64,
            nlines: nlines as i64,
            nwords,
            op: if first {
                "create"
            } else {
                "commit"
            },
            change,
            chunks: distinct_hashes(&c.new_chunks),
            markdown: is_markdown(path),
            awaited,
        },
    )
}

/// The first heading of level 1.
pub open spec fn top_heading(ss: Seq<Section>) -> Option<Seq<char>>
    decreases ss.len(),
{
    if ss.len() == 0 {
        None
    } else if ss[0].level == 1 {
        Some(ss[0].heading@)
    } else {
        top_heading(ss.skip(1))
    }
}

/// The front matter title, if there is one. A title that is neither text nor nothing is shown as
/// JSON writes it.
pub open spec fn written_title(fm: Option<Value>, json: Seq<char>) -> Option<Seq<char>> {
    match fm {
        Some(Value::Object(o)) => match member(o@, "title"@) {
            None => None,
            Some(Value::Null) => None,
            Some(Value::Text(s)) => Some(s@),
            Some(_) => Some(json),
        },
        _ => None,
    }
}

/// A document's title: its front matter `title`, else its first level-1 heading, else none.
pub open spec fn title_of(s: Structure, json: Seq<char>) -> Option<Seq<char>> {
    match written_title(s.frontmatter, json) {
        Some(t) => if trim_white(t).len() > 0 {
            Some(trim_white(t))
        } else {
            top_heading(s.sections@)
        },
        None => top_heading(s.sections@),
    }
}

fn first_heading(ss: &Vec<Section>) -> (r: Option<String>)
    ensures
        match r {
            Some(h) => top_heading(ss@) == Some(h@),
            None => top_heading(ss@) is None,
        },
{
    let mut i: usize = 0;
    proof {
        assert(ss@.skip(0) =~= ss@);
    }
    while i < ss.len()
        invariant
            i <= ss@.len(),
            top_heading(ss@) == top_heading(ss@.skip(i as int)),
        decreases ss@.len() - i,
    {
        proof {
            assert(ss@.skip(i as int).skip(1) =~= ss@.skip(i + 1));
        }
        if ss[i].level == 1 {
            return Some(ss[i].heading.clone());
        }
        i += 1;
    }
    None
}

/// A document's title: its front matter `title`, else its first level-1 heading, else none.
///
/// Front matter wins because it is the one a writer set deliberately; the heading is what
/// a reader sees when they did not. `json` is how JSON writes the front matter title.
pub fn document_title(s: &Structure, json: &str) -> (r: Option<String>)
    ensures
        match r {
            Some(t) => title_of(*s, json@) == Some(t@),
            None => title_of(*s, json@) is None,
        },
{
    let written: Option<String> = match &s.frontmatter {
        Some(Value::Object(o)) => match get_member(o, "title") {
            None => None,
            Some(Value::Null) => None,
            Some(Value::Text(t)) => Some(t.clone()),
            Some(_) => Some(String::from_str(json)),
        },
        _ => None,
    };
    match written {
        Some(t) => {
            let cs: Vec<char> = chars_of(t.as_str());
            let trimmed = trim_both_white(cs.as_slice());
            if trimmed.len() > 0 {
                return Some(string_of(trimmed));
            }
        },
        None => {},
    }
    first_heading(&s.sections)
}

/// The structure counts of a file's row.
#[derive(Clone, Copy, Debug, PartialEq, Eq, Structural)]
pub struct StructureCounts {
    pub sections: i64,
    /// Top-level front matter keys: `project.name` and `project.phase` are one property to a
    /// reader.
    pub props: i64,
    pub links: i64,
    pub links_broken: i64,
}

impl StructureCounts {
    /// No count is below zero.
    pub open spec fn counted(self) -> bool {
        self.sections >= 0 && self.props >= 0 && self.links >= 0 && self.links_broken >= 0
    }
}

/// How many top-level keys front matter has.
pub open spec fn prop_count(fm: Option<Value>) -> nat {
    match fm {
        Some(Value::Object(o)) => o@.len(),
        _ => 0,
    }
}

/// The structure counts of a document, and what the folders above gain by them.
pub fn structure_counts(s: &Structure, broken: i64, old: StructureCounts) -> (r: (StructureCounts, Totals))
    requires
        broken >= 0,
        old.counted(),
        s.sections@.len() <= i64::MAX,
        s.links@.len() <= i64::MAX,
        prop_count(s.frontmatter) <= i64::MAX,
    ensures
        r.0.sections == s.sections@.len(),
        r.0.props == prop_count(s.frontmatter),
        r.0.links == s.links@.len(),
        r.0.links_broken == broken,
        r.1.sections == r.0.sections - old.sections,
        r.1.props == r.0.props - old.props,
        r.1.links == r.0.links - old.links,
        r.1.links_broken == broken - old.links_broken,
        r.1.files == 0 && r.1.folders == 0 && r.1.bytes == 0 && r.1.lines == 0 && r.1.words == 0 && r.1.versions == 0,
{
    let props: usize = match &s.frontmatter {
        Some(Value::Object(o)) => o.len(),
        _ => 0,
    };
    let now = StructureCounts {
        sections: s.sections.len() as i64,
        props: props as i64,
        links: s.links.len() as i64,
        links_broken: broken,
    };
    let change = Totals {
        files: 0,
        folders: 0,
        bytes: 0,
        lines: 0,
        words: 0,
        versions: 0,
        sections: now.sections - old.sections,
        props: now.props - old.props,
        links: now.links - old.links,
        links_broken: broken - old.links_broken,
    };
    (now, change)
}

/// A section row as it is stored.
#[derive(Debug, PartialEq, Eq)]
pub struct SectionRow {
    pub heading_path: String,
    pub level: i64,
    pub line_from: i64,
    pub line_to: i64,
    pub nwords: Option<i64>,
    pub nwords_total: Option<i64>,
}

/// A link row as it is stored.
#[derive(Debug, PartialEq, Eq)]
pub struct LinkRow {
    pub target_path: String,
    pub line: i64,
    pub kind: String,
    pub anchor: Option<String>,
    pub alias: Option<String>,
    pub external: bool,
}

/// What a commit changed about a document's structure rows.
#[derive(Clone, Copy, Debug, PartialEq, Eq, Structural)]
pub enum StructureDiff {
    /// Nothing; only the `version` column has to move forward.
    Same,
    /// The heading tree is intact but word counts under it moved — the common case for a
    /// body edit, and much cheaper to serve than a rewrite.
    CountsOnly,
    /// Headings, links or front matter moved; the rows are rebuilt.
    Different,
}

/// The row stands for the section, word counts aside.
pub open spec fn same_section(r: SectionRow, s: Section) -> bool {
    r.heading_path@ == s.heading_path@ && r.level == s.level && r.line_from == s.line_from && r.line_to == s.line_to
}

/// The row has the word counts of the section.
pub open spec fn same_words(r: SectionRow, s: Section) -> bool {
    &&& r.nwords matches Some(n) && n == s.nwords
    &&& r.nwords_total matches Some(n) && n == s.nwords_total
}

pub open spec fn same_option(a: Option<String>, b: Option<String>) -> bool {
    match (a, b) {
        (Some(x), Some(y)) => x@ == y@,
        (None, None) => true,
        _ => false,
    }
}

/// The row stands for the link. Where the link is written does not count: it moves whenever
/// anything before it does.
pub open spec fn same_link(r: LinkRow, l: Link) -> bool {
    &&& r.target_path@ == l.target_path@
    &&& r.line == l.line
    &&& r.kind@ == l.kind@
    &&& same_option(r.anchor, l.anchor)
    &&& same_option(r.alias, l.alias)
    &&& r.external == l.external
}

pub open spec fn same_sections(rows: Seq<SectionRow>, ss: Seq<Section>) -> bool {
    rows.len() == ss.len() && forall|i: int| 0 <= i < rows.len() ==> same_section(#[trigger] rows[i], ss[i])
}

pub open spec fn same_counts(rows: Seq<SectionRow>, ss: Seq<Section>) -> bool {
    forall|i: int| 0 <= i < rows.len() ==> same_words(#[trigger] rows[i], ss[i])
}

pub open spec fn same_links(rows: Seq<LinkRow>, ls: Seq<Link>) -> bool {
    rows.len() == ls.len() && forall|i: int| 0 <= i < rows.len() ==> same_link(#[trigger] rows[i], ls[i])
}

/// Stored front matter is that of the document: `stored` is whether what is stored equals it, none
/// if nothing is stored.
pub open spec fn same_frontmatter(stored: Option<bool>, fm: Option<Value>) -> bool {
    match stored {
        None => fm is None,
        Some(same) => fm is Some && same,
    }
}

/// How stored rows differ from a document's structure.
pub open spec fn rows_differ(sections: Seq<SectionRow>, links: Seq<LinkRow>, stored: Option<bool>, s: Structure) -> StructureDiff {
    if !same_sections(sections, s.sections@) || !same_links(links, s.links@) || !same_frontmatter(stored, s.frontmatter) {
        StructureDiff::Different
    } else if !same_counts(sections, s.sections@) {
        StructureDiff::CountsOnly
    } else {
        StructureDiff::Same
    }
}

fn equals(stored: i64, n: u64) -> (r: bool)
    ensures
        r == (stored == n),
{
    stored >= 0 && stored as u64 == n
}

fn equals_some(stored: Option<i64>, n: u64) -> (r: bool)
    ensures
        r == (stored matches Some(x) && x == n),
{
    match stored {
        Some(x) => equals(x, n),
        None => false,
    }
}

fn equals_text(a: &Option<String>, b: &Option<String>) -> (r: bool)
    ensures
        r == same_option(*a, *b),
{
    match (a, b) {
        (Some(x), Some(y)) => same_text(x.as_str(), y.as_str()),
        (None, None) => true,
        _ => false,
    }
}

/// Are the rows those of the sections; and if so, are their word counts?
fn compare_sections(rows: &Vec<SectionRow>, ss: &Vec<Section>) -> (r: (bool, bool))
    ensures
        r.0 == same_sections(rows@, ss@),
        r.0 ==> r.1 == same_counts(rows@, ss@),
{
    if rows.len() != ss.len() {
        return (false, false);
    }
    let mut counts: bool = true;
    let mut i: usize = 0;
    while i < rows.len()
        invariant
            i <= rows@.len(),
            rows@.len() == ss@.len(),
            forall|k: int| 0 <= k < i ==> same_section(#[trigger] rows@[k], ss@[k]),
            counts ==> forall|k: int| 0 <= k < i ==> same_words(#[trigger] rows@[k], ss@[k]),
            !counts ==> exists|k: int| 0 <= k < i && !same_words(#[trigger] rows@[k], ss@[k]),
        decreases rows@.len() - i,
    {
        let r = &rows[i];
        let s = &ss[i];
        if !(same_text(r.heading_path.as_str(), s.heading_path.as_str()) && equals(r.level, s.level as u64) && equals(
            r.line_from,
            s.line_from,
        ) && equals(r.line_to, s.line_to)) {
            proof {
                assert(!same_section(rows@[i as int], ss@[i as int]));
            }
            return (false, false);
        }
        if !(equals_some(r.nwords, s.nwords) && equals_some(r.nwords_total, s.nwords_total)) {
            counts = false;
            proof {
                assert(!same_words(rows@[i as int], ss@[i as int]));
            }
        }
        i += 1;
    }
    (true, counts)
}

fn compare_links(rows: &Vec<LinkRow>, ls: &Vec<Link>) -> (r: bool)
    ensures
        r == same_links(rows@, ls@),
{
    if rows.len() != ls.len() {
        return false;
    }
    let mut i: usize = 0;
    while i < rows.len()
        invariant
            i <= rows@.len(),
            rows@.len() == ls@.len(),
            forall|k: int| 0 <= k < i ==> same_link(#[trigger] rows@[k], ls@[k]),
        decreases rows@.len() - i,
    {
        let r = &rows[i];
        let l = &ls[i];
        if !(same_text(r.target_path.as_str(), l.target_path.as_str()) && equals(r.line, l.line) && same_text(
            r.kind.as_str(),
            l.kind.as_str(),
        ) && equals_text(&r.anchor, &l.anchor) && equals_text(&r.alias, &l.alias) && r.external == l.external) {
            proof {
                assert(!same_link(rows@[i as int], ls@[i as int]));
            }
            return false;
        }
        i += 1;
    }
    true
}

/// How the stored rows of a file differ from its structure, version aside. `stored` says whether
/// the stored front matter equals the document's; none if none is stored.
///
/// Three outcomes rather than two because the two kinds of change cost very differently:
/// a heading tree that has not moved needs no delete, no re-insert and no relink, even
/// when every word count under it has changed.
pub fn structure_diff(sections: &Vec<SectionRow>, links: &Vec<LinkRow>, stored: Option<bool>, s: &Structure) -> (r: StructureDiff)
    ensures
        r == rows_differ(sections@, links@, stored, *s),
{
    let (same, counts): (bool, bool) = compare_sections(sections, &s.sections);
    if !same || !compare_links(links, &s.links) {
        return StructureDiff::Different;
    }
    let same_fm: bool = match (stored, &s.frontmatter) {
        (None, None) => true,
        (Some(same), Some(_)) => same,
        _ => false,
    };
    if !same_fm {
        StructureDiff::Different
    } else if counts {
        StructureDiff::Same
    } else {
        StructureDiff::CountsOnly
    }
}

} // verus!

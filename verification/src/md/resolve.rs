//! Link resolution by Obsidian's rules, shared by every store so they cannot drift apart.
//!
//! A store answers a handful of lookups ([`Lookup`]); [`resolve`] decides what a link written in
//! a file points to and its status, and [`rewritten_target`] how to write a link's target again
//! after the file it points to moved. Statuses: `ok`, `ambiguous` (several files match; the
//! nearest is taken), `anchor-missing` (the file has no such heading), `folder`, `broken`,
//! `not-in-store` (a PDF, image or other file a text store does not hold) and `external` (URLs,
//! email addresses, queries, numbered references).
//!
//! An asset (a binary kept in an asset store) is held as a pointer document next to where the
//! file belongs: `deck.pdf` as `deck.pdf.tdbasset`. A link that finds no document resolves to
//! the pointer of that name, as `ok`.

use vstd::prelude::*;
use vstd::slice::{slice_subrange, slice_to_vec};
use vstd::string::*;
use crate::chars::{
    after_last, alphanumeric, ascii_lowered, begins, begins_with, char_lower, char_views, ends, ends_with, find_from,
    find_text, has_char, is_alnum, is_below, join_with, joined_with, lower_case, lower_chars, lowered, past_last,
    push_chars, same_chars, split_at, split_on, strip_suffix, text_below, texts, to_ascii_lowered, trim_both_white,
    trim_end, trim_end_char, trim_start, trim_start_char, trim_white, without_suffix,
};
use crate::md::offsets::{byte_len, width_of, LineTable};
use crate::storage::Result;
use crate::text::{chars_of, same_text, string_of};

verus! {

/// The suffix of an asset's pointer document: the pointer of `deck.pdf` is `deck.pdf.tdbasset`.
pub const ASSET_POINTER_SUFFIX: &'static str = ".tdbasset";

/// Does a path name an asset pointer? The suffix is read in any case.
pub open spec fn asset_pointer(path: Seq<char>) -> bool {
    path.len() > 9 && ends(ascii_lowered(path), ".tdbasset"@)
}

/// The file a pointer stands for.
pub open spec fn pointed(path: Seq<char>) -> Seq<char> {
    if asset_pointer(path) {
        path.take(path.len() - 9)
    } else {
        path
    }
}

fn pointer_chars(p: &[char]) -> (r: bool)
    ensures
        r == asset_pointer(p@),
{
    let low = to_ascii_lowered(p);
    p.len() > 9 && ends_with(low.as_slice(), chars_of(".tdbasset").as_slice())
}

/// Whether `path` names an asset pointer.
pub fn is_asset_pointer(path: &str) -> (r: bool)
    ensures
        r == asset_pointer(path@),
{
    pointer_chars(chars_of(path).as_slice())
}

fn pointed_chars<'a>(p: &'a [char]) -> (r: &'a [char])
    ensures
        r@ == pointed(p@),
{
    if pointer_chars(p) {
        let h = slice_subrange(p, 0, p.len() - 9);
        assert(h@ =~= p@.take(p@.len() - 9));
        h
    } else {
        p
    }
}

/// The file a pointer stands for (`/a/deck.pdf.tdbasset` → `/a/deck.pdf`); any other path as it is.
pub fn asset_path<'a>(path: &'a str) -> (r: &'a str)
    ensures
        r@ == pointed(path@),
{
    let c = chars_of(path);
    if pointer_chars(c.as_slice()) {
        let n: usize = c.len() - 9;
        let s = path.substring_char(0, n);
        assert(s@ =~= path@.take(n as int));
        s
    } else {
        path
    }
}

/// The store setting deciding what a move does to links pointing at what moved.
pub const LINK_UPDATES_SETTING: &'static str = "link_updates";

#[derive(Clone, Copy, Debug, PartialEq, Eq, Structural)]
pub enum LinkUpdates {
    /// Nothing.
    Off,
    /// List the links the move leaves pointing elsewhere.
    Report,
    /// Rewrite them, one commit per linking file, in the same transaction as the move.
    Rewrite,
}

impl Default for LinkUpdates {
    fn default() -> (r: Self)
        ensures
            r == LinkUpdates::Report,
    {
        LinkUpdates::Report
    }
}

impl LinkUpdates {
    pub fn parse(s: &str) -> (r: Option<Self>)
        ensures
            r == updates_named(ascii_lowered(trim_white(s@))),
    {
        let c = chars_of(s);
        let low = string_of(to_ascii_lowered(trim_both_white(c.as_slice())).as_slice());
        if same_text(low.as_str(), "off") {
            Some(LinkUpdates::Off)
        } else if same_text(low.as_str(), "report") {
            Some(LinkUpdates::Report)
        } else if same_text(low.as_str(), "rewrite") {
            Some(LinkUpdates::Rewrite)
        } else {
            None
        }
    }

    /// How the setting is written.
    pub open spec fn spelled(self) -> Seq<char> {
        match self {
            LinkUpdates::Off => "off"@,
            LinkUpdates::Report => "report"@,
            LinkUpdates::Rewrite => "rewrite"@,
        }
    }

    pub fn as_str(self) -> (r: &'static str)
        ensures
            r@ == self.spelled(),
    {
        match self {
            LinkUpdates::Off => "off",
            LinkUpdates::Report => "report",
            LinkUpdates::Rewrite => "rewrite",
        }
    }
}

pub open spec fn updates_named(s: Seq<char>) -> Option<LinkUpdates> {
    if s == "off"@ {
        Some(LinkUpdates::Off)
    } else if s == "report"@ {
        Some(LinkUpdates::Report)
    } else if s == "rewrite"@ {
        Some(LinkUpdates::Rewrite)
    } else {
        None
    }
}

/// A file as lookups tell it: its id and its path.
pub type FileAt = (i64, Seq<char>);

pub open spec fn files_told(v: Seq<(i64, String)>) -> Seq<FileAt> {
    Seq::new(v.len(), |i: int| (v[i].0, v[i].1@))
}

/// What a store answers about its live nodes. Paths are store paths (`/a/b.md`).
///
/// Between two changes of the store a question has one answer. What the answers are, an
/// implementation says; one that does not say it finds nothing.
pub trait Lookup {
    /// Lookups do not fail.
    open spec fn reliable(&self) -> bool {
        false
    }

    open spec fn at_path(&self, path: Seq<char>) -> Seq<FileAt> {
        Seq::empty()
    }

    open spec fn with_name(&self, name: Seq<char>) -> Seq<FileAt> {
        Seq::empty()
    }

    open spec fn with_suffix(&self, suffix: Seq<char>) -> Seq<FileAt> {
        Seq::empty()
    }

    open spec fn folder_at(&self, path: Seq<char>) -> bool {
        false
    }

    open spec fn heading_paths(&self, file_id: i64) -> Seq<Seq<char>> {
        Seq::empty()
    }

    /// Live files whose path equals `path`, ignoring ASCII case: `(id, path)`.
    fn files_by_path(&self, path: &str) -> (r: Result<Vec<(i64, String)>>)
        ensures
            self.reliable() ==> r is Ok,
            r matches Ok(v) ==> files_told(v@) == self.at_path(path@),
    ;

    /// Live files whose name equals `name`, ignoring ASCII case.
    fn files_by_name(&self, name: &str) -> (r: Result<Vec<(i64, String)>>)
        ensures
            self.reliable() ==> r is Ok,
            r matches Ok(v) ==> files_told(v@) == self.with_name(name@),
    ;

    /// Live files whose lower-case path ends with `suffix` (lower case, starting with `/`).
    fn files_by_suffix(&self, suffix: &str) -> (r: Result<Vec<(i64, String)>>)
        ensures
            self.reliable() ==> r is Ok,
            r matches Ok(v) ==> files_told(v@) == self.with_suffix(suffix@),
    ;

    /// Whether a live folder has this path, ignoring ASCII case.
    fn is_folder(&self, path: &str) -> (r: Result<bool>)
        ensures
            self.reliable() ==> r is Ok,
            r matches Ok(b) ==> b == self.folder_at(path@),
    ;

    /// The heading paths (`Title / Section`) of a file.
    fn headings(&self, file_id: i64) -> (r: Result<Vec<String>>)
        ensures
            self.reliable() ==> r is Ok,
            r matches Ok(v) ==> texts(v@) == self.heading_paths(file_id),
    ;
}

/// The folder a store path is in.
pub open spec fn parent_of(path: Seq<char>) -> Seq<char> {
    let i = past_last(path, '/');
    if i <= 1 {
        "/"@
    } else {
        path.take(i - 1)
    }
}

/// The folder a store path is in: `/a/b.md` → `/a`, `/b.md` → `/`.
pub fn parent<'a>(path: &'a str) -> (r: &'a str)
    ensures
        r@ == parent_of(path@),
{
    let c = chars_of(path);
    let i = after_last(c.as_slice(), '/');
    if i <= 1 {
        "/"
    } else {
        let s = path.substring_char(0, i - 1);
        assert(s@ =~= path@.take(i - 1));
        s
    }
}

/// The last segment of a path.
pub open spec fn last_part(s: Seq<char>) -> Seq<char> {
    s.skip(past_last(s, '/'))
}

fn last_segment<'a>(s: &'a [char]) -> (r: &'a [char])
    ensures
        r@ == last_part(s@),
{
    let i = after_last(s, '/');
    let t = slice_subrange(s, i, s.len());
    assert(t@ =~= s@.skip(i as int));
    t
}

/// A file name as links find it.
pub open spec fn key_of_name(s: Seq<char>) -> Seq<char> {
    without_suffix(lower_case(last_part(pointed(trim_end(s, '/')))), ".md"@)
}

/// A file name as links find it: lower case, without `.md`; a pointer as the name of its asset.
pub fn name_key(path_or_name: &str) -> (r: String)
    ensures
        r@ == key_of_name(path_or_name@),
{
    let c = chars_of(path_or_name);
    let last = string_of(last_segment(pointed_chars(trim_end_char(c.as_slice(), '/'))));
    let low = chars_of(lowered(last.as_str()).as_str());
    string_of(strip_suffix(low.as_slice(), chars_of(".md").as_slice()))
}

/// The parts of a path that are not empty.
pub open spec fn path_parts(parts: Seq<Seq<char>>) -> Seq<Seq<char>>
    decreases parts.len(),
{
    if parts.len() == 0 {
        Seq::empty()
    } else if parts.last().len() > 0 {
        path_parts(parts.drop_last()).push(parts.last())
    } else {
        path_parts(parts.drop_last())
    }
}

fn parts_of<'a>(s: &'a [char]) -> (out: Vec<&'a [char]>)
    ensures
        char_views(out@) == path_parts(split_at(s@, '/')),
{
    let parts = split_on(s, '/');
    let ghost all = char_views(parts@);
    let mut out: Vec<&'a [char]> = Vec::new();
    let mut i: usize = 0;
    assert(all.take(0) =~= Seq::empty());
    assert(char_views(out@) =~= Seq::empty());
    while i < parts.len()
        invariant
            i <= parts@.len(),
            all == char_views(parts@),
            char_views(out@) == path_parts(all.take(i as int)),
        decreases parts@.len() - i,
    {
        let ghost before = out@;
        proof {
            assert(all.take(i + 1).drop_last() =~= all.take(i as int));
            assert(all.take(i + 1).last() == parts@[i as int]@);
        }
        if parts[i].len() > 0 {
            out.push(parts[i]);
            assert(char_views(out@) =~= char_views(before).push(parts@[i as int]@));
        }
        i += 1;
    }
    assert(all.take(i as int) =~= all);
    out
}

/// One more step along a path: `.` stays, `..` goes up, which the root does not.
pub open spec fn stepped(at: Option<Seq<Seq<char>>>, part: Seq<char>) -> Option<Seq<Seq<char>>> {
    match at {
        None => None,
        Some(s) => if part.len() == 0 || part == "."@ {
            Some(s)
        } else if part == ".."@ {
            if s.len() == 0 {
                None
            } else {
                Some(s.drop_last())
            }
        } else {
            Some(s.push(part))
        },
    }
}

pub open spec fn walked(from: Seq<Seq<char>>, parts: Seq<Seq<char>>) -> Option<Seq<Seq<char>>>
    decreases parts.len(),
{
    if parts.len() == 0 {
        Some(from)
    } else {
        stepped(walked(from, parts.drop_last()), parts.last())
    }
}

/// `rel` against the folder `base`.
pub open spec fn joined_path(base: Seq<char>, rel: Seq<char>) -> Option<Seq<char>> {
    let from = if begins(rel, "/"@) { Seq::empty() } else { path_parts(split_at(base, '/')) };
    match walked(from, split_at(rel, '/')) {
        Some(segs) => Some("/"@ + joined_with(segs, "/"@)),
        None => None,
    }
}

/// If a walk has left the root it does not come back.
proof fn lemma_walked_none(from: Seq<Seq<char>>, parts: Seq<Seq<char>>, i: int)
    requires
        0 <= i <= parts.len(),
        walked(from, parts.take(i)) is None,
    ensures
        walked(from, parts) is None,
    decreases parts.len() - i,
{
    if i < parts.len() {
        assert(parts.take(i + 1).drop_last() =~= parts.take(i));
        lemma_walked_none(from, parts, i + 1);
    } else {
        assert(parts.take(i) =~= parts);
    }
}

fn is_part(p: &[char], s: &str) -> (r: bool)
    ensures
        r == (p@ == s@),
{
    same_chars(p, chars_of(s).as_slice())
}

fn join_chars(base: &[char], rel: &[char]) -> (r: Option<Vec<char>>)
    ensures
        match r {
            Some(p) => joined_path(base@, rel@) == Some(p@),
            None => joined_path(base@, rel@) is None,
        },
{
    let slash = chars_of("/");
    let mut segs: Vec<&[char]> = if begins_with(rel, slash.as_slice()) {
        Vec::new()
    } else {
        parts_of(base)
    };
    let ghost from = char_views(segs@);
    let parts = split_on(rel, '/');
    let ghost all = char_views(parts@);
    let mut i: usize = 0;
    proof {
        assert(all.take(0) =~= Seq::empty());
        if begins(rel@, "/"@) {
            assert(from =~= Seq::empty());
        }
    }
    while i < parts.len()
        invariant
            i <= parts@.len(),
            all == char_views(parts@),
            slash@ == "/"@,
            from == (if begins(rel@, "/"@) { Seq::empty() } else { path_parts(split_at(base@, '/')) }),
            all == split_at(rel@, '/'),
            walked(from, all.take(i as int)) == Some(char_views(segs@)),
        decreases parts@.len() - i,
    {
        let p = parts[i];
        let ghost before = segs@;
        proof {
            assert(all.take(i + 1).drop_last() =~= all.take(i as int));
            assert(all.take(i + 1).last() == p@);
        }
        if p.len() == 0 || is_part(p, ".") {
        } else if is_part(p, "..") {
            if segs.len() == 0 {
                proof {
                    assert(walked(from, all.take(i + 1)) is None);
                    lemma_walked_none(from, all, i + 1);
                }
                return None;
            }
            segs.pop();
            assert(char_views(segs@) =~= char_views(before).drop_last());
        } else {
            segs.push(p);
            assert(char_views(segs@) =~= char_views(before).push(p@));
        }
        i += 1;
    }
    assert(all.take(i as int) =~= all);
    let mut out = chars_of("/");
    let tail = join_with(&segs, slash.as_slice());
    push_chars(&mut out, tail.as_slice());
    Some(out)
}

/// `rel` against the folder `base` (`/a/b`), resolving `.` and `..`; `None` above the root.
pub fn join(base: &str, rel: &str) -> (r: Option<String>)
    ensures
        match r {
            Some(p) => joined_path(base@, rel@) == Some(p@),
            None => joined_path(base@, rel@) is None,
        },
{
    match join_chars(chars_of(base).as_slice(), chars_of(rel).as_slice()) {
        Some(p) => Some(string_of(p.as_slice())),
        None => None,
    }
}

/// How many parts two paths share at their start.
pub open spec fn shared_parts(a: Seq<Seq<char>>, b: Seq<Seq<char>>, i: int) -> int
    decreases a.len() - i,
{
    if 0 <= i < a.len() && i < b.len() && a[i] == b[i] {
        shared_parts(a, b, i + 1)
    } else {
        i
    }
}

/// `target` relative to the folder `folder`.
pub open spec fn relative_path(folder: Seq<char>, target: Seq<char>) -> Seq<char> {
    let a = path_parts(split_at(folder, '/'));
    let b = path_parts(split_at(target, '/'));
    let same = shared_parts(a, b, 0);
    let most = if b.len() == 0 { 0 } else { b.len() - 1 };
    let common = if same < most { same } else { most };
    joined_with(Seq::new((a.len() - common) as nat, |i: int| ".."@) + b.skip(common), "/"@)
}

fn relative_chars(folder: &[char], target: &[char]) -> (out: Vec<char>)
    ensures
        out@ == relative_path(folder@, target@),
{
    let a = parts_of(folder);
    let b = parts_of(target);
    let ghost av = char_views(a@);
    let ghost bv = char_views(b@);
    let mut same: usize = 0;
    while same < a.len() && same < b.len() && same_chars(a[same], b[same])
        invariant
            same <= a@.len(),
            same <= b@.len(),
            av == char_views(a@),
            bv == char_views(b@),
            shared_parts(av, bv, 0) == shared_parts(av, bv, same as int),
        decreases a@.len() - same,
    {
        assert(av[same as int] == a@[same as int]@ && bv[same as int] == b@[same as int]@);
        same += 1;
    }
    proof {
        if same < a@.len() && same < b@.len() {
            assert(av[same as int] == a@[same as int]@ && bv[same as int] == b@[same as int]@);
        }
    }
    let most: usize = if b.len() == 0 {
        0
    } else {
        b.len() - 1
    };
    let common: usize = if same < most {
        same
    } else {
        most
    };
    let up = chars_of("..");
    let mut parts: Vec<&[char]> = Vec::new();
    let mut i: usize = common;
    while i < a.len()
        invariant
            common <= i <= a@.len(),
            up@ == ".."@,
            parts@.len() == i - common,
            forall|k: int| 0 <= k < parts@.len() ==> (#[trigger] parts@[k])@ == ".."@,
        decreases a@.len() - i,
    {
        parts.push(up.as_slice());
        i += 1;
    }
    let ghost ups = Seq::new((av.len() - common) as nat, |i: int| ".."@);
    assert(char_views(parts@) =~= ups);
    let mut j: usize = common;
    assert(char_views(parts@) =~= ups + bv.subrange(common as int, j as int));
    while j < b.len()
        invariant
            common <= j <= b@.len(),
            bv == char_views(b@),
            char_views(parts@) == ups + bv.subrange(common as int, j as int),
        decreases b@.len() - j,
    {
        let ghost before = parts@;
        parts.push(b[j]);
        proof {
            assert(char_views(parts@) =~= char_views(before).push(bv[j as int]));
            assert(bv.subrange(common as int, j + 1) =~= bv.subrange(common as int, j as int).push(bv[j as int]));
            assert(char_views(parts@) =~= ups + bv.subrange(common as int, j + 1));
        }
        j += 1;
    }
    assert(bv.subrange(common as int, j as int) =~= bv.skip(common as int));
    join_with(&parts, chars_of("/").as_slice())
}

/// `target` (`/a/b/c.md`) relative to the folder `folder` (`/a/x`): `../b/c.md`.
pub fn relative(folder: &str, target: &str) -> (r: String)
    ensures
        r@ == relative_path(folder@, target@),
{
    string_of(relative_chars(chars_of(folder).as_slice(), chars_of(target).as_slice()).as_slice())
}

/// The lower-case letters and digits of a text.
pub open spec fn heading_letters(s: Seq<char>) -> Seq<char>
    decreases s.len(),
{
    if s.len() == 0 {
        Seq::empty()
    } else if alphanumeric(s.last()) {
        heading_letters(s.drop_last()) + char_lower(s.last())
    } else {
        heading_letters(s.drop_last())
    }
}

fn heading_chars(s: &[char]) -> (out: Vec<char>)
    ensures
        out@ == heading_letters(s@),
{
    let mut out: Vec<char> = Vec::new();
    let mut i: usize = 0;
    assert(s@.take(0) =~= Seq::empty());
    while i < s.len()
        invariant
            i <= s@.len(),
            out@ == heading_letters(s@.take(i as int)),
        decreases s@.len() - i,
    {
        proof {
            assert(s@.take(i + 1).drop_last() =~= s@.take(i as int));
        }
        if is_alnum(s[i]) {
            push_chars(&mut out, lower_chars(s[i]).as_slice());
        }
        i += 1;
    }
    assert(s@.take(i as int) =~= s@);
    out
}

/// Lower-case letters and digits only, so `Next steps` and `next-steps` compare equal.
pub fn heading_key(s: &str) -> (r: String)
    ensures
        r@ == heading_letters(s@),
{
    string_of(heading_chars(chars_of(s).as_slice()).as_slice())
}

/// The last heading of a heading path.
pub open spec fn last_heading(h: Seq<char>) -> Seq<char> {
    h.skip(past_separator(h, 0, 0))
}

/// The place behind the last ` / ` from place `i` on; `found` if there is none. Separators are
/// read from the back.
pub open spec fn past_separator(h: Seq<char>, i: int, found: int) -> int
    decreases h.len() + 1 - i,
{
    match find_from(h, " / "@, i) {
        Some(j) => if j < i || j >= h.len() {
            found
        } else {
            past_separator(h, j + 1, j + 3)
        },
        None => found,
    }
}

pub(crate) fn heading_tail<'a>(h: &'a [char]) -> (r: &'a [char])
    ensures
        r@ == last_heading(h@),
{
    let sep = chars_of(" / ");
    proof {
        reveal_strlit(" / ");
    }
    let n: usize = h.len();
    let mut i: usize = 0;
    let mut found: usize = 0;
    loop
        invariant
            n == h@.len(),
            sep@ == " / "@,
            sep@.len() == 3,
            found <= h@.len(),
            i <= h@.len(),
            past_separator(h@, 0, 0) == past_separator(h@, i as int, found as int),
        decreases h@.len() - i,
    {
        match find_text(h, sep.as_slice(), i) {
            Some(j) => {
                found = j + 3;
                i = j + 1;
            },
            None => {
                let t = slice_subrange(h, found, h.len());
                assert(t@ =~= h@.skip(found as int));
                return t;
            },
        }
    }
}

/// Is `anchor` (`A#B` names `B`) one of some heading paths? Block ids (`^id`) always are.
pub open spec fn anchor_among(headings: Seq<Seq<char>>, anchor: Seq<char>) -> bool {
    let last = anchor.skip(past_last(anchor, '#'));
    last.len() > 0 && last[0] == '^' || exists|i: int|
        0 <= i < headings.len() && heading_letters(last_heading(#[trigger] headings[i])) == heading_letters(last)
}

/// Whether the file has the heading `anchor` names (`#A#B` checks `B`); block ids (`^id`) are
/// not checked.
pub fn anchor_exists<L: Lookup>(l: &L, file_id: i64, anchor: &str) -> (r: Result<bool>)
    ensures
        l.reliable() ==> r is Ok,
        r matches Ok(b) ==> b == anchor_among(l.heading_paths(file_id), anchor@),
{
    let c = chars_of(anchor);
    let i = after_last(c.as_slice(), '#');
    let last = slice_subrange(c.as_slice(), i, c.len());
    assert(last@ =~= anchor@.skip(i as int));
    if last.len() > 0 && last[0] == '^' {
        return Ok(true);
    }
    let want = heading_chars(last);
    let hs = match l.headings(file_id) {
        Ok(v) => v,
        Err(e) => {
            return Err(e);
        },
    };
    let ghost all = texts(hs@);
    let mut k: usize = 0;
    while k < hs.len()
        invariant
            k <= hs@.len(),
            all == texts(hs@),
            all == l.heading_paths(file_id),
            last@ == anchor@.skip(past_last(anchor@, '#')),
            want@ == heading_letters(last@),
            !(last@.len() > 0 && last@[0] == '^'),
            forall|j: int| 0 <= j < k ==> heading_letters(last_heading(#[trigger] all[j])) != want@,
        decreases hs@.len() - k,
    {
        assert(all[k as int] == hs@[k as int]@);
        let h = chars_of(hs[k].as_str());
        let key = heading_chars(heading_tail(h.as_slice()));
        if same_chars(key.as_slice(), want.as_slice()) {
            return Ok(true);
        }
        k += 1;
    }
    Ok(false)
}

/// How the path of a document, or of an asset's pointer, may be spelled for a target.
#[derive(Clone, Copy, Debug, PartialEq, Eq, Structural)]
pub enum Spelling {
    /// As written, or with `.md` behind it.
    Document,
    /// With the suffix of a pointer behind it.
    Pointer,
}

/// The spellings of a path.
pub open spec fn spellings(kind: Spelling, path: Seq<char>) -> Seq<Seq<char>> {
    match kind {
        Spelling::Document => if ends(ascii_lowered(path), ".md"@) {
            seq![path]
        } else {
            seq![path, path + ".md"@]
        },
        Spelling::Pointer => seq![path + ".tdbasset"@],
    }
}

fn variants(kind: Spelling, path: &[char]) -> (out: Vec<String>)
    ensures
        texts(out@) == spellings(kind, path@),
{
    let mut out: Vec<String> = Vec::new();
    let mut longer: Vec<char> = slice_to_vec(path);
    match kind {
        Spelling::Document => {
            let md = chars_of(".md");
            let low = to_ascii_lowered(path);
            out.push(string_of(path));
            if ends_with(low.as_slice(), md.as_slice()) {
                assert(texts(out@) =~= seq![path@]);
            } else {
                push_chars(&mut longer, md.as_slice());
                out.push(string_of(longer.as_slice()));
                assert(texts(out@) =~= seq![path@, path@ + ".md"@]);
            }
        },
        Spelling::Pointer => {
            push_chars(&mut longer, chars_of(".tdbasset").as_slice());
            out.push(string_of(longer.as_slice()));
            assert(texts(out@) =~= seq![path@ + ".tdbasset"@]);
        },
    }
    out
}

/// Is one file before another: by id, then by path?
pub open spec fn file_below(a: FileAt, b: FileAt) -> bool {
    a.0 < b.0 || a.0 == b.0 && text_below(a.1, b.1)
}

/// A file put among others in order, once.
pub open spec fn file_put(fs: Seq<FileAt>, f: FileAt) -> Seq<FileAt>
    decreases fs.len(),
{
    if fs.len() == 0 || file_below(fs.last(), f) {
        fs.push(f)
    } else if fs.last() == f {
        fs
    } else {
        file_put(fs.drop_last(), f).push(fs.last())
    }
}

/// Files in order, each once.
pub open spec fn file_set(fs: Seq<FileAt>) -> Seq<FileAt>
    decreases fs.len(),
{
    if fs.len() == 0 {
        Seq::empty()
    } else {
        file_put(file_set(fs.drop_last()), fs.last())
    }
}

/// The files at any of some paths.
pub open spec fn at_paths<L: Lookup + ?Sized>(l: &L, ps: Seq<Seq<char>>) -> Seq<FileAt>
    decreases ps.len(),
{
    if ps.len() == 0 {
        Seq::empty()
    } else {
        at_paths(l, ps.drop_last()) + l.at_path(ps.last())
    }
}

pub open spec fn at_names<L: Lookup + ?Sized>(l: &L, ps: Seq<Seq<char>>) -> Seq<FileAt>
    decreases ps.len(),
{
    if ps.len() == 0 {
        Seq::empty()
    } else {
        at_names(l, ps.drop_last()) + l.with_name(ps.last())
    }
}

pub open spec fn at_suffixes<L: Lookup + ?Sized>(l: &L, ps: Seq<Seq<char>>) -> Seq<FileAt>
    decreases ps.len(),
{
    if ps.len() == 0 {
        Seq::empty()
    } else {
        at_suffixes(l, ps.drop_last()) + l.with_suffix("/"@ + lower_case(ps.last()))
    }
}

/// The files at a joined path, if there is one, under any of its spellings.
pub open spec fn at_joined<L: Lookup + ?Sized>(l: &L, kind: Spelling, path: Option<Seq<char>>) -> Seq<FileAt> {
    match path {
        Some(p) => at_paths(l, spellings(kind, p)),
        None => Seq::empty(),
    }
}

/// The files a link of `kind` written in `folder` to `target` could mean. A markdown link is
/// relative to its folder, or else to the root; a wiki path is one from the root, or relative, or
/// the end of a path; a wiki name is that of a file anywhere.
pub open spec fn found_files<L: Lookup + ?Sized>(
    l: &L,
    kind: Seq<char>,
    folder: Seq<char>,
    target: Seq<char>,
    sp: Spelling,
) -> Seq<FileAt> {
    let here = at_joined(l, sp, joined_path(folder, target));
    let there = at_joined(l, sp, joined_path("/"@, target));
    if kind == "md"@ || kind == "image"@ {
        if here.len() == 0 && !begins(target, "/"@) {
            there
        } else {
            here
        }
    } else if target.contains('/') {
        if there.len() > 0 {
            there
        } else if here.len() > 0 {
            here
        } else {
            at_suffixes(l, spellings(sp, trim_start(target, '/')))
        }
    } else {
        at_names(l, spellings(sp, target))
    }
}

proof fn lemma_files_append(a: Seq<(i64, String)>, b: Seq<(i64, String)>)
    ensures
        files_told(a + b) == files_told(a) + files_told(b),
{
    assert(files_told(a + b) =~= files_told(a) + files_told(b));
}

/// What kind of question is asked of each spelling.
#[derive(Clone, Copy, PartialEq, Eq, Structural)]
enum Question {
    Path,
    Name,
    Suffix,
}

spec fn answers_to<L: Lookup + ?Sized>(l: &L, q: Question, ps: Seq<Seq<char>>) -> Seq<FileAt> {
    match q {
        Question::Path => at_paths(l, ps),
        Question::Name => at_names(l, ps),
        Question::Suffix => at_suffixes(l, ps),
    }
}

fn ask_all<L: Lookup>(l: &L, q: Question, ps: &Vec<String>) -> (r: Result<Vec<(i64, String)>>)
    ensures
        l.reliable() ==> r is Ok,
        r matches Ok(v) ==> files_told(v@) == answers_to(l, q, texts(ps@)),
{
    let ghost all = texts(ps@);
    let mut out: Vec<(i64, String)> = Vec::new();
    let mut i: usize = 0;
    assert(all.take(0) =~= Seq::empty());
    assert(files_told(out@) =~= Seq::empty());
    while i < ps.len()
        invariant
            i <= ps@.len(),
            all == texts(ps@),
            files_told(out@) == answers_to(l, q, all.take(i as int)),
        decreases ps@.len() - i,
    {
        proof {
            assert(all.take(i + 1).drop_last() =~= all.take(i as int));
            assert(all.take(i + 1).last() == ps@[i as int]@);
        }
        let asked = match q {
            Question::Path => l.files_by_path(ps[i].as_str()),
            Question::Name => l.files_by_name(ps[i].as_str()),
            Question::Suffix => {
                let mut s = String::from_str("/");
                s.append(lowered(ps[i].as_str()).as_str());
                l.files_by_suffix(s.as_str())
            },
        };
        let mut more = match asked {
            Ok(v) => v,
            Err(e) => {
                return Err(e);
            },
        };
        proof {
            lemma_files_append(out@, more@);
        }
        out.append(&mut more);
        i += 1;
    }
    assert(all.take(i as int) =~= all);
    Ok(out)
}

fn ask_joined<L: Lookup>(l: &L, sp: Spelling, base: &[char], target: &[char]) -> (r: Result<Vec<(i64, String)>>)
    ensures
        l.reliable() ==> r is Ok,
        r matches Ok(v) ==> files_told(v@) == at_joined(l, sp, joined_path(base@, target@)),
{
    match join_chars(base, target) {
        Some(p) => {
            let ps = variants(sp, p.as_slice());
            ask_all(l, Question::Path, &ps)
        },
        None => {
            let none: Vec<(i64, String)> = Vec::new();
            assert(files_told(none@) =~= Seq::empty());
            Ok(none)
        },
    }
}

fn file_is_below(a: &(i64, String), b: &(i64, String)) -> (r: bool)
    ensures
        r == file_below((a.0, a.1@), (b.0, b.1@)),
{
    a.0 < b.0 || a.0 == b.0 && is_below(chars_of(a.1.as_str()).as_slice(), chars_of(b.1.as_str()).as_slice())
}

/// Puts a file among others in order, once.
fn put_file(fs: Vec<(i64, String)>, f: (i64, String)) -> (out: Vec<(i64, String)>)
    ensures
        files_told(out@) == file_put(files_told(fs@), (f.0, f.1@)),
{
    let mut out = fs;
    let ghost all = files_told(out@);
    let ghost one = (f.0, f.1@);
    let mut i: usize = out.len();
    proof {
        assert(all.take(i as int) =~= all);
        assert(all.skip(i as int) =~= Seq::empty());
        assert(file_put(all.take(i as int), one) + all.skip(i as int) =~= file_put(all, one));
    }
    while i > 0 && !file_is_below(&out[i - 1], &f)
        invariant
            i <= out@.len(),
            all == files_told(out@),
            all == files_told(fs@),
            one == (f.0, f.1@),
            file_put(all, one) == file_put(all.take(i as int), one) + all.skip(i as int),
        decreases i,
    {
        let ghost t = all.take(i as int);
        proof {
            assert(t.last() == (out@[i - 1].0, out@[i - 1].1@));
            assert(t.drop_last() =~= all.take(i - 1));
        }
        if out[i - 1].0 == f.0 && same_text(out[i - 1].1.as_str(), f.1.as_str()) {
            proof {
                assert(t.last() == one);
                assert(t + all.skip(i as int) =~= all);
            }
            return out;
        }
        proof {
            assert(file_put(all.take(i - 1), one).push(t.last()) + all.skip(i as int) =~= file_put(all.take(i - 1), one)
                + all.skip(i - 1));
        }
        i -= 1;
    }
    proof {
        let t = all.take(i as int);
        if i > 0 {
            assert(t.last() == (out@[i - 1].0, out@[i - 1].1@));
        }
        assert(file_put(t, one) == t.push(one));
    }
    out.insert(i, f);
    assert(files_told(out@) =~= all.take(i as int).push(one) + all.skip(i as int));
    out
}

/// The live files a link of `kind` written in `folder` to `target` could mean, in order, each once.
fn candidates<L: Lookup>(l: &L, kind: &str, folder: &[char], target: &[char], sp: Spelling) -> (r: Result<
    Vec<(i64, String)>,
>)
    ensures
        l.reliable() ==> r is Ok,
        r matches Ok(v) ==> files_told(v@) == file_set(found_files(l, kind@, folder@, target@, sp)),
{
    let root = chars_of("/");
    let mut found: Vec<(i64, String)>;
    if same_text(kind, "md") || same_text(kind, "image") {
        found = match ask_joined(l, sp, folder, target) {
            Ok(v) => v,
            Err(e) => {
                return Err(e);
            },
        };
        if found.len() == 0 && !begins_with(target, root.as_slice()) {
            found = match ask_joined(l, sp, root.as_slice(), target) {
                Ok(v) => v,
                Err(e) => {
                    return Err(e);
                },
            };
        }
    } else if has_char(target, '/') {
        found = match ask_joined(l, sp, root.as_slice(), target) {
            Ok(v) => v,
            Err(e) => {
                return Err(e);
            },
        };
        if found.len() == 0 {
            found = match ask_joined(l, sp, folder, target) {
                Ok(v) => v,
                Err(e) => {
                    return Err(e);
                },
            };
        }
        if found.len() == 0 {
            let ps = variants(sp, trim_start_char(target, '/'));
            found = match ask_all(l, Question::Suffix, &ps) {
                Ok(v) => v,
                Err(e) => {
                    return Err(e);
                },
            };
        }
    } else {
        let ps = variants(sp, target);
        found = match ask_all(l, Question::Name, &ps) {
            Ok(v) => v,
            Err(e) => {
                return Err(e);
            },
        };
    }
    let ghost all = files_told(found@);
    assert(all == found_files(l, kind@, folder@, target@, sp));
    let mut out: Vec<(i64, String)> = Vec::new();
    let mut i: usize = 0;
    assert(all.take(0) =~= Seq::empty());
    assert(files_told(out@) =~= Seq::empty());
    while i < found.len()
        invariant
            i <= found@.len(),
            all == files_told(found@),
            files_told(out@) == file_set(all.take(i as int)),
        decreases found@.len() - i,
    {
        proof {
            assert(all.take(i + 1).drop_last() =~= all.take(i as int));
            assert(all.take(i + 1).last() == (found@[i as int].0, found@[i as int].1@));
        }
        let f: (i64, String) = (found[i].0, String::from_str(found[i].1.as_str()));
        out = put_file(out, f);
        i += 1;
    }
    assert(all.take(i as int) =~= all);
    Ok(out)
}

/// Is a file nearer to a link than another: the exact spelling first, then the linking note's
/// folder, then the shortest path, then by path?
pub open spec fn nearer(folder: Seq<char>, target: Seq<char>, a: FileAt, b: FileAt) -> bool {
    let p = pointed(a.1);
    let q = pointed(b.1);
    let ep = spelled_exactly(p, target);
    let eq = spelled_exactly(q, target);
    let hp = parent_of(p) == folder;
    let hq = parent_of(q) == folder;
    if ep != eq {
        ep
    } else if hp != hq {
        hp
    } else if byte_len(p) != byte_len(q) {
        byte_len(p) < byte_len(q)
    } else {
        text_below(p, q)
    }
}

pub open spec fn spelled_exactly(path: Seq<char>, target: Seq<char>) -> bool {
    ends(path, target) || ends(path, target + ".md"@)
}

/// The nearest of the first `n` files, the first of those that are equally near.
pub open spec fn nearest(folder: Seq<char>, target: Seq<char>, fs: Seq<FileAt>, n: int) -> int
    decreases n,
{
    if n <= 1 {
        0
    } else {
        let k = nearest(folder, target, fs, n - 1);
        if nearer(folder, target, fs[n - 1], fs[k]) {
            n - 1
        } else {
            k
        }
    }
}

/// Extensions of files a store of text documents does not hold.
pub open spec fn binary_extension(e: Seq<char>) -> bool {
    e == "pdf"@ || e == "png"@ || e == "jpg"@ || e == "jpeg"@ || e == "gif"@ || e == "svg"@ || e == "webp"@ || e == "bmp"@
        || e == "heic"@ || e == "tif"@ || e == "tiff"@ || e == "ico"@ || e == "xlsx"@ || e == "xls"@ || e == "docx"@ || e
        == "doc"@ || e == "pptx"@ || e == "ppt"@ || e == "odt"@ || e == "ods"@ || e == "csv"@ || e == "tsv"@ || e == "zip"@
        || e == "mp4"@ || e == "mov"@ || e == "mp3"@ || e == "wav"@ || e == "m4a"@ || e == "canvas"@ || e == "base"@ || e
        == "json"@ || e == "html"@ || e == "htm"@ || e == "drawio"@ || e == "excalidraw"@
}

/// Does the last segment of a target have the extension of such a file?
pub open spec fn names_binary(target: Seq<char>) -> bool {
    let name = last_part(target);
    let dot = past_last(name, '.');
    dot > 0 && binary_extension(ascii_lowered(name.skip(dot)))
}

/// The status of a link that found no file: a link to a folder is not a broken link to a file.
pub open spec fn lost_status<L: Lookup + ?Sized>(l: &L, folder: Seq<char>, target: Seq<char>) -> Seq<char> {
    if is_folder_at(l, joined_path(folder, target)) || is_folder_at(l, joined_path("/"@, target)) {
        "folder"@
    } else if names_binary(target) {
        "not-in-store"@
    } else {
        "broken"@
    }
}

pub open spec fn is_folder_at<L: Lookup + ?Sized>(l: &L, path: Option<Seq<char>>) -> bool {
    path matches Some(p) && p != "/"@ && l.folder_at(p)
}

/// A link as it is written.
pub struct Written {
    pub kind: Seq<char>,
    pub target: Seq<char>,
    pub anchor: Option<Seq<char>>,
    pub outside: bool,
}

/// The file a link points to, and its status.
pub open spec fn resolution<L: Lookup + ?Sized>(l: &L, source_id: i64, source: Seq<char>, w: Written) -> (
    Option<i64>,
    Seq<char>,
) {
    let folder = parent_of(source);
    let docs = file_set(found_files(l, w.kind, folder, w.target, Spelling::Document));
    let assets = file_set(found_files(l, w.kind, folder, w.target, Spelling::Pointer));
    let asset = docs.len() == 0 && !ends(ascii_lowered(w.target), ".md"@);
    let found = if asset { assets } else { docs };
    if w.outside {
        (None, "external"@)
    } else if w.target.len() == 0 {
        match w.anchor {
            None => (None, "broken"@),
            Some(a) => (
                Some(source_id),
                if anchor_among(l.heading_paths(source_id), a) { "ok"@ } else { "anchor-missing"@ },
            ),
        }
    } else if found.len() == 0 {
        (None, lost_status(l, folder, w.target))
    } else {
        let id = found[nearest(folder, w.target, found, found.len() as int)].0;
        if !asset && (w.anchor matches Some(a) && !anchor_among(l.heading_paths(id), a)) {
            (Some(id), "anchor-missing"@)
        } else {
            (Some(id), if found.len() > 1 { "ambiguous"@ } else { "ok"@ })
        }
    }
}

fn text_bytes(s: &[char]) -> (n: u128)
    ensures
        n == byte_len(s@),
{
    let mut n: u128 = 0;
    let mut i: usize = 0;
    assert(s@.take(0) =~= Seq::empty());
    while i < s.len()
        invariant
            i <= s@.len(),
            n == byte_len(s@.take(i as int)),
            n <= 4 * i,
        decreases s@.len() - i,
    {
        assert(s@.take(i + 1).drop_last() =~= s@.take(i as int));
        n = n + width_of(s[i]) as u128;
        i += 1;
    }
    assert(s@.take(i as int) =~= s@);
    n
}

fn parent_chars(p: &[char]) -> (r: Vec<char>)
    ensures
        r@ == parent_of(p@),
{
    let i = after_last(p, '/');
    if i <= 1 {
        chars_of("/")
    } else {
        let h = slice_subrange(p, 0, i - 1);
        assert(h@ =~= p@.take(i - 1));
        slice_to_vec(h)
    }
}

fn exactly_spelled(path: &[char], target: &[char]) -> (r: bool)
    ensures
        r == spelled_exactly(path@, target@),
{
    if ends_with(path, target) {
        return true;
    }
    let mut longer = slice_to_vec(target);
    push_chars(&mut longer, chars_of(".md").as_slice());
    ends_with(path, longer.as_slice())
}

fn is_nearer(folder: &[char], target: &[char], a: &str, b: &str) -> (r: bool)
    ensures
        forall|x: i64, y: i64| r == #[trigger] nearer(folder@, target@, (x, a@), (y, b@)),
{
    let ca = chars_of(a);
    let cb = chars_of(b);
    let p = pointed_chars(ca.as_slice());
    let q = pointed_chars(cb.as_slice());
    let ep: bool = exactly_spelled(p, target);
    let eq: bool = exactly_spelled(q, target);
    if ep != eq {
        return ep;
    }
    let hp: bool = same_chars(parent_chars(p).as_slice(), folder);
    let hq: bool = same_chars(parent_chars(q).as_slice(), folder);
    if hp != hq {
        return hp;
    }
    let lp: u128 = text_bytes(p);
    let lq: u128 = text_bytes(q);
    if lp != lq {
        return lp < lq;
    }
    is_below(p, q)
}

fn pick_nearest(folder: &[char], target: &[char], fs: &Vec<(i64, String)>) -> (k: usize)
    requires
        fs@.len() > 0,
    ensures
        k < fs@.len(),
        k == nearest(folder@, target@, files_told(fs@), fs@.len() as int),
{
    let ghost all = files_told(fs@);
    let mut k: usize = 0;
    let mut i: usize = 1;
    while i < fs.len()
        invariant
            1 <= i <= fs@.len(),
            k < i,
            all == files_told(fs@),
            k == nearest(folder@, target@, all, i as int),
        decreases fs@.len() - i,
    {
        let better: bool = is_nearer(folder, target, fs[i].1.as_str(), fs[k].1.as_str());
        proof {
            assert(all[i as int] == (fs@[i as int].0, fs@[i as int].1@));
            assert(all[k as int] == (fs@[k as int].0, fs@[k as int].1@));
            assert(better == nearer(folder@, target@, all[i as int], all[k as int]));
        }
        if better {
            k = i;
        }
        i += 1;
    }
    k
}

fn has_binary_extension(e: &str) -> (r: bool)
    ensures
        r == binary_extension(e@),
{
    same_text(e, "pdf") || same_text(e, "png") || same_text(e, "jpg") || same_text(e, "jpeg") || same_text(e, "gif")
        || same_text(e, "svg") || same_text(e, "webp") || same_text(e, "bmp") || same_text(e, "heic") || same_text(e, "tif")
        || same_text(e, "tiff") || same_text(e, "ico") || same_text(e, "xlsx") || same_text(e, "xls") || same_text(e, "docx")
        || same_text(e, "doc") || same_text(e, "pptx") || same_text(e, "ppt") || same_text(e, "odt") || same_text(e, "ods")
        || same_text(e, "csv") || same_text(e, "tsv") || same_text(e, "zip") || same_text(e, "mp4") || same_text(e, "mov")
        || same_text(e, "mp3") || same_text(e, "wav") || same_text(e, "m4a") || same_text(e, "canvas") || same_text(e, "base")
        || same_text(e, "json") || same_text(e, "html") || same_text(e, "htm") || same_text(e, "drawio") || same_text(
        e,
        "excalidraw",
    )
}

fn folder_exists<L: Lookup>(l: &L, base: &[char], target: &[char]) -> (r: Result<bool>)
    ensures
        l.reliable() ==> r is Ok,
        r matches Ok(b) ==> b == is_folder_at(l, joined_path(base@, target@)),
{
    match join_chars(base, target) {
        Some(p) => {
            if same_chars(p.as_slice(), chars_of("/").as_slice()) {
                return Ok(false);
            }
            l.is_folder(string_of(p.as_slice()).as_str())
        },
        None => Ok(false),
    }
}

fn lost<L: Lookup>(l: &L, folder: &[char], target: &[char]) -> (r: Result<&'static str>)
    ensures
        l.reliable() ==> r is Ok,
        r matches Ok(s) ==> s@ == lost_status(l, folder@, target@),
{
    match folder_exists(l, folder, target) {
        Ok(true) => {
            return Ok("folder");
        },
        Ok(false) => {},
        Err(e) => {
            return Err(e);
        },
    }
    match folder_exists(l, chars_of("/").as_slice(), target) {
        Ok(true) => {
            return Ok("folder");
        },
        Ok(false) => {},
        Err(e) => {
            return Err(e);
        },
    }
    let name = last_segment(target);
    let dot = after_last(name, '.');
    if dot > 0 {
        let ext = slice_subrange(name, dot, name.len());
        assert(ext@ =~= name@.skip(dot as int));
        let low = string_of(to_ascii_lowered(ext).as_slice());
        if has_binary_extension(low.as_str()) {
            return Ok("not-in-store");
        }
    }
    Ok("broken")
}

/// The file a link written in `source` (id and path) points to, and its status. `kind` is the
/// extractor's (`wiki`, `embed`, `md`, `image`); `target` is without anchor or alias.
pub fn resolve<L: Lookup>(
    l: &L,
    source_id: i64,
    source: &str,
    kind: &str,
    target: &str,
    anchor: Option<&str>,
    external: bool,
) -> (r: Result<(Option<i64>, &'static str)>)
    ensures
        l.reliable() ==> r is Ok,
        r matches Ok(p) ==> (p.0, p.1@) == resolution(
            l,
            source_id,
            source@,
            (Written {
                kind: kind@,
                target: target@,
                anchor: match anchor {
                    Some(a) => Some(a@),
                    None => None,
                },
                outside: external,
            }),
        ),
{
    if external {
        return Ok((None, "external"));
    }
    let t = chars_of(target);
    if t.len() == 0 {
        return match anchor {
            None => Ok((None, "broken")),
            Some(a) => match anchor_exists(l, source_id, a) {
                Ok(true) => Ok((Some(source_id), "ok")),
                Ok(false) => Ok((Some(source_id), "anchor-missing")),
                Err(e) => Err(e),
            },
        };
    }
    let folder = chars_of(parent(source));
    let mut found = match candidates(l, kind, folder.as_slice(), t.as_slice(), Spelling::Document) {
        Ok(v) => v,
        Err(e) => {
            return Err(e);
        },
    };
    // No document: the pointer of an asset by that name.
    let low = to_ascii_lowered(t.as_slice());
    let asset: bool = found.len() == 0 && !ends_with(low.as_slice(), chars_of(".md").as_slice());
    if asset {
        found = match candidates(l, kind, folder.as_slice(), t.as_slice(), Spelling::Pointer) {
            Ok(v) => v,
            Err(e) => {
                return Err(e);
            },
        };
    }
    if found.len() == 0 {
        return match lost(l, folder.as_slice(), t.as_slice()) {
            Ok(s) => Ok((None, s)),
            Err(e) => Err(e),
        };
    }
    let k = pick_nearest(folder.as_slice(), t.as_slice(), &found);
    let id: i64 = found[k].0;
    // An asset's anchor (`#page=3`) is not a heading.
    if !asset {
        match anchor {
            Some(a) => match anchor_exists(l, id, a) {
                Ok(true) => {},
                Ok(false) => {
                    return Ok((Some(id), "anchor-missing"));
                },
                Err(e) => {
                    return Err(e);
                },
            },
            None => {},
        }
    }
    if found.len() > 1 {
        Ok((Some(id), "ambiguous"))
    } else {
        Ok((Some(id), "ok"))
    }
}

/// A character of a markdown target as it is written outside `<…>`.
pub open spec fn percent_encoded(c: char) -> Seq<char> {
    if c == '%' {
        "%25"@
    } else if c == ' ' {
        "%20"@
    } else if c == '(' {
        "%28"@
    } else if c == ')' {
        "%29"@
    } else {
        seq![c]
    }
}

pub open spec fn all_encoded(s: Seq<char>) -> Seq<char>
    decreases s.len(),
{
    if s.len() == 0 {
        Seq::empty()
    } else {
        all_encoded(s.drop_last()) + percent_encoded(s.last())
    }
}

fn encode_target(s: &[char]) -> (out: Vec<char>)
    ensures
        out@ == all_encoded(s@),
{
    let mut out: Vec<char> = Vec::new();
    let mut i: usize = 0;
    assert(s@.take(0) =~= Seq::empty());
    while i < s.len()
        invariant
            i <= s@.len(),
            out@ == all_encoded(s@.take(i as int)),
        decreases s@.len() - i,
    {
        let c = s[i];
        let ghost before = out@;
        proof {
            assert(s@.take(i + 1).drop_last() =~= s@.take(i as int));
        }
        if c == '%' {
            push_chars(&mut out, chars_of("%25").as_slice());
        } else if c == ' ' {
            push_chars(&mut out, chars_of("%20").as_slice());
        } else if c == '(' {
            push_chars(&mut out, chars_of("%28").as_slice());
        } else if c == ')' {
            push_chars(&mut out, chars_of("%29").as_slice());
        } else {
            out.push(c);
            assert(out@ =~= before + seq![c]);
        }
        i += 1;
    }
    assert(s@.take(i as int) =~= s@);
    out
}

/// `path` with or without `.md`, as the raw target had it.
pub open spec fn with_extension(raw: Seq<char>, path: Seq<char>) -> Seq<char> {
    if ends(ascii_lowered(raw), ".md"@) {
        path
    } else {
        without_suffix(path, ".md"@)
    }
}

fn keep_extension(raw: &[char], path: &[char]) -> (r: Vec<char>)
    ensures
        r@ == with_extension(raw@, path@),
{
    let md = chars_of(".md");
    let low = to_ascii_lowered(raw);
    if ends_with(low.as_slice(), md.as_slice()) {
        slice_to_vec(path)
    } else {
        slice_to_vec(strip_suffix(path, md.as_slice()))
    }
}

/// How a link's target is written again, in the style `raw` was written.
pub open spec fn retargeted<L: Lookup + ?Sized>(
    l: &L,
    kind: Seq<char>,
    raw: Seq<char>,
    angle: bool,
    source: Seq<char>,
    to: Seq<char>,
) -> Seq<char> {
    let target = pointed(to);
    let folder = parent_of(source);
    let name = last_part(target);
    let rel = relative_path(folder, target);
    if kind == "wiki"@ || kind == "embed"@ {
        if !raw.contains('/') {
            if l.with_name(name).len() + l.with_name(name + ".tdbasset"@).len() <= 1 {
                with_extension(raw, name)
            } else {
                with_extension(raw, target.skip(1))
            }
        } else if begins(raw, "./"@) || begins(raw, "../"@) {
            with_extension(raw, rel)
        } else {
            with_extension(raw, target.skip(1))
        }
    } else {
        let path = if begins(raw, "/"@) {
            target
        } else if begins(raw, "./"@) && !begins(rel, "../"@) {
            "./"@ + rel
        } else {
            rel
        };
        if angle {
            with_extension(raw, path)
        } else {
            all_encoded(with_extension(raw, path))
        }
    }
}

/// Is the target written as a path of the vault, which is the store path without its first slash?
pub open spec fn cuts_root<L: Lookup + ?Sized>(l: &L, kind: Seq<char>, raw: Seq<char>, to: Seq<char>) -> bool {
    let name = last_part(pointed(to));
    &&& kind == "wiki"@ || kind == "embed"@
    &&& if !raw.contains('/') {
        l.with_name(name).len() + l.with_name(name + ".tdbasset"@).len() > 1
    } else {
        !begins(raw, "./"@) && !begins(raw, "../"@)
    }
}

/// How to write a link's target again, in the style `raw` was written, for a link in `source` to
/// the file now at `target`: bare names while they stay unique, vault paths, relative markdown
/// paths, `.md` kept or left out as before, `%20` in markdown links unless in `<…>`.
pub fn rewritten_target<L: Lookup>(l: &L, kind: &str, raw: &str, angle: bool, source: &str, target: &str) -> (r: Result<String>)
    requires
        cuts_root(l, kind@, raw@, target@) ==> pointed(target@).len() > 0,
    ensures
        l.reliable() ==> r is Ok,
        r matches Ok(s) ==> s@ == retargeted(l, kind@, raw@, angle, source@, target@),
{
    // A link to an asset names the file, not its pointer.
    let whole = chars_of(target);
    let t = pointed_chars(whole.as_slice());
    let rc = chars_of(raw);
    let c = rc.as_slice();
    let folder = chars_of(parent(source));
    let dot = chars_of("./");
    let dots = chars_of("../");
    if same_text(kind, "wiki") || same_text(kind, "embed") {
        if !has_char(c, '/') {
            let name = last_segment(t);
            let plain = string_of(name);
            let mut pointer = string_of(name);
            pointer.append(".tdbasset");
            let x = match l.files_by_name(plain.as_str()) {
                Ok(v) => v,
                Err(e) => {
                    return Err(e);
                },
            };
            let y = match l.files_by_name(pointer.as_str()) {
                Ok(v) => v,
                Err(e) => {
                    return Err(e);
                },
            };
            proof {
                assert(files_told(x@).len() == x@.len());
                assert(files_told(y@).len() == y@.len());
            }
            let unique: bool = x.len() == 0 && y.len() <= 1 || x.len() == 1 && y.len() == 0;
            if unique {
                Ok(string_of(keep_extension(c, name).as_slice()))
            } else {
                let from_root = slice_subrange(t, 1, t.len());
                assert(from_root@ =~= t@.skip(1));
                Ok(string_of(keep_extension(c, from_root).as_slice()))
            }
        } else if begins_with(c, dot.as_slice()) || begins_with(c, dots.as_slice()) {
            let rel = relative_chars(folder.as_slice(), t);
            Ok(string_of(keep_extension(c, rel.as_slice()).as_slice()))
        } else {
            let from_root = slice_subrange(t, 1, t.len());
            assert(from_root@ =~= t@.skip(1));
            Ok(string_of(keep_extension(c, from_root).as_slice()))
        }
    } else {
        let path: Vec<char> = if begins_with(c, chars_of("/").as_slice()) {
            slice_to_vec(t)
        } else {
            let rel = relative_chars(folder.as_slice(), t);
            if begins_with(c, dot.as_slice()) && !begins_with(rel.as_slice(), dots.as_slice()) {
                let mut p = chars_of("./");
                push_chars(&mut p, rel.as_slice());
                p
            } else {
                rel
            }
        };
        let kept = keep_extension(c, path.as_slice());
        if angle {
            Ok(string_of(kept.as_slice()))
        } else {
            Ok(string_of(encode_target(kept.as_slice()).as_slice()))
        }
    }
}

/// The 1-based line of each byte offset in `doc`, for pairing scanned spans with stored rows.
pub fn line_of_offset(doc: &[u8]) -> (r: LineTable)
    ensures
        r.tells(doc@),
{
    LineTable::new(doc)
}

} // verus!

//! Links on Postgres: the rows they are written as, and what a move does to the links that
//! pointed at what moved.

use vstd::prelude::*;
use vstd::slice::slice_subrange;
use vstd::string::*;
use vstd::utf8::*;
use crate::chars::{
    ascii_lowered, is_below, lemma_below_chain, lemma_below_total, text_below, texts, trim_white,
};
use crate::edit::Edit;
use crate::error::TextdbError;
use crate::md::links::{all_found, body_marks, links_in, scan, Found, LinkSpan};
use crate::md::offsets::line_number;
use crate::md::resolve::{
    key_of_name, line_of_offset, name_key, retargeted, rewritten_target, updates_named, LinkUpdates, Lookup,
};
use crate::patch::{edit_views, EditView};
use crate::pg::bulk::refused;
use crate::storage::Result;
use crate::structure::Link;
use crate::text::{chars_of, lossy_text, same_text, utf8_lossy};

verus! {

/// The name a link's row is found by: none for a link that leads out of the store or has no
/// target.
pub fn target_name(l: &Link) -> (r: Option<String>)
    ensures
        match r {
            Some(s) => !l.external && l.target_path@.len() > 0 && s@ == key_of_name(l.target_path@),
            None => l.external || l.target_path@.len() == 0,
        },
{
    if l.external || l.target_path.as_str().unicode_len() == 0 {
        None
    } else {
        Some(name_key(l.target_path.as_str()))
    }
}

/// Texts in ascending order, none twice.
pub open spec fn ascending_texts(v: Seq<Seq<char>>) -> bool {
    forall|i: int, j: int| 0 <= i < j < v.len() ==> text_below(#[trigger] v[i], #[trigger] v[j])
}

/// Put a text into its place, unless it is there.
fn put_text(names: &mut Vec<String>, name: String)
    requires
        ascending_texts(texts(old(names)@)),
    ensures
        ascending_texts(texts(final(names)@)),
        forall|x: Seq<char>| #[trigger]
            texts(final(names)@).contains(x) <==> x == name@ || texts(old(names)@).contains(x),
{
    let ghost before = texts(names@);
    let key: Vec<char> = chars_of(name.as_str());
    let mut i: usize = 0;
    while i < names.len()
        invariant_except_break
            i <= names@.len(),
        invariant
            texts(names@) == before,
            ascending_texts(before),
            key@ == name@,
            forall|k: int| 0 <= k < i ==> text_below(#[trigger] before[k], name@),
        ensures
            i <= names@.len(),
            i < names@.len() ==> before[i as int] == name@ || text_below(name@, before[i as int]),
        decreases names@.len() - i,
    {
        let at: Vec<char> = chars_of(names[i].as_str());
        proof {
            assert(before[i as int] == names@[i as int]@);
            lemma_below_total(before[i as int], name@);
        }
        if !is_below(at.as_slice(), key.as_slice()) {
            break;
        }
        i += 1;
    }
    if i < names.len() && same_text(names[i].as_str(), name.as_str()) {
        proof {
            assert(before[i as int] == name@);
            assert(before.contains(name@));
        }
        return;
    }
    proof {
        if i < names@.len() {
            assert(before[i as int] == names@[i as int]@);
        }
    }
    names.insert(i, name);
    proof {
        let after = texts(names@);
        assert(after =~= before.insert(i as int, name@));
        assert forall|a: int, b: int| 0 <= a < b < after.len() implies text_below(#[trigger] after[a], #[trigger] after[b]) by {
            if a < i && b == i {
                assert(before[a] == after[a]);
            } else if a == i {
                assert(before[b - 1] == after[b]);
                if b - 1 > i {
                    assert(text_below(before[i as int], before[b - 1]));
                    lemma_below_chain(name@, before[i as int], before[b - 1]);
                }
            } else if b < i {
                assert(before[a] == after[a]);
                assert(before[b] == after[b]);
            } else if a < i {
                assert(before[a] == after[a]);
                assert(before[b - 1] == after[b]);
            } else {
                assert(before[a - 1] == after[a]);
                assert(before[b - 1] == after[b]);
            }
        }
        assert forall|x: Seq<char>| #[trigger] after.contains(x) <==> x == name@ || before.contains(x) by {
            if before.contains(x) {
                let k = choose|k: int| 0 <= k < before.len() && before[k] == x;
                if k < i {
                    assert(after[k] == x);
                } else {
                    assert(after[k + 1] == x);
                }
            }
            if x == name@ {
                assert(after[i as int] == x);
            }
            if after.contains(x) {
                let k = choose|k: int| 0 <= k < after.len() && after[k] == x;
                if k < i {
                    assert(before[k] == x);
                } else if k > i {
                    assert(before[k - 1] == x);
                }
            }
        }
    }
}

/// One of the first `n` files is found by a name.
pub open spec fn names_file(files: Seq<(i64, String)>, n: int, x: Seq<char>) -> bool {
    exists|i: int| 0 <= i < n && key_of_name((#[trigger] files[i]).1@) == x
}

/// The name keys of `files`' paths, in order and without repeats.
pub fn names_of(files: &[(i64, String)]) -> (names: Vec<String>)
    ensures
        ascending_texts(texts(names@)),
        forall|x: Seq<char>| #[trigger]
            texts(names@).contains(x) <==> names_file(files@, files@.len() as int, x),
{
    let mut names: Vec<String> = Vec::new();
    let mut i: usize = 0;
    while i < files.len()
        invariant
            i <= files@.len(),
            ascending_texts(texts(names@)),
            forall|x: Seq<char>| #[trigger] texts(names@).contains(x) <==> names_file(files@, i as int, x),
        decreases files@.len() - i,
    {
        let ghost before = texts(names@);
        let k = name_key(files[i].1.as_str());
        let ghost key = k@;
        put_text(&mut names, k);
        proof {
            assert forall|x: Seq<char>| #[trigger] texts(names@).contains(x) <==> names_file(files@, i + 1, x) by {
                if x == key {
                    assert(key_of_name(files@[i as int].1@) == x);
                }
                if before.contains(x) {
                    assert(names_file(files@, i as int, x));
                }
                if names_file(files@, i + 1, x) {
                    let j = choose|j: int| 0 <= j < i + 1 && key_of_name((#[trigger] files@[j]).1@) == x;
                    if j < i {
                        assert(names_file(files@, i as int, x));
                        assert(before.contains(x));
                    }
                }
            }
        }
        i += 1;
    }
    names
}

/// What a word asks for, read in any case and without white space around it.
pub open spec fn updates_asked(s: Seq<char>) -> Option<LinkUpdates> {
    updates_named(ascii_lowered(trim_white(s)))
}

/// What a move does to links: `choice` (`off`, `report`, `rewrite`) when given, else what the
/// store has set, else report.
pub fn mode(choice: Option<&str>, stored: Option<&str>) -> (r: Result<LinkUpdates>)
    ensures
        choice matches Some(c) ==> match updates_asked(c@) {
            Some(m) => r == Ok::<LinkUpdates, TextdbError>(m),
            None => refused(r, "link updates are off, report or rewrite, not '"@ + c@ + "'"@),
        },
        choice is None ==> r == Ok::<LinkUpdates, TextdbError>(
            match stored {
                Some(s) => match updates_asked(s@) {
                    Some(m) => m,
                    None => LinkUpdates::Report,
                },
                None => LinkUpdates::Report,
            },
        ),
{
    match choice {
        Some(c) => match LinkUpdates::parse(c) {
            Some(m) => Ok(m),
            None => {
                let mut e = String::from_str("link updates are off, report or rewrite, not '");
                e.append(c);
                e.append("'");
                Err(TextdbError::InvalidEdit(e))
            },
        },
        None => match stored {
            Some(s) => match LinkUpdates::parse(s) {
                Some(m) => Ok(m),
                None => Ok(LinkUpdates::Report),
            },
            None => Ok(LinkUpdates::Report),
        },
    }
}

/// Are the links that point at what moves read before the move? Not if nothing is done about
/// them, and not for a report that nobody reads.
pub fn reads_pointing(mode: LinkUpdates, report: bool) -> (r: bool)
    ensures
        r == (mode == LinkUpdates::Rewrite || mode == LinkUpdates::Report && report),
{
    match mode {
        LinkUpdates::Off => false,
        LinkUpdates::Report => report,
        LinkUpdates::Rewrite => true,
    }
}

/// A resolved link captured before a move.
#[derive(Clone, Debug, PartialEq, Eq)]
pub struct Pointing {
    pub id: i64,
    pub file_id: i64,
    pub line: i64,
    pub kind: String,
    pub target: String,
    pub resolved_id: i64,
}

/// A captured link as a mathematical value.
#[verifier::ext_equal]
pub struct Pointer {
    pub id: i64,
    pub file_id: i64,
    pub line: i64,
    pub kind: Seq<char>,
    pub target: Seq<char>,
    pub resolved_id: i64,
}

impl View for Pointing {
    type V = Pointer;

    open spec fn view(&self) -> Pointer {
        Pointer {
            id: self.id,
            file_id: self.file_id,
            line: self.line,
            kind: self.kind@,
            target: self.target@,
            resolved_id: self.resolved_id,
        }
    }
}

pub open spec fn pointers(v: Seq<Pointing>) -> Seq<Pointer> {
    Seq::new(v.len(), |i: int| v[i]@)
}

fn copy_pointing(p: &Pointing) -> (r: Pointing)
    ensures
        r@ == p@,
{
    Pointing {
        id: p.id,
        file_id: p.file_id,
        line: p.line,
        kind: p.kind.clone(),
        target: p.target.clone(),
        resolved_id: p.resolved_id,
    }
}

/// The links written in one file.
#[derive(Debug, PartialEq, Eq)]
pub struct FileLinks {
    pub file_id: i64,
    pub links: Vec<Pointing>,
}

/// Of the first `n` links, those in a file that no longer resolve to what they did.
pub open spec fn lost_in(points: Seq<Pointer>, now: Seq<Option<i64>>, n: int, file: i64) -> Seq<Pointer>
    decreases n,
{
    if n <= 0 {
        Seq::empty()
    } else {
        let before = lost_in(points, now, n - 1, file);
        let p = points[n - 1];
        if p.file_id == file && now[n - 1] != Some(p.resolved_id) {
            before.push(p)
        } else {
            before
        }
    }
}

/// The groups hold the lost links of the first `n`, file by file in ascending order; a file without
/// any has no group.
pub open spec fn grouped(points: Seq<Pointer>, now: Seq<Option<i64>>, n: int, out: Seq<FileLinks>) -> bool {
    &&& forall|i: int, j: int| 0 <= i < j < out.len() ==> (#[trigger] out[i]).file_id < (#[trigger] out[j]).file_id
    &&& forall|i: int|
        0 <= i < out.len() ==> pointers((#[trigger] out[i]).links@) == lost_in(points, now, n, out[i].file_id)
    &&& forall|i: int| 0 <= i < out.len() ==> (#[trigger] out[i]).links@.len() > 0
    &&& forall|file: i64|
        #![trigger lost_in(points, now, n, file)]
        lost_in(points, now, n, file).len() > 0 ==> exists|i: int| 0 <= i < out.len() && (#[trigger] out[i]).file_id == file
}

/// The links that no longer resolve to what they did, file by file. `now` says what each resolves
/// to after the move.
pub fn lost_links(pointing: &Vec<Pointing>, now: &Vec<Option<i64>>) -> (out: Vec<FileLinks>)
    requires
        now@.len() == pointing@.len(),
    ensures
        grouped(pointers(pointing@), now@, pointing@.len() as int, out@),
{
    let ghost points = pointers(pointing@);
    let mut out: Vec<FileLinks> = Vec::new();
    let mut n: usize = 0;
    while n < pointing.len()
        invariant
            n <= pointing@.len(),
            now@.len() == pointing@.len(),
            points == pointers(pointing@),
            grouped(points, now@, n as int, out@),
        decreases pointing@.len() - n,
    {
        let p = &pointing[n];
        proof {
            assert(points[n as int] == p@);
        }
        let lost: bool = match now[n] {
            Some(id) => id != p.resolved_id,
            None => true,
        };
        let ghost out0 = out@;
        if lost {
            let mut i: usize = 0;
            while i < out.len()
                invariant_except_break
                    i <= out@.len(),
                invariant
                    out@ == out0,
                    forall|k: int| 0 <= k < i ==> (#[trigger] out0[k]).file_id < p.file_id,
                ensures
                    i <= out@.len(),
                    i < out@.len() ==> out0[i as int].file_id >= p.file_id,
                decreases out@.len() - i,
            {
                if out[i].file_id >= p.file_id {
                    break;
                }
                i += 1;
            }
            let ghost g = lost_in(points, now@, n as int, p.file_id);
            if i < out.len() && out[i].file_id == p.file_id {
                let ghost group0 = out@[i as int];
                let mut group = out.remove(i);
                group.links.push(copy_pointing(p));
                proof {
                    assert(pointers(group.links@) =~= pointers(group0.links@).push(p@));
                }
                let ghost group1 = group;
                out.insert(i, group);
                proof {
                    assert(out@ =~= out0.update(i as int, group1));
                    lemma_group_grown(points, now@, n as int, out0, out@, i as int);
                }
            } else {
                let mut links: Vec<Pointing> = Vec::new();
                links.push(copy_pointing(p));
                proof {
                    assert(pointers(links@) =~= seq![p@]);
                }
                let ghost group1 = FileLinks { file_id: p.file_id, links };
                out.insert(i, FileLinks { file_id: p.file_id, links });
                proof {
                    assert(out@ =~= out0.insert(i as int, group1));
                    lemma_group_new(points, now@, n as int, out0, out@, i as int);
                }
            }
        } else {
            proof {
                assert forall|i: int| 0 <= i < out@.len() implies pointers((#[trigger] out@[i]).links@) == lost_in(
                    points,
                    now@,
                    n + 1,
                    out@[i].file_id,
                ) by {
                    assert(pointers(out@[i].links@) == lost_in(points, now@, n as int, out@[i].file_id));
                }
                assert forall|file: i64| (#[trigger] lost_in(points, now@, n + 1, file)).len() > 0 implies exists|i: int|
                    0 <= i < out@.len() && (#[trigger] out@[i]).file_id == file by {
                    assert(lost_in(points, now@, n as int, file).len() > 0);
                }
            }
        }
        n += 1;
    }
    out
}

proof fn lemma_group_grown(
    points: Seq<Pointer>,
    now: Seq<Option<i64>>,
    n: int,
    a: Seq<FileLinks>,
    b: Seq<FileLinks>,
    i: int,
)
    requires
        0 <= n < points.len(),
        grouped(points, now, n, a),
        0 <= i < a.len(),
        a[i].file_id == points[n].file_id,
        now[n] != Some(points[n].resolved_id),
        b == a.update(i, b[i]),
        b[i].file_id == a[i].file_id,
        pointers(b[i].links@) == pointers(a[i].links@).push(points[n]),
    ensures
        grouped(points, now, n + 1, b),
{
    assert forall|x: int, y: int| 0 <= x < y < b.len() implies (#[trigger] b[x]).file_id < (#[trigger] b[y]).file_id by {
        assert(a[x].file_id < a[y].file_id);
    }
    assert forall|k: int| 0 <= k < b.len() implies pointers((#[trigger] b[k]).links@) == lost_in(
        points,
        now,
        n + 1,
        b[k].file_id,
    ) by {
        assert(pointers(a[k].links@) == lost_in(points, now, n, a[k].file_id));
        if k < i {
            assert(a[k].file_id < a[i].file_id);
        } else if k > i {
            assert(a[i].file_id < a[k].file_id);
        }
    }
    assert forall|file: i64| (#[trigger] lost_in(points, now, n + 1, file)).len() > 0 implies exists|k: int|
        0 <= k < b.len() && (#[trigger] b[k]).file_id == file by {
        if file == points[n].file_id {
            assert(b[i].file_id == file);
        } else {
            assert(lost_in(points, now, n, file).len() > 0);
            let k = choose|k: int| 0 <= k < a.len() && (#[trigger] a[k]).file_id == file;
            assert(b[k].file_id == file);
        }
    }
}

proof fn lemma_group_new(
    points: Seq<Pointer>,
    now: Seq<Option<i64>>,
    n: int,
    a: Seq<FileLinks>,
    b: Seq<FileLinks>,
    i: int,
)
    requires
        0 <= n < points.len(),
        grouped(points, now, n, a),
        0 <= i <= a.len(),
        b == a.insert(i, b[i]),
        b[i].file_id == points[n].file_id,
        pointers(b[i].links@) == seq![points[n]],
        now[n] != Some(points[n].resolved_id),
        forall|k: int| 0 <= k < i ==> (#[trigger] a[k]).file_id < points[n].file_id,
        i < a.len() ==> a[i].file_id > points[n].file_id,
    ensures
        grouped(points, now, n + 1, b),
{
    let file = points[n].file_id;
    assert forall|k: int| i <= k < a.len() implies (#[trigger] a[k]).file_id > file by {
        if k > i {
            assert(a[i].file_id < a[k].file_id);
        }
    }
    assert(lost_in(points, now, n, file).len() == 0) by {
        if lost_in(points, now, n, file).len() > 0 {
            let k = choose|k: int| 0 <= k < a.len() && (#[trigger] a[k]).file_id == file;
            assert(a[k].file_id != file);
        }
    }
    assert(lost_in(points, now, n + 1, file) =~= seq![points[n]]);
    assert forall|x: int, y: int| 0 <= x < y < b.len() implies (#[trigger] b[x]).file_id < (#[trigger] b[y]).file_id by {
        let xa = if x < i {
            x
        } else {
            x - 1
        };
        let ya = if y < i {
            y
        } else {
            y - 1
        };
        if x != i {
            assert(b[x] == a[xa]);
        }
        if y != i {
            assert(b[y] == a[ya]);
        }
    }
    assert forall|k: int| 0 <= k < b.len() implies pointers((#[trigger] b[k]).links@) == lost_in(
        points,
        now,
        n + 1,
        b[k].file_id,
    ) by {
        if k < i {
            assert(b[k] == a[k]);
            assert(pointers(a[k].links@) == lost_in(points, now, n, a[k].file_id));
        } else if k > i {
            assert(b[k] == a[k - 1]);
            assert(pointers(a[k - 1].links@) == lost_in(points, now, n, a[k - 1].file_id));
        }
    }
    assert forall|other: i64| (#[trigger] lost_in(points, now, n + 1, other)).len() > 0 implies exists|k: int|
        0 <= k < b.len() && (#[trigger] b[k]).file_id == other by {
        if other == file {
            assert(b[i].file_id == other);
        } else {
            assert(lost_in(points, now, n, other).len() > 0);
            let k = choose|k: int| 0 <= k < a.len() && (#[trigger] a[k]).file_id == other;
            if k < i {
                assert(b[k].file_id == other);
            } else {
                assert(b[k + 1].file_id == other);
            }
        }
    }
}

/// The first link of a line, kind and target that is not yet paired; the number of links if there
/// is none.
pub open spec fn partner(links: Seq<Pointer>, f: Found, line: int, paired: Seq<i64>, i: int) -> int
    decreases links.len() - i,
{
    if i >= links.len() {
        links.len() as int
    } else if links[i].line == line && links[i].kind == f.kind && links[i].target == f.target && !paired.contains(links[i].id) {
        i
    } else {
        partner(links, f, line, paired, i + 1)
    }
}

/// What was done about the links of a file: which rows were met in the text, the edits, and the
/// rows they rewrite.
#[verifier::ext_equal]
pub struct Rewriting {
    pub paired: Seq<i64>,
    pub edits: Seq<EditView>,
    pub rewritten: Seq<i64>,
}

/// A document whose links are rewritten: its text, its path, the rows of its links and the path
/// each of them should lead to.
pub struct Source {
    pub doc: Seq<u8>,
    pub path: Seq<char>,
    pub links: Seq<Pointer>,
    pub targets: Seq<Option<Seq<char>>>,
}

/// What is done at one link found in the text.
pub open spec fn rewrite_step<L: Lookup>(l: &L, s: Source, w: Rewriting, f: Found) -> Rewriting {
    match f.range {
        None => w,
        Some((from, to)) => {
            let k = partner(s.links, f, line_number(s.doc, f.offset) as int, w.paired, 0);
            if k >= s.links.len() {
                w
            } else {
                let met = Rewriting { paired: w.paired.push(s.links[k].id), ..w };
                match s.targets[k] {
                    None => met,
                    Some(target) => if from <= to <= s.doc.len() {
                        let raw = utf8_lossy(s.doc.subrange(from, to));
                        let new = retargeted(l, f.kind, raw, f.angle, s.path, target);
                        if new == raw {
                            met
                        } else {
                            Rewriting {
                                edits: w.edits.push(EditView { from, to, text: encode_utf8(new) }),
                                rewritten: w.rewritten.push(s.links[k].id),
                                ..met
                            }
                        }
                    } else {
                        met
                    },
                }
            }
        },
    }
}

/// What is done at the first `n` links found in the text, in document order.
pub open spec fn rewriting<L: Lookup>(l: &L, s: Source, found: Seq<Found>, n: int) -> Rewriting
    decreases n,
{
    if n <= 0 {
        Rewriting { paired: Seq::empty(), edits: Seq::empty(), rewritten: Seq::empty() }
    } else {
        rewrite_step(l, s, rewriting(l, s, found, n - 1), found[n - 1])
    }
}

fn has_id(ids: &Vec<i64>, id: i64) -> (r: bool)
    ensures
        r == ids@.contains(id),
{
    let mut i: usize = 0;
    while i < ids.len()
        invariant
            i <= ids@.len(),
            forall|k: int| 0 <= k < i ==> ids@[k] != id,
        decreases ids@.len() - i,
    {
        if ids[i] == id {
            return true;
        }
        i += 1;
    }
    false
}

fn find_partner(links: &Vec<Pointing>, f: &LinkSpan, line: usize, paired: &Vec<i64>) -> (i: usize)
    ensures
        i == partner(pointers(links@), f@, line as int, paired@, 0),
        i <= links@.len(),
{
    let ghost ps = pointers(links@);
    let mut i: usize = 0;
    while i < links.len()
        invariant
            i <= links@.len(),
            ps == pointers(links@),
            partner(ps, f@, line as int, paired@, 0) == partner(ps, f@, line as int, paired@, i as int),
        decreases links@.len() - i,
    {
        let p = &links[i];
        proof {
            assert(ps[i as int] == p@);
        }
        if p.line >= 0 && p.line as u64 == line as u64 && same_text(p.kind.as_str(), f.kind) && same_text(
            p.target.as_str(),
            f.target.as_str(),
        ) && !has_id(paired, p.id) {
            return i;
        }
        i += 1;
    }
    i
}

pub open spec fn some_texts(v: Seq<Option<String>>) -> Seq<Option<Seq<char>>> {
    Seq::new(
        v.len(),
        |i: int|
            match v[i] {
                Some(s) => Some(s@),
                None => None,
            },
    )
}

/// The edits that write the links of a document again, after the files they resolved to moved,
/// and the rows they rewrite. Rows are in document order, as the links found in the text are: each
/// link is paired with the first row of its line, kind and target not already paired. `targets` are
/// the paths of the files the rows resolved to, where they are live.
pub fn link_edits<L: Lookup>(
    l: &L,
    doc: &[u8],
    source: &str,
    links: &Vec<Pointing>,
    targets: &Vec<Option<String>>,
) -> (r: Result<(Vec<Edit>, Vec<i64>)>)
    requires
        targets@.len() == links@.len(),
        forall|i: int| 0 <= i < targets@.len() ==> ((#[trigger] targets@[i]) matches Some(t) ==> t@.len() > 0),
    ensures
        l.reliable() ==> r is Ok,
        r matches Ok(p) ==> ({
            let found = links_in(utf8_lossy(doc@), body_marks(utf8_lossy(doc@)));
            let s = Source { doc: doc@, path: source@, links: pointers(links@), targets: some_texts(targets@) };
            let w = rewriting(l, s, found, found.len() as int);
            edit_views(p.0@) == w.edits && p.1@ == w.rewritten
        }),
{
    let ghost s = Source { doc: doc@, path: source@, links: pointers(links@), targets: some_texts(targets@) };
    let table = line_of_offset(doc);
    let spans = scan(doc);
    let ghost found = all_found(spans@);
    let mut edits: Vec<Edit> = Vec::new();
    let mut paired: Vec<i64> = Vec::new();
    let mut rewritten: Vec<i64> = Vec::new();
    let mut n: usize = 0;
    proof {
        assert(edit_views(edits@) =~= Seq::<EditView>::empty());
        assert(paired@ =~= Seq::<i64>::empty());
        assert(rewritten@ =~= Seq::<i64>::empty());
    }
    while n < spans.len()
        invariant
            n <= spans@.len(),
            targets@.len() == links@.len(),
            forall|i: int| 0 <= i < targets@.len() ==> ((#[trigger] targets@[i]) matches Some(t) ==> t@.len() > 0),
            found == all_found(spans@),
            s == (Source { doc: doc@, path: source@, links: pointers(links@), targets: some_texts(targets@) }),
            table.tells(doc@),
            (Rewriting { paired: paired@, edits: edit_views(edits@), rewritten: rewritten@ }) == rewriting(l, s, found, n as int),
        decreases spans@.len() - n,
    {
        let f = &spans[n];
        let ghost w = rewriting(l, s, found, n as int);
        proof {
            assert(found[n as int] == f@);
        }
        if let Some(range) = &f.range {
            let line: usize = table.line(f.offset);
            let k: usize = find_partner(links, f, line, &paired);
            if k < links.len() {
                paired.push(links[k].id);
                proof {
                    assert(s.links[k as int] == links@[k as int]@);
                    assert(paired@ =~= w.paired.push(s.links[k as int].id));
                }
                if let Some(target) = &targets[k] {
                    if range.start <= range.end && range.end <= doc.len() {
                        let bytes = slice_subrange(doc, range.start, range.end);
                        let raw = lossy_text(bytes);
                        let new = match rewritten_target(l, f.kind, raw.as_str(), f.angle, source, target.as_str()) {
                            Ok(t) => t,
                            Err(e) => {
                                return Err(e);
                            },
                        };
                        if !same_text(new.as_str(), raw.as_str()) {
                            let ghost e0 = edits@;
                            edits.push(Edit::new(range.start as u64, range.end as u64, new.as_str().as_bytes_vec()));
                            rewritten.push(links[k].id);
                            proof {
                                assert(edit_views(edits@) =~= edit_views(e0).push(
                                    EditView {
                                        from: range.start as int,
                                        to: range.end as int,
                                        text: encode_utf8(new@),
                                    },
                                ));
                            }
                        }
                    }
                }
            }
        }
        n += 1;
    }
    Ok((edits, rewritten))
}

/// A link that a move left pointing elsewhere, as it is told.
#[derive(Debug, PartialEq, Eq)]
pub struct LinkChange {
    pub path: String,
    pub line: i64,
    pub kind: String,
    pub target: String,
    /// Where the file it resolved to is now; empty if it is not live.
    pub now_at: String,
    /// The version that rewrites it, if one does.
    pub version: Option<i64>,
}

/// A told link says what its row says.
pub open spec fn tells_link(c: LinkChange, source: Seq<char>, p: Pointer, now_at: Option<Seq<char>>, version: Option<i64>) -> bool {
    &&& c.path@ == source
    &&& c.line == p.line
    &&& c.kind@ == p.kind
    &&& c.target@ == p.target
    &&& c.now_at@ == match now_at {
        Some(s) => s,
        None => Seq::empty(),
    }
    &&& c.version == version
}

/// The links of a document that a move left pointing elsewhere, those that were rewritten with
/// the version that did it.
pub fn link_changes(
    source: &str,
    links: &Vec<Pointing>,
    targets: &Vec<Option<String>>,
    rewritten: &Vec<i64>,
    version: Option<i64>,
) -> (out: Vec<LinkChange>)
    requires
        targets@.len() == links@.len(),
    ensures
        out@.len() == links@.len(),
        forall|i: int|
            0 <= i < out@.len() ==> tells_link(
                #[trigger] out@[i],
                source@,
                links@[i]@,
                some_texts(targets@)[i],
                if rewritten@.contains(links@[i].id) {
                    version
                } else {
                    None
                },
            ),
{
    let mut out: Vec<LinkChange> = Vec::new();
    let mut i: usize = 0;
    while i < links.len()
        invariant
            i <= links@.len(),
            targets@.len() == links@.len(),
            out@.len() == i,
            forall|i: int|
                0 <= i < out@.len() ==> tells_link(
                    #[trigger] out@[i],
                    source@,
                    links@[i]@,
                    some_texts(targets@)[i],
                    if rewritten@.contains(links@[i].id) {
                        version
                    } else {
                        None
                    },
                ),
        decreases links@.len() - i,
    {
        let p = &links[i];
        let now_at: String = match &targets[i] {
            Some(s) => s.clone(),
            None => String::new(),
        };
        out.push(
            LinkChange {
                path: String::from_str(source),
                line: p.line,
                kind: p.kind.clone(),
                target: p.target.clone(),
                now_at,
                version: if has_id(rewritten, p.id) {
                    version
                } else {
                    None
                },
            },
        );
        i += 1;
    }
    out
}

/// The message of the commits that follow a move.
pub fn move_message(from: &str, to: &str) -> (r: String)
    ensures
        r@ == "links: "@ + from@ + " -> "@ + to@,
{
    let mut m = String::from_str("links: ");
    m.append(from);
    m.append(" -> ");
    m.append(to);
    m
}

} // verus!

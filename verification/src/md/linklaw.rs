//! Which file a link points to, and that a link written again points to its file.

use vstd::prelude::*;
use vstd::string::*;
use crate::chars::{
    ascii_lowered, begins, ends, lemma_below_chain, lemma_below_total, lemma_past_last, lower_case, past_last, text_below,
    trim_start,
};
use crate::md::offsets::byte_len;
use crate::md::resolve::{
    anchor_among, at_joined, binary_extension, heading_letters, last_heading, names_binary, updates_named, at_names,
    at_paths, at_suffixes, file_below, file_put, file_set, found_files, joined_path, nearer, nearest, parent_of,
    pointed, resolution, spellings, FileAt, LinkUpdates, Lookup, Spelling, Written,
};
use crate::pg::store::lacks;

verus! {

/// The folder of a file is what stands before its name.
pub proof fn law_parent_of_child(folder: Seq<char>, name: Seq<char>)
    requires
        lacks(name, '/'),
    ensures
        parent_of(folder.push('/') + name) == if folder.len() == 0 {
            "/"@
        } else {
            folder
        },
{
    let s = folder.push('/') + name;
    lemma_past_last(s, '/');
    let i = past_last(s, '/');
    let n = folder.len() as int;
    assert(s[n] == '/');
    if i > n + 1 {
        assert(s[i - 1] == name[i - 1 - n - 1]);
    }
    assert(s.take(n) =~= folder);
}

/// A pointer stands for the file whose name it has before its suffix, written in any case, and any
/// other path for itself.
pub proof fn law_pointer_stands_for(path: Seq<char>, suffix: Seq<char>)
    requires
        path.len() > 0,
        ascii_lowered(suffix) == ".tdbasset"@,
    ensures
        pointed(path + suffix) == path,
        !ends(ascii_lowered(path), ".tdbasset"@) ==> pointed(path) == path,
{
    reveal_strlit(".tdbasset");
    let s = path + suffix;
    assert(ascii_lowered(suffix).len() == suffix.len());
    assert(suffix.len() == 9);
    assert(ascii_lowered(s).skip(s.len() - 9) =~= ascii_lowered(suffix));
    assert(s.take(s.len() - 9) =~= path);
}

/// The files a link could mean: documents, or, if there are none and the link does not ask for
/// one, the pointers of assets.
pub open spec fn meant_files<L: Lookup + ?Sized>(l: &L, source: Seq<char>, w: Written) -> Seq<FileAt> {
    let docs = found_files(l, w.kind, parent_of(source), w.target, Spelling::Document);
    if docs.len() == 0 && !ends(ascii_lowered(w.target), ".md"@) {
        found_files(l, w.kind, parent_of(source), w.target, Spelling::Pointer)
    } else {
        docs
    }
}

/// A path is spelled as a link's target is, with `.md` behind it or not.
pub open spec fn matches_target(path: Seq<char>, target: Seq<char>) -> bool {
    ends(path, target) || ends(path, target + ".md"@)
}

/// Path `p` is no further from a link in `folder` than `q`: a path spelled as the target goes
/// first, then one in the folder, then the shorter one, then the one that sorts first.
pub open spec fn as_near(folder: Seq<char>, target: Seq<char>, p: Seq<char>, q: Seq<char>) -> bool {
    let exact = matches_target(p, target) == matches_target(q, target);
    let home = (parent_of(p) == folder) == (parent_of(q) == folder);
    &&& matches_target(q, target) ==> matches_target(p, target)
    &&& exact && parent_of(q) == folder ==> parent_of(p) == folder
    &&& exact && home ==> byte_len(p) <= byte_len(q)
    &&& exact && home && byte_len(p) == byte_len(q) ==> p == q || text_below(p, q)
}

proof fn lemma_not_nearer(folder: Seq<char>, target: Seq<char>, a: FileAt, b: FileAt)
    ensures
        !nearer(folder, target, b, a) ==> as_near(folder, target, pointed(a.1), pointed(b.1)),
        nearer(folder, target, a, b) ==> !nearer(folder, target, b, a),
        nearer(folder, target, a, b) ==> pointed(a.1) != pointed(b.1),
{
    lemma_below_total(pointed(a.1), pointed(b.1));
    lemma_below_total(pointed(b.1), pointed(a.1));
}

/// What is nearer than something is nearer than all that is no nearer than that.
proof fn lemma_nearer_weak(folder: Seq<char>, target: Seq<char>, x: FileAt, k: FileAt, m: FileAt)
    requires
        nearer(folder, target, x, k),
        !nearer(folder, target, m, k),
    ensures
        nearer(folder, target, x, m),
{
    let (p, q, r) = (pointed(x.1), pointed(k.1), pointed(m.1));
    lemma_below_total(p, q);
    lemma_below_total(q, r);
    lemma_below_total(p, r);
    if text_below(p, q) && text_below(q, r) {
        lemma_below_chain(p, q, r);
    }
}

/// The nearest of some files is as near as any, and nearer than those before it.
#[verifier::rlimit(60)]
proof fn lemma_nearest(folder: Seq<char>, target: Seq<char>, fs: Seq<FileAt>, n: int)
    requires
        1 <= n <= fs.len(),
    ensures
        0 <= nearest(folder, target, fs, n) < n,
        forall|m: int| 0 <= m < n ==> !nearer(folder, target, #[trigger] fs[m], fs[nearest(folder, target, fs, n)]),
        forall|m: int|
            0 <= m < nearest(folder, target, fs, n) ==> nearer(
                folder,
                target,
                fs[nearest(folder, target, fs, n)],
                #[trigger] fs[m],
            ),
    decreases n,
{
    if n <= 1 {
        lemma_not_nearer(folder, target, fs[0], fs[0]);
    } else {
        lemma_nearest(folder, target, fs, n - 1);
        let k = nearest(folder, target, fs, n - 1);
        let x = fs[n - 1];
        lemma_not_nearer(folder, target, x, x);
        if nearer(folder, target, x, fs[k]) {
            assert forall|m: int| 0 <= m < n - 1 implies nearer(folder, target, x, #[trigger] fs[m]) && !nearer(
                folder,
                target,
                fs[m],
                x,
            ) by {
                lemma_nearer_weak(folder, target, x, fs[k], fs[m]);
                lemma_not_nearer(folder, target, x, fs[m]);
            }
        }
    }
}

spec fn files_sorted(fs: Seq<FileAt>) -> bool {
    forall|i: int, j: int| 0 <= i < j < fs.len() ==> file_below(#[trigger] fs[i], #[trigger] fs[j])
}

#[verifier::rlimit(60)]
proof fn lemma_file_put(fs: Seq<FileAt>, f: FileAt)
    requires
        files_sorted(fs),
    ensures
        files_sorted(file_put(fs, f)),
        forall|x: FileAt| #[trigger] file_put(fs, f).contains(x) <==> fs.contains(x) || x == f,
    decreases fs.len(),
{
    let out = file_put(fs, f);
    if fs.len() == 0 || file_below(fs.last(), f) {
        assert forall|i: int, j: int| 0 <= i < j < out.len() implies file_below(#[trigger] out[i], #[trigger] out[j]) by {
            if j == fs.len() && i < fs.len() - 1 {
                assert(file_below(fs[i], fs[fs.len() - 1]));
                if text_below(fs[i].1, fs.last().1) && text_below(fs.last().1, f.1) {
                    lemma_below_chain(fs[i].1, fs.last().1, f.1);
                }
            }
        }
        assert forall|x: FileAt| #[trigger] out.contains(x) <==> fs.contains(x) || x == f by {
            if fs.contains(x) {
                let i = choose|i: int| 0 <= i < fs.len() && fs[i] == x;
                assert(out[i] == x);
            }
            if x == f {
                assert(out[fs.len() as int] == x);
            }
            if out.contains(x) {
                let i = choose|i: int| 0 <= i < out.len() && out[i] == x;
                if i < fs.len() {
                    assert(fs[i] == x);
                }
            }
        }
    } else if fs.last() == f {
        assert(fs[fs.len() - 1] == f);
    } else {
        let front = fs.drop_last();
        let z = fs.last();
        assert(files_sorted(front)) by {
            assert forall|i: int, j: int| 0 <= i < j < front.len() implies file_below(#[trigger] front[i], #[trigger] front[j]) by {
                assert(front[i] == fs[i] && front[j] == fs[j]);
            }
        }
        lemma_file_put(front, f);
        let put = file_put(front, f);
        lemma_below_total(f.1, z.1);
        assert(file_below(f, z));
        assert forall|i: int, j: int| 0 <= i < j < out.len() implies file_below(#[trigger] out[i], #[trigger] out[j]) by {
            if j < put.len() {
                assert(out[i] == put[i] && out[j] == put[j]);
            } else {
                assert(out[i] == put[i]);
                assert(put.contains(put[i]));
                if put[i] != f {
                    assert(front.contains(put[i]));
                    let k = choose|k: int| 0 <= k < front.len() && front[k] == put[i];
                    assert(file_below(fs[k], fs[fs.len() - 1]));
                }
            }
        }
        assert forall|x: FileAt| #[trigger] out.contains(x) <==> fs.contains(x) || x == f by {
            if out.contains(x) {
                let i = choose|i: int| 0 <= i < out.len() && out[i] == x;
                if i < put.len() {
                    assert(put[i] == x);
                    assert(put.contains(x));
                    if x != f {
                        let k = choose|k: int| 0 <= k < front.len() && front[k] == x;
                        assert(fs[k] == x);
                    }
                } else {
                    assert(fs[fs.len() - 1] == x);
                }
            }
            if fs.contains(x) {
                let i = choose|i: int| 0 <= i < fs.len() && fs[i] == x;
                if i < front.len() {
                    assert(front[i] == x);
                    assert(put.contains(x));
                    let k = choose|k: int| 0 <= k < put.len() && put[k] == x;
                    assert(out[k] == x);
                } else {
                    assert(out[put.len() as int] == x);
                }
            }
            if x == f {
                assert(put.contains(x));
                let k = choose|k: int| 0 <= k < put.len() && put[k] == x;
                assert(out[k] == x);
            }
        }
    }
}

proof fn lemma_file_set(fs: Seq<FileAt>)
    ensures
        files_sorted(file_set(fs)),
        forall|x: FileAt| #[trigger] file_set(fs).contains(x) <==> fs.contains(x),
    decreases fs.len(),
{
    if fs.len() > 0 {
        let front = fs.drop_last();
        lemma_file_set(front);
        lemma_file_put(file_set(front), fs.last());
        assert forall|x: FileAt| #[trigger] file_set(fs).contains(x) <==> fs.contains(x) by {
            if fs.contains(x) {
                let i = choose|i: int| 0 <= i < fs.len() && fs[i] == x;
                if i < front.len() {
                    assert(front[i] == x);
                }
            }
            if front.contains(x) {
                let i = choose|i: int| 0 <= i < front.len() && front[i] == x;
                assert(fs[i] == x);
            }
            if x == fs.last() {
                assert(fs[fs.len() - 1] == x);
            }
        }
    }
}

/// Does a link name a heading that a file does not have? Links to assets name none.
pub open spec fn misses_heading<L: Lookup + ?Sized>(l: &L, source: Seq<char>, w: Written, id: i64) -> bool {
    &&& found_files(l, w.kind, parent_of(source), w.target, Spelling::Document).len() > 0
    &&& w.anchor matches Some(a) && !anchor_among(l.heading_paths(id), a)
}

/// `f` is the file that a link points to, of all it could mean: none is nearer, and of equally near
/// ones it has the lowest id.
pub open spec fn nearest_file(folder: Seq<char>, target: Seq<char>, fs: Seq<FileAt>, f: FileAt) -> bool {
    &&& fs.contains(f)
    &&& forall|j: int|
        0 <= j < fs.len() ==> as_near(folder, target, pointed(f.1), pointed((#[trigger] fs[j]).1)) && (pointed(f.1)
            == pointed(fs[j].1) ==> f.0 <= fs[j].0)
}

/// A link to a file points to the nearest of the files it could mean, and to none exactly if there
/// are none. It is ambiguous if it could mean another, unless the file has no heading of that name.
#[verifier::rlimit(60)]
pub proof fn law_link_takes_nearest<L: Lookup + ?Sized>(l: &L, source_id: i64, source: Seq<char>, w: Written)
    requires
        !w.outside,
        w.target.len() > 0,
    ensures
        ({
            let fs = meant_files(l, source, w);
            let r = resolution(l, source_id, source, w);
            &&& r.0 is None <==> fs.len() == 0
            &&& r.0 matches Some(id) ==> exists|f: FileAt|
                {
                    &&& f.0 == id
                    &&& #[trigger] nearest_file(parent_of(source), w.target, fs, f)
                    &&& r.1 == if misses_heading(l, source, w, id) {
                        "anchor-missing"@
                    } else if exists|j: int| 0 <= j < fs.len() && #[trigger] fs[j] != f {
                        "ambiguous"@
                    } else {
                        "ok"@
                    }
                }
        }),
{
    let folder = parent_of(source);
    let docs = found_files(l, w.kind, folder, w.target, Spelling::Document);
    let assets = found_files(l, w.kind, folder, w.target, Spelling::Pointer);
    let fs = meant_files(l, source, w);
    lemma_file_set(docs);
    lemma_file_set(assets);
    lemma_file_set(fs);
    let set = file_set(fs);
    if docs.len() > 0 {
        assert(file_set(docs).contains(docs[0]));
    } else {
        assert(file_set(docs).len() == 0);
    }
    if fs.len() > 0 {
        assert(set.contains(fs[0]));
        let n = set.len() as int;
        lemma_nearest(folder, w.target, set, n);
        let k = nearest(folder, w.target, set, n);
        let f = set[k];
        assert(set.contains(f));
        assert forall|j: int| 0 <= j < fs.len() implies as_near(folder, w.target, pointed(f.1), pointed((#[trigger] fs[j]).1))
            && (pointed(f.1) == pointed(fs[j].1) ==> f.0 <= fs[j].0) by {
            assert(set.contains(fs[j]));
            let m = choose|m: int| 0 <= m < set.len() && set[m] == fs[j];
            assert(!nearer(folder, w.target, set[m], set[k]));
            lemma_not_nearer(folder, w.target, f, set[m]);
            if m < k {
                assert(nearer(folder, w.target, set[k], set[m]));
            } else if m > k {
                assert(file_below(set[k], set[m]));
            }
        }
        assert(nearest_file(folder, w.target, fs, f));
        if n > 1 {
            let m: int = if k == 0 { 1 } else { 0 };
            assert(set[m] != f) by {
                lemma_below_total(set[m].1, f.1);
                if m < k {
                    assert(file_below(set[m], set[k]));
                } else {
                    assert(file_below(set[k], set[m]));
                }
            }
            assert(set.contains(set[m]));
            let j = choose|j: int| 0 <= j < fs.len() && fs[j] == set[m];
            assert(fs[j] != f);
        } else {
            assert forall|j: int| 0 <= j < fs.len() implies #[trigger] fs[j] == f by {
                assert(set.contains(fs[j]));
                let m = choose|m: int| 0 <= m < set.len() && set[m] == fs[j];
            }
        }
    } else {
        assert(set.len() == 0);
    }
}

/// If of the files that a link matches equally well in spelling one is in the linking note's folder,
/// the file that the link points to is in that folder.
pub proof fn law_link_stays_home<L: Lookup + ?Sized>(l: &L, source_id: i64, source: Seq<char>, w: Written, f: FileAt, g: FileAt)
    requires
        !w.outside,
        w.target.len() > 0,
        nearest_file(parent_of(source), w.target, meant_files(l, source, w), f),
        meant_files(l, source, w).contains(g),
        matches_target(pointed(f.1), w.target) == matches_target(pointed(g.1), w.target),
        parent_of(pointed(g.1)) == parent_of(source),
    ensures
        parent_of(pointed(f.1)) == parent_of(source),
        resolution(l, source_id, source, w).0 == Some(f.0),
{
    law_link_takes_nearest(l, source_id, source, w);
    let fs = meant_files(l, source, w);
    let r = resolution(l, source_id, source, w);
    let j = choose|j: int| 0 <= j < fs.len() && fs[j] == g;
    assert(as_near(parent_of(source), w.target, pointed(f.1), pointed(fs[j].1)));
    let h = choose|h: FileAt| h.0 == r.0->0 && #[trigger] nearest_file(parent_of(source), w.target, fs, h);
    lemma_one_nearest(parent_of(source), w.target, fs, f, h);
}

/// No two files with different ids are nearest.
proof fn lemma_one_nearest(folder: Seq<char>, target: Seq<char>, fs: Seq<FileAt>, f: FileAt, h: FileAt)
    requires
        nearest_file(folder, target, fs, f),
        nearest_file(folder, target, fs, h),
    ensures
        f.0 == h.0,
{
    let i = choose|i: int| 0 <= i < fs.len() && fs[i] == f;
    let j = choose|j: int| 0 <= j < fs.len() && fs[j] == h;
    assert(as_near(folder, target, pointed(f.1), pointed(fs[j].1)));
    assert(as_near(folder, target, pointed(h.1), pointed(fs[i].1)));
    lemma_below_total(pointed(f.1), pointed(h.1));
}

/// A file is at a path, under the spellings of a document: as it is, or with `.md` behind it.
pub open spec fn document_at<L: Lookup + ?Sized>(l: &L, path: Option<Seq<char>>, f: FileAt) -> bool {
    path matches Some(p) && (l.at_path(p).contains(f) || !ends(ascii_lowered(p), ".md"@) && l.at_path(
        p + ".md"@,
    ).contains(f))
}

/// The pointer of the asset at a path.
pub open spec fn pointer_at<L: Lookup + ?Sized>(l: &L, path: Option<Seq<char>>, f: FileAt) -> bool {
    path matches Some(p) && l.at_path(p + ".tdbasset"@).contains(f)
}

proof fn lemma_at_joined<L: Lookup + ?Sized>(l: &L, path: Option<Seq<char>>)
    ensures
        forall|f: FileAt|
            #![trigger at_joined(l, Spelling::Document, path).contains(f)]
            #![trigger document_at(l, path, f)]
            at_joined(l, Spelling::Document, path).contains(f) <==> document_at(l, path, f),
        forall|f: FileAt|
            #![trigger at_joined(l, Spelling::Pointer, path).contains(f)]
            #![trigger pointer_at(l, path, f)]
            at_joined(l, Spelling::Pointer, path).contains(f) <==> pointer_at(l, path, f),
{
    if path is Some {
        let p = path->0;
        lemma_at_two(l, p, p + ".md"@);
        lemma_at_two(l, p + ".tdbasset"@, p + ".tdbasset"@);
    }
}

/// What is found at one path, or at two.
proof fn lemma_at_two<L: Lookup + ?Sized>(l: &L, p: Seq<char>, q: Seq<char>)
    ensures
        at_paths(l, seq![p]) == l.at_path(p),
        at_paths(l, seq![p, q]) == l.at_path(p) + l.at_path(q),
        at_names(l, seq![p]) == l.with_name(p),
        at_names(l, seq![p, q]) == l.with_name(p) + l.with_name(q),
        at_suffixes(l, seq![p]) == l.with_suffix("/"@ + lower_case(p)),
        at_suffixes(l, seq![p, q]) == l.with_suffix("/"@ + lower_case(p)) + l.with_suffix("/"@ + lower_case(q)),
        forall|f: FileAt| #[trigger] (l.at_path(p) + l.at_path(q)).contains(f) <==> l.at_path(p).contains(f) || l.at_path(
            q,
        ).contains(f),
        forall|f: FileAt| #[trigger] (l.with_name(p) + l.with_name(q)).contains(f) <==> l.with_name(p).contains(f)
            || l.with_name(q).contains(f),
        forall|f: FileAt| #[trigger] (l.with_suffix("/"@ + lower_case(p)) + l.with_suffix("/"@ + lower_case(q))).contains(f)
            <==> l.with_suffix("/"@ + lower_case(p)).contains(f) || l.with_suffix("/"@ + lower_case(q)).contains(f),
{
    reveal_with_fuel(at_paths, 3);
    reveal_with_fuel(at_names, 3);
    reveal_with_fuel(at_suffixes, 3);
    assert(seq![p].drop_last() =~= Seq::empty());
    assert(seq![p, q].drop_last() =~= seq![p]);
    assert(at_paths(l, seq![p]) =~= l.at_path(p));
    assert(at_names(l, seq![p]) =~= l.with_name(p));
    assert(at_suffixes(l, seq![p]) =~= l.with_suffix("/"@ + lower_case(p)));
    lemma_either(l.at_path(p), l.at_path(q));
    lemma_either(l.with_name(p), l.with_name(q));
    lemma_either(l.with_suffix("/"@ + lower_case(p)), l.with_suffix("/"@ + lower_case(q)));
}

proof fn lemma_either(a: Seq<FileAt>, b: Seq<FileAt>)
    ensures
        forall|f: FileAt| #[trigger] (a + b).contains(f) <==> a.contains(f) || b.contains(f),
{
    assert forall|f: FileAt| #[trigger] (a + b).contains(f) <==> a.contains(f) || b.contains(f) by {
        if a.contains(f) {
            let i = choose|i: int| 0 <= i < a.len() && a[i] == f;
            assert((a + b)[i] == f);
        }
        if b.contains(f) {
            let i = choose|i: int| 0 <= i < b.len() && b[i] == f;
            assert((a + b)[a.len() + i] == f);
        }
        if (a + b).contains(f) {
            let i = choose|i: int| 0 <= i < (a + b).len() && (a + b)[i] == f;
            if i < a.len() {
                assert(a[i] == f);
            } else {
                assert(b[i - a.len()] == f);
            }
        }
    }
}

/// A markdown link means the files at its target, relative to its folder; only if there are none,
/// and the target does not begin at the root, those at its target from the root.
#[verifier::rlimit(60)]
pub proof fn law_markdown_link_means<L: Lookup + ?Sized>(l: &L, kind: Seq<char>, folder: Seq<char>, target: Seq<char>, f: FileAt)
    requires
        kind == "md"@ || kind == "image"@,
    ensures
        ({
            let here = joined_path(folder, target);
            let there = joined_path("/"@, target);
            found_files(l, kind, folder, target, Spelling::Document).contains(f) <==> document_at(l, here, f) || (forall|
                g: FileAt,
            | !#[trigger] document_at(l, here, g)) && !begins(target, "/"@) && document_at(l, there, f)
        }),
        ({
            let here = joined_path(folder, target);
            let there = joined_path("/"@, target);
            found_files(l, kind, folder, target, Spelling::Pointer).contains(f) <==> pointer_at(l, here, f) || (forall|
                g: FileAt,
            | !#[trigger] pointer_at(l, here, g)) && !begins(target, "/"@) && pointer_at(l, there, f)
        }),
{
    let here = joined_path(folder, target);
    let there = joined_path("/"@, target);
    lemma_at_joined(l, here);
    lemma_at_joined(l, there);
    let x = at_joined(l, Spelling::Document, here);
    let y = at_joined(l, Spelling::Pointer, here);
    if x.len() > 0 {
        assert(x.contains(x[0]));
    }
    if y.len() > 0 {
        assert(y.contains(y[0]));
    }
}

/// A wiki link with a path means the files at the path from the root; only if there are none, those
/// relative to its folder; only if there are none either, those whose path ends in it.
#[verifier::rlimit(60)]
pub proof fn law_wiki_path_means<L: Lookup + ?Sized>(l: &L, kind: Seq<char>, folder: Seq<char>, target: Seq<char>, f: FileAt)
    requires
        kind != "md"@,
        kind != "image"@,
        target.contains('/'),
    ensures
        ({
            let there = joined_path("/"@, target);
            let here = joined_path(folder, target);
            let end = trim_start(target, '/');
            let found = found_files(l, kind, folder, target, Spelling::Document);
            if exists|g: FileAt| #[trigger] document_at(l, there, g) {
                found.contains(f) <==> document_at(l, there, f)
            } else if exists|g: FileAt| #[trigger] document_at(l, here, g) {
                found.contains(f) <==> document_at(l, here, f)
            } else {
                found.contains(f) <==> l.with_suffix("/"@ + lower_case(end)).contains(f) || !ends(ascii_lowered(end), ".md"@)
                    && l.with_suffix("/"@ + lower_case(end + ".md"@)).contains(f)
            }
        }),
        ({
            let there = joined_path("/"@, target);
            let here = joined_path(folder, target);
            let end = trim_start(target, '/');
            let found = found_files(l, kind, folder, target, Spelling::Pointer);
            if exists|g: FileAt| #[trigger] pointer_at(l, there, g) {
                found.contains(f) <==> pointer_at(l, there, f)
            } else if exists|g: FileAt| #[trigger] pointer_at(l, here, g) {
                found.contains(f) <==> pointer_at(l, here, f)
            } else {
                found.contains(f) <==> l.with_suffix("/"@ + lower_case(end + ".tdbasset"@)).contains(f)
            }
        }),
{
    let here = joined_path(folder, target);
    let there = joined_path("/"@, target);
    let end = trim_start(target, '/');
    lemma_at_joined(l, here);
    lemma_at_joined(l, there);
    lemma_at_two(l, end, end + ".md"@);
    lemma_at_two(l, end + ".tdbasset"@, end + ".tdbasset"@);
    lemma_some_found(at_joined(l, Spelling::Document, there));
    lemma_some_found(at_joined(l, Spelling::Document, here));
    lemma_some_found(at_joined(l, Spelling::Pointer, there));
    lemma_some_found(at_joined(l, Spelling::Pointer, here));
}

proof fn lemma_some_found(fs: Seq<FileAt>)
    ensures
        fs.len() > 0 <==> exists|g: FileAt| #[trigger] fs.contains(g),
{
    if fs.len() > 0 {
        assert(fs.contains(fs[0]));
    }
}

/// A wiki link with a name means the files of that name, wherever they are.
pub proof fn law_wiki_name_means<L: Lookup + ?Sized>(l: &L, kind: Seq<char>, folder: Seq<char>, target: Seq<char>, f: FileAt)
    requires
        kind != "md"@,
        kind != "image"@,
        !target.contains('/'),
    ensures
        found_files(l, kind, folder, target, Spelling::Document).contains(f) <==> l.with_name(target).contains(f) || !ends(
            ascii_lowered(target),
            ".md"@,
        ) && l.with_name(target + ".md"@).contains(f),
        found_files(l, kind, folder, target, Spelling::Pointer).contains(f) <==> l.with_name(target + ".tdbasset"@).contains(f),
{
    lemma_at_two(l, target, target + ".md"@);
    lemma_at_two(l, target + ".tdbasset"@, target + ".tdbasset"@);
}

/// A setting for link updates is read back from how it is written, in any case.
pub proof fn law_updates_read_back(u: LinkUpdates)
    ensures
        updates_named(u.spelled()) == Some(u),
{
    reveal_strlit("off");
    reveal_strlit("report");
    reveal_strlit("rewrite");
    assert("off"@.len() == 3 && "report"@.len() == 6 && "rewrite"@.len() == 7);
}

/// The extension of a target is what stands behind its last dot, in any case.
pub proof fn law_extension_tells_binary(p: Seq<char>, e: Seq<char>)
    requires
        lacks(e, '.'),
        lacks(e, '/'),
    ensures
        names_binary(p.push('.') + e) == binary_extension(ascii_lowered(e)),
{
    let s = p.push('.') + e;
    let n = p.len() as int;
    lemma_past_last(s, '/');
    let k = past_last(s, '/');
    assert(s[n] == '.');
    if k > n {
        if k > n + 1 {
            assert(s[k - 1] == e[k - 1 - n - 1]);
        }
    }
    let name = s.skip(k);
    lemma_past_last(name, '.');
    let dot = past_last(name, '.');
    assert(name[n - k] == s[n]);
    if dot > n - k + 1 {
        assert(name[dot - 1] == s[k + dot - 1]);
        assert(s[k + dot - 1] == e[k + dot - 1 - n - 1]);
    }
    assert(name.skip(dot) =~= e);
}

/// A link that finds no file is to a folder if there is one at its target, from its own folder or from
/// the root; else to a file that is no text if its extension says so; else broken.
pub proof fn law_lost_link_status<L: Lookup + ?Sized>(l: &L, source_id: i64, source: Seq<char>, w: Written)
    requires
        !w.outside,
        w.target.len() > 0,
        meant_files(l, source, w).len() == 0,
    ensures
        ({
            let r = resolution(l, source_id, source, w);
            let here = joined_path(parent_of(source), w.target);
            let there = joined_path("/"@, w.target);
            &&& r.0 is None
            &&& r.1 == if (here matches Some(p) && p != "/"@ && l.folder_at(p)) || (there matches Some(p) && p != "/"@
                && l.folder_at(p)) {
                "folder"@
            } else if names_binary(w.target) {
                "not-in-store"@
            } else {
                "broken"@
            }
        }),
{
    law_link_takes_nearest(l, source_id, source, w);
    let docs = found_files(l, w.kind, parent_of(source), w.target, Spelling::Document);
    lemma_file_set(docs);
    lemma_file_set(meant_files(l, source, w));
    if docs.len() == 0 {
        assert(file_set(docs).len() == 0);
    }
}

/// A heading is named by its text without regard to case and punctuation, by the last part of an
/// anchor; a block is not looked for.
pub proof fn law_anchor_names_heading(hs: Seq<Seq<char>>, a: Seq<char>, b: Seq<char>)
    requires
        lacks(b, '#'),
    ensures
        anchor_among(hs, a.push('#') + b) == anchor_among(hs, b),
        b.len() > 0 && b[0] == '^' ==> anchor_among(hs, b),
        !(b.len() > 0 && b[0] == '^') ==> (anchor_among(hs, b) <==> exists|i: int|
            0 <= i < hs.len() && heading_letters(last_heading(#[trigger] hs[i])) == heading_letters(b)),
{
    let s = a.push('#') + b;
    let n = a.len() as int;
    lemma_past_last(s, '#');
    lemma_past_last(b, '#');
    let k = past_last(s, '#');
    assert(s[n] == '#');
    if k > n + 1 {
        assert(s[k - 1] == b[k - 1 - n - 1]);
    }
    assert(s.skip(k) =~= b);
    let j = past_last(b, '#');
    assert(j == 0);
    assert(b.skip(0) =~= b);
}

} // verus!

//! Links as an account sees them: rewriting the paths a document names from the store's
//! namespace to a view's, and back.

use vstd::prelude::*;
use vstd::slice::slice_subrange;
use vstd::string::*;
use vstd::utf8::*;
use crate::access::{Account, AccessView, Place, Resolved};
use crate::chars::{
    after_last, ascii_lowered, begins, begins_with, ends, ends_with, has_char, parse_i64, past_last, push_chars,
    signed_dec, signed_decimal, spelled_i64, strip_suffix, same_chars, to_ascii_lowered, trim_both_white, trim_end,
    trim_end_char, trim_start, trim_start_char, trim_white, without_suffix,
};
use crate::chunker::{lemma_newlines_concat, newlines};
use crate::edit::replaced;
use crate::text::{chars_of, same_text, string_of};

verus! {

/// One link's target and where it is written, as the projector needs it.
#[derive(Clone, Debug, PartialEq, Eq)]
pub struct TargetSpan {
    /// The target exactly as written, without `#anchor` or `|alias`.
    pub target: String,
    /// Byte range of that text inside the document.
    pub from: usize,
    pub to: usize,
    /// `wiki`, `embed`, `md` or `image`.
    pub kind: String,
    /// The store path of the document it resolved to, if it resolved to one.
    pub resolved: Option<String>,
    /// The resolved node's id, for the hidden-target form.
    pub resolved_id: Option<i64>,
    /// The display text a wiki link was written with (`[[nda|the NDA]]`), when it has one.
    ///
    /// Only the hidden form needs it: `[[textdb:8]]` renders as an opaque number where `[[nda]]`
    /// rendered as a word, so the projector supplies the name the link was written with as the
    /// alias. A link that already has one keeps it.
    pub alias: Option<String>,
}

/// What a projection did to one link, so a caller can report it without re-deriving it.
#[derive(Clone, Copy, Debug, PartialEq, Eq, Structural)]
pub enum Projected {
    /// Left exactly as written.
    Same,
    /// Rewritten to the reader's own path for the target.
    Path,
    /// Rewritten to `textdb:<id>`, because the reader cannot see the target.
    Hidden,
}

pub open spec fn opt_text(s: Option<String>) -> Option<Seq<char>> {
    match s {
        Some(s) => Some(s@),
        None => None,
    }
}

/// Is a link written as markdown, rather than as a wiki link?
pub open spec fn markdown(kind: Seq<char>) -> bool {
    kind == "md"@ || kind == "image"@
}

fn is_markdown(kind: &str) -> (r: bool)
    ensures
        r == markdown(kind@),
{
    same_text(kind, "md") || same_text(kind, "image")
}

/// A target as a path from the root.
pub open spec fn from_root(target: Seq<char>) -> Seq<char> {
    "/"@ + trim_start(target, '/')
}

/// Does the target look like a path from the root? A markdown target begins with a slash then,
/// a wiki target has one.
pub open spec fn looks_rooted(kind: Seq<char>, target: Seq<char>) -> bool {
    if markdown(kind) {
        begins(target, "/"@)
    } else {
        target.contains('/')
    }
}

/// Does the target name `resolved` as a path from the root? `.md` is optional.
pub open spec fn root_link(kind: Seq<char>, target: Seq<char>, resolved: Seq<char>) -> bool {
    let res = without_suffix(resolved, ".tdbasset"@);
    looks_rooted(kind, target) && (from_root(target) == res || from_root(target) + ".md"@ == res)
}

/// Is a target written as a position rather than as a name or a root path?
pub open spec fn positional(kind: Seq<char>, target: Seq<char>, resolved: Seq<char>) -> bool {
    if markdown(kind) {
        !begins(target, "/"@)
    } else {
        target.contains('/') && !root_link(kind, target, resolved)
    }
}

/// The word a link target reads as: its last segment, without `.md`.
pub open spec fn display(target: Seq<char>) -> Seq<char> {
    let t = trim_end(target, '/');
    without_suffix(t.skip(past_last(t, '/')), ".md"@)
}

/// `path` the way `target` was written: `.md` kept only if it was there, and a wiki target
/// without its leading slash.
pub open spec fn written_like(target: Seq<char>, path: Seq<char>, md: bool) -> Seq<char> {
    let p = if ends(ascii_lowered(target), ".md"@) {
        path
    } else {
        without_suffix(path, ".md"@)
    };
    if md {
        p
    } else {
        trim_start(p, '/')
    }
}

fn rooted(target: &[char]) -> (out: Vec<char>)
    ensures
        out@ == from_root(target@),
{
    let mut out = chars_of("/");
    push_chars(&mut out, trim_start_char(target, '/'));
    out
}

fn is_rooted(md: bool, target: &[char]) -> (r: bool)
    ensures
        md ==> r == begins(target@, "/"@),
        !md ==> r == target@.contains('/'),
{
    if md {
        let slash = chars_of("/");
        begins_with(target, slash.as_slice())
    } else {
        has_char(target, '/')
    }
}

/// Does this target text name its resolved document as a path from the vault root?
///
/// Decided from the link text, and the store path it reached. A target that got there by file
/// name (`[[q3]]`), by suffix (`[[2026/q3]]` matching deeper), or relatively
/// (`../policies/nda.md`) is **not** a root path — it means the same thing in every namespace
/// and must stay byte-identical.
pub fn is_root_link(kind: &str, target: &str, resolved: &str) -> (r: bool)
    ensures
        r == root_link(kind@, target@, resolved@),
{
    let t = chars_of(target);
    if !is_rooted(is_markdown(kind), t.as_slice()) {
        return false;
    }
    let mut want = rooted(t.as_slice());
    let res = chars_of(resolved);
    let asset = chars_of(".tdbasset");
    let cut = strip_suffix(res.as_slice(), asset.as_slice());
    if same_chars(want.as_slice(), cut) {
        return true;
    }
    let md = chars_of(".md");
    push_chars(&mut want, md.as_slice());
    same_chars(want.as_slice(), cut)
}

/// Is this target written as a position rather than as a name or a root path?
///
/// A relative markdown target (`../policies/nda.md`) and a wiki target that matched deeper
/// (`[[2026/q3]]`) both mean "from here", which is the same document in every namespace.
fn is_positional(kind: &str, target: &str, resolved: &str) -> (r: bool)
    ensures
        r == positional(kind@, target@, resolved@),
{
    let t = chars_of(target);
    if is_markdown(kind) {
        return !is_rooted(true, t.as_slice());
    }
    has_char(t.as_slice(), '/') && !is_root_link(kind, target, resolved)
}

fn display_name(target: &[char]) -> (r: Vec<char>)
    ensures
        r@ == display(target@),
{
    let t = trim_end_char(target, '/');
    let i = after_last(t, '/');
    let last = slice_subrange(t, i, t.len());
    assert(last@ =~= t@.skip(i as int));
    let md = chars_of(".md");
    let cut = strip_suffix(last, md.as_slice());
    vstd::slice::slice_to_vec(cut)
}

/// Write `path` the way `target` was written: `.md` kept only if it was there, and a wiki
/// target without its leading slash, as Obsidian writes a vault path.
fn like(target: &[char], path: &[char], md: bool) -> (r: Vec<char>)
    ensures
        r@ == written_like(target@, path@, md),
{
    let suffix = chars_of(".md");
    let low = to_ascii_lowered(target);
    let p: &[char] = if ends_with(low.as_slice(), suffix.as_slice()) {
        path
    } else {
        strip_suffix(path, suffix.as_slice())
    };
    let q: &[char] = if md {
        p
    } else {
        trim_start_char(p, '/')
    };
    vstd::slice::slice_to_vec(q)
}

/// What a link becomes in a view, if it changes.
///
/// A target that resolved to nothing is taken at face value: a root path is namespace-dependent
/// whether or not it names a document that exists, and leaving it alone would put the store's
/// layout in text the account may edit. A visible target changes only if it is a root path;
/// everything else already means the same thing. A hidden one becomes its id, unless it is
/// written as a position. A wiki link renders its target, so the name it was written with
/// becomes its alias, if it has none.
pub open spec fn projection(a: Account, l: TargetSpan) -> Option<(Projected, Seq<char>)> {
    let md = markdown(l.kind@);
    match opt_text(l.resolved) {
        None => if !looks_rooted(l.kind@, l.target@) {
            None
        } else {
            match a.seen(from_root(l.target@)) {
                Some(seen) => Some((Projected::Path, written_like(l.target@, seen, md))),
                None => None,
            }
        },
        Some(resolved) => match a.seen(resolved) {
            Some(seen) => if root_link(l.kind@, l.target@, resolved) {
                Some((Projected::Path, written_like(l.target@, seen, md)))
            } else {
                None
            },
            None => match l.resolved_id {
                None => None,
                Some(id) => if positional(l.kind@, l.target@, resolved) {
                    None
                } else if !md && l.alias is None {
                    Some((Projected::Hidden, "textdb:"@ + signed_dec(id as int) + "|"@ + display(l.target@)))
                } else {
                    Some((Projected::Hidden, "textdb:"@ + signed_dec(id as int)))
                },
            },
        },
    }
}

fn project_link(view: &AccessView, l: &TargetSpan) -> (r: Option<(Projected, Vec<char>)>)
    ensures
        match r {
            Some(p) => projection(view@, *l) == Some((p.0, p.1@)),
            None => projection(view@, *l) is None,
        },
{
    let md = is_markdown(l.kind.as_str());
    let t = chars_of(l.target.as_str());
    match &l.resolved {
        None => {
            if !is_rooted(md, t.as_slice()) {
                return None;
            }
            let store = string_of(rooted(t.as_slice()).as_slice());
            match view.to_view(store.as_str()) {
                Some(seen) => {
                    let s = chars_of(seen.as_str());
                    Some((Projected::Path, like(t.as_slice(), s.as_slice(), md)))
                },
                None => None,
            }
        },
        Some(resolved) => {
            match view.to_view(resolved.as_str()) {
                Some(seen) => {
                    if is_root_link(l.kind.as_str(), l.target.as_str(), resolved.as_str()) {
                        let s = chars_of(seen.as_str());
                        Some((Projected::Path, like(t.as_slice(), s.as_slice(), md)))
                    } else {
                        None
                    }
                },
                None => {
                    let id: i64 = match l.resolved_id {
                        Some(id) => id,
                        None => {
                            return None;
                        },
                    };
                    if is_positional(l.kind.as_str(), l.target.as_str(), resolved.as_str()) {
                        return None;
                    }
                    let mut out = chars_of("textdb:");
                    let digits = chars_of(signed_decimal(id).as_str());
                    push_chars(&mut out, digits.as_slice());
                    if !md && l.alias.is_none() {
                        let bar = chars_of("|");
                        push_chars(&mut out, bar.as_slice());
                        let name = display_name(t.as_slice());
                        push_chars(&mut out, name.as_slice());
                    }
                    Some((Projected::Hidden, out))
                },
            }
        },
    }
}

/// A place in an order of links put behind those that begin later or at the same byte.
pub open spec fn place_back(links: Seq<TargetSpan>, order: Seq<int>, k: int) -> Seq<int>
    decreases order.len(),
{
    if order.len() == 0 || links[order.last()].from >= links[k].from {
        order.push(k)
    } else {
        place_back(links, order.drop_last(), k).push(order.last())
    }
}

/// The first `n` links from back to front, so an earlier span's offsets are still right after a
/// later one is replaced. Links at one place keep their order.
pub open spec fn back_to_front(links: Seq<TargetSpan>, n: int) -> Seq<int>
    decreases n,
{
    if n <= 0 {
        Seq::empty()
    } else {
        place_back(links, back_to_front(links, n - 1), n - 1)
    }
}

spec fn indices(v: Seq<usize>) -> Seq<int> {
    Seq::new(v.len(), |i: int| v[i] as int)
}

/// The links from back to front.
fn order_links(links: &[TargetSpan]) -> (out: Vec<usize>)
    ensures
        indices(out@) == back_to_front(links@, links@.len() as int),
        forall|i: int| 0 <= i < out@.len() ==> (#[trigger] out@[i]) < links@.len(),
{
    let mut out: Vec<usize> = Vec::new();
    let mut n: usize = 0;
    assert(indices(out@) =~= Seq::empty());
    while n < links.len()
        invariant
            n <= links@.len(),
            indices(out@) == back_to_front(links@, n as int),
            forall|i: int| 0 <= i < out@.len() ==> (#[trigger] out@[i]) < n,
        decreases links@.len() - n,
    {
        let ghost all = indices(out@);
        let ghost want = place_back(links@, all, n as int);
        let mut i: usize = out.len();
        proof {
            assert(all.take(i as int) =~= all);
            assert(all.skip(i as int) =~= Seq::empty());
            assert(want =~= place_back(links@, all.take(i as int), n as int) + all.skip(i as int));
        }
        while i > 0 && links[out[i - 1]].from < links[n].from
            invariant
                i <= out@.len(),
                n < links@.len(),
                all == indices(out@),
                forall|i: int| 0 <= i < out@.len() ==> (#[trigger] out@[i]) < n,
                want == place_back(links@, all.take(i as int), n as int) + all.skip(i as int),
            decreases i,
        {
            proof {
                let t = all.take(i as int);
                assert(t.last() == out@[i - 1] as int);
                assert(t.drop_last() =~= all.take(i - 1));
                assert(place_back(links@, all.take(i - 1), n as int).push(t.last()) + all.skip(i as int)
                    =~= place_back(links@, all.take(i - 1), n as int) + all.skip(i - 1));
            }
            i -= 1;
        }
        proof {
            let t = all.take(i as int);
            if i > 0 {
                assert(t.last() == out@[i - 1] as int);
            }
            assert(want == t.push(n as int) + all.skip(i as int));
        }
        let ghost before = out@;
        out.insert(i, n);
        proof {
            assert(indices(out@) =~= all.take(i as int).push(n as int) + all.skip(i as int));
            assert forall|k: int| 0 <= k < out@.len() implies (#[trigger] out@[k]) < n + 1 by {
                if k < i {
                    assert(out@[k] == before[k]);
                } else if k > i {
                    assert(out@[k] == before[k - 1]);
                }
            }
        }
        n += 1;
    }
    out
}

/// One link rewritten, if its span still lies in the text.
pub open spec fn rewritten(out: Seq<u8>, l: TargetSpan, new: Option<Seq<char>>) -> Seq<u8> {
    match new {
        Some(s) => if l.from > l.to || l.to > out.len() {
            out
        } else {
            replaced(out, l.from as int, l.to as int, encode_utf8(s))
        },
        None => out,
    }
}

/// The links of an order, rewritten one after the other.
pub open spec fn all_rewritten(
    text: Seq<u8>,
    links: Seq<TargetSpan>,
    order: Seq<int>,
    new: Seq<Option<Seq<char>>>,
) -> Seq<u8>
    decreases order.len(),
{
    if order.len() == 0 {
        text
    } else {
        rewritten(all_rewritten(text, links, order.drop_last(), new), links[order.last()], new[order.last()])
    }
}

/// What each link becomes in a view.
pub open spec fn projections(a: Account, links: Seq<TargetSpan>) -> Seq<Option<Seq<char>>> {
    Seq::new(
        links.len(),
        |i: int|
            match projection(a, links[i]) {
                Some(p) => Some(p.1),
                None => None,
            },
    )
}

/// What was done to each link: nothing if its span no longer lay in the text.
pub open spec fn acts_of(
    text: Seq<u8>,
    a: Account,
    links: Seq<TargetSpan>,
    order: Seq<int>,
) -> Seq<Projected>
    decreases order.len(),
{
    if order.len() == 0 {
        Seq::new(links.len(), |i: int| Projected::Same)
    } else {
        let front = order.drop_last();
        let i = order.last();
        let out = all_rewritten(text, links, front, projections(a, links));
        let acts = acts_of(text, a, links, front);
        if links[i].from > links[i].to || links[i].to > out.len() {
            acts
        } else {
            match projection(a, links[i]) {
                Some(p) => acts.update(i, p.0),
                None => acts,
            }
        }
    }
}

/// Replaces a span of the text.
fn splice(out: Vec<u8>, from: usize, to: usize, new: &[char]) -> (r: Vec<u8>)
    requires
        from <= to <= out@.len(),
    ensures
        r@ == replaced(out@, from as int, to as int, encode_utf8(new@)),
{
    let s = string_of(new);
    let mut r: Vec<u8> = vstd::slice::slice_to_vec(slice_subrange(out.as_slice(), 0, from));
    r.extend_from_slice(s.as_str().as_bytes());
    r.extend_from_slice(slice_subrange(out.as_slice(), to, out.len()));
    assert(r@ =~= replaced(out@, from as int, to as int, encode_utf8(new@)));
    r
}

/// Rewrite a document's root-absolute link targets into `view`'s own paths.
///
/// Spans only: nothing here looks at the text between links, so code spans, fenced blocks,
/// escaped brackets and URLs are untouched by construction. Rewriting never adds or removes a
/// newline, so **line numbers are identical** in canonical and projected text — which is what
/// lets `cat -n`, `replace-lines`, `hunks` and search line numbers mean the same thing in every
/// view.
///
/// Returns the text and what happened to each link, in the order given.
pub fn project(view: &AccessView, text: &[u8], links: &[TargetSpan]) -> (r: (Vec<u8>, Vec<Projected>))
    ensures
        view@.is_owner() ==> r.0@ == text@ && r.1@ == Seq::new(links@.len(), |i: int| Projected::Same),
        !view@.is_owner() ==> ({
            let order = back_to_front(links@, links@.len() as int);
            &&& r.0@ == all_rewritten(text@, links@, order, projections(view@, links@))
            &&& r.1@ == acts_of(text@, view@, links@, order)
        }),
{
    let mut acts: Vec<Projected> = Vec::new();
    let mut k: usize = 0;
    while k < links.len()
        invariant
            k <= links@.len(),
            acts@.len() == k,
            forall|i: int| 0 <= i < k ==> acts@[i] == Projected::Same,
        decreases links@.len() - k,
    {
        acts.push(Projected::Same);
        k += 1;
    }
    assert(acts@ =~= Seq::new(links@.len(), |i: int| Projected::Same));
    let mut out: Vec<u8> = vstd::slice::slice_to_vec(text);
    if view.is_admin() {
        return (out, acts);
    }
    let order = order_links(links);
    let ghost ord = indices(order@);
    let ghost new = projections(view@, links@);
    let mut n: usize = 0;
    assert(ord.take(0) =~= Seq::empty());
    while n < order.len()
        invariant
            n <= order@.len(),
            ord == indices(order@),
            new == projections(view@, links@),
            forall|i: int| 0 <= i < order@.len() ==> (#[trigger] order@[i]) < links@.len(),
            acts@.len() == links@.len(),
            out@ == all_rewritten(text@, links@, ord.take(n as int), new),
            acts@ == acts_of(text@, view@, links@, ord.take(n as int)),
        decreases order@.len() - n,
    {
        let i: usize = order[n];
        let l: &TargetSpan = &links[i];
        proof {
            assert(ord.take(n + 1).drop_last() =~= ord.take(n as int));
            assert(ord.take(n + 1).last() == i as int);
        }
        if l.from <= l.to && l.to <= out.len() {
            match project_link(view, l) {
                Some((act, s)) => {
                    acts.set(i, act);
                    out = splice(out, l.from, l.to, s.as_slice());
                },
                None => {},
            }
        }
        n += 1;
    }
    assert(ord.take(n as int) =~= ord);
    (out, acts)
}

/// The id a target refers to, if it is written as one.
pub open spec fn id_named(target: Seq<char>) -> Option<i64> {
    if begins(target, "textdb:"@) {
        spelled_i64(trim_white(target.skip("textdb:"@.len() as int)))
    } else {
        None
    }
}

/// What a link of a view becomes in the store, if it changes. `at` is where the document with
/// the link's id is now.
///
/// `textdb:13` says nothing about how the path was spelled, so the spelling comes from the link
/// form: a markdown target is a path and keeps its extension, a wiki target is a vault path and
/// drops `.md`. A root path in the account's namespace becomes the store's. One that names
/// nothing it can see is left exactly as written.
pub open spec fn unprojection(a: Account, l: TargetSpan, at: Option<Seq<char>>) -> Option<Seq<char>> {
    let md = markdown(l.kind@);
    if begins(l.target@, "textdb:"@) {
        match (id_named(l.target@), at) {
            (Some(_), Some(p)) => if md {
                Some(p)
            } else {
                Some(trim_start(without_suffix(p, ".md"@), '/'))
            },
            _ => None,
        }
    } else if !looks_rooted(l.kind@, l.target@) {
        None
    } else {
        match a.place(from_root(l.target@)) {
            Place::In { store_path, .. } => Some(written_like(l.target@, store_path, md)),
            _ => None,
        }
    }
}

pub open spec fn unprojections(a: Account, links: Seq<TargetSpan>, at: Seq<Option<String>>) -> Seq<Option<Seq<char>>> {
    Seq::new(links.len(), |i: int| unprojection(a, links[i], opt_text(at[i])))
}

/// `at[i]` is what the caller's function says of the id link `i` names.
pub open spec fn answers<F: Fn(i64) -> Option<String>>(f: F, links: Seq<TargetSpan>, at: Seq<Option<String>>) -> bool {
    &&& at.len() == links.len()
    &&& forall|i: int|
        0 <= i < links.len() ==> match id_named((#[trigger] links[i]).target@) {
            Some(id) => call_ensures(f, (id,), at[i]),
            None => at[i] is None,
        }
}

fn answer_all<F: Fn(i64) -> Option<String>>(f: &F, links: &[TargetSpan]) -> (at: Vec<Option<String>>)
    requires
        forall|id: i64| call_requires(*f, (id,)),
    ensures
        answers(*f, links@, at@),
{
    let mut at: Vec<Option<String>> = Vec::new();
    let prefix = chars_of("textdb:");
    let mut i: usize = 0;
    while i < links.len()
        invariant
            i <= links@.len(),
            prefix@ == "textdb:"@,
            at@.len() == i,
            forall|id: i64| call_requires(*f, (id,)),
            forall|k: int|
                0 <= k < i ==> match id_named((#[trigger] links@[k]).target@) {
                    Some(id) => call_ensures(*f, (id,), at@[k]),
                    None => at@[k] is None,
                },
        decreases links@.len() - i,
    {
        let t = chars_of(links[i].target.as_str());
        let one: Option<String> = if begins_with(t.as_slice(), prefix.as_slice()) {
            let rest = slice_subrange(t.as_slice(), prefix.len(), t.len());
            assert(rest@ =~= t@.skip("textdb:"@.len() as int));
            match parse_i64(trim_both_white(rest)) {
                Some(id) => f(id),
                None => None,
            }
        } else {
            None
        };
        at.push(one);
        i += 1;
    }
    at
}

/// A view path to a store path, for un-projection: `None` when the account cannot address it.
///
/// Unlike [`AccessView::to_store`] this never refuses — a link to nothing is not an error, it is
/// a broken link, and the writer's bytes are kept as they are.
fn to_store_path(view: &AccessView, local: &str) -> (r: Option<String>)
    ensures
        match r {
            Some(s) => view@.place(local@) matches Place::In { store_path, .. } && store_path == s@,
            None => !(view@.place(local@) is In),
        },
{
    match view.to_store(local) {
        Resolved::In { store_path, rights, alias, node_id } => Some(store_path),
        _ => None,
    }
}

fn unproject_link(view: &AccessView, l: &TargetSpan, at: &Option<String>) -> (r: Option<Vec<char>>)
    requires
        id_named(l.target@) is None ==> at is None,
    ensures
        match r {
            Some(s) => unprojection(view@, *l, opt_text(*at)) == Some(s@),
            None => unprojection(view@, *l, opt_text(*at)) is None,
        },
{
    let md = is_markdown(l.kind.as_str());
    let t = chars_of(l.target.as_str());
    let prefix = chars_of("textdb:");
    if begins_with(t.as_slice(), prefix.as_slice()) {
        return match at {
            Some(p) => {
                let c = chars_of(p.as_str());
                if md {
                    Some(c)
                } else {
                    let suffix = chars_of(".md");
                    let cut = trim_start_char(strip_suffix(c.as_slice(), suffix.as_slice()), '/');
                    Some(vstd::slice::slice_to_vec(cut))
                }
            },
            None => None,
        };
    }
    if !is_rooted(md, t.as_slice()) {
        return None;
    }
    let local = string_of(rooted(t.as_slice()).as_slice());
    match to_store_path(view, local.as_str()) {
        Some(store) => {
            let s = chars_of(store.as_str());
            Some(like(t.as_slice(), s.as_slice(), md))
        },
        None => None,
    }
}

/// The inverse: a document written in `view`'s paths, as the store holds it.
///
/// `path_of_id` is how the caller turns a node id into the path it has now, so an id reference
/// can be written back as that node's *current* path — which is why an id link survives a move
/// that happened while the reader had the file open.
pub fn unproject<F: Fn(i64) -> Option<String>>(view: &AccessView, text: &[u8], links: &[TargetSpan], path_of_id: F) -> (r: Vec<u8>)
    requires
        forall|id: i64| call_requires(path_of_id, (id,)),
    ensures
        view@.is_owner() ==> r@ == text@,
        !view@.is_owner() ==> exists|at: Seq<Option<String>>|
            #[trigger] answers(path_of_id, links@, at) && r@ == all_rewritten(
                text@,
                links@,
                back_to_front(links@, links@.len() as int),
                unprojections(view@, links@, at),
            ),
{
    let mut out: Vec<u8> = vstd::slice::slice_to_vec(text);
    if view.is_admin() {
        return out;
    }
    let at = answer_all(&path_of_id, links);
    let order = order_links(links);
    let ghost ord = indices(order@);
    let ghost new = unprojections(view@, links@, at@);
    let mut n: usize = 0;
    assert(ord.take(0) =~= Seq::empty());
    while n < order.len()
        invariant
            n <= order@.len(),
            ord == indices(order@),
            new == unprojections(view@, links@, at@),
            answers(path_of_id, links@, at@),
            forall|i: int| 0 <= i < order@.len() ==> (#[trigger] order@[i]) < links@.len(),
            out@ == all_rewritten(text@, links@, ord.take(n as int), new),
        decreases order@.len() - n,
    {
        let i: usize = order[n];
        let l: &TargetSpan = &links[i];
        proof {
            assert(ord.take(n + 1).drop_last() =~= ord.take(n as int));
            assert(ord.take(n + 1).last() == i as int);
            assert(links@[i as int] == *l);
        }
        if l.from <= l.to && l.to <= out.len() {
            match unproject_link(view, l, &at[i]) {
                Some(s) => {
                    out = splice(out, l.from, l.to, s.as_slice());
                },
                None => {},
            }
        }
        n += 1;
    }
    assert(ord.take(n as int) =~= ord);
    out
}

/// A byte of a character that is not a newline is none either.
proof fn lemma_encode_one(v: u32)
    requires
        v != 10,
    ensures
        forall|i: int| 0 <= i < encode_scalar(v).len() ==> encode_scalar(v)[i] != 10,
{
    assert(v <= 0x7f && v != 10 ==> (v & 0x7F) as u8 != 10) by (bit_vector);
    assert(0xC0u8 | ((v >> 6) & 0x1F) as u8 != 10) by (bit_vector);
    assert(0xE0u8 | ((v >> 12) & 0x0F) as u8 != 10) by (bit_vector);
    assert(0xF0u8 | ((v >> 18) & 0x7) as u8 != 10) by (bit_vector);
    assert(0x80u8 | (v & 0x3F) as u8 != 10) by (bit_vector);
    assert(0x80u8 | ((v >> 6) & 0x3F) as u8 != 10) by (bit_vector);
    assert(0x80u8 | ((v >> 12) & 0x3F) as u8 != 10) by (bit_vector);
}

/// Text without a newline has none when it is encoded.
proof fn lemma_encode_newlines(s: Seq<char>)
    requires
        !s.contains('\n'),
    ensures
        newlines(encode_utf8(s)) == 0,
    decreases s.len(),
{
    if s.len() > 0 {
        let c = s[0];
        assert(s.contains(c));
        char_is_scalar(c);
        char_u32_cast(c, c as u32);
        lemma_encode_one(c as u32);
        let rest = s.drop_first();
        assert(!rest.contains('\n')) by {
            if rest.contains('\n') {
                let i = choose|i: int| 0 <= i < rest.len() && rest[i] == '\n';
                assert(s[i + 1] == '\n');
            }
        }
        lemma_encode_newlines(rest);
        lemma_newlines_none(encode_scalar(c as u32));
        lemma_newlines_concat(encode_scalar(c as u32), encode_utf8(rest));
    }
}

proof fn lemma_newlines_none(s: Seq<u8>)
    requires
        forall|i: int| 0 <= i < s.len() ==> s[i] != 10,
    ensures
        newlines(s) == 0,
    decreases s.len(),
{
    if s.len() > 0 {
        lemma_newlines_none(s.drop_last());
    }
}

/// Links that begin later come first.
spec fn descending(links: Seq<TargetSpan>, order: Seq<int>) -> bool {
    forall|i: int, j: int| 0 <= i < j < order.len() ==> links[#[trigger] order[i]].from >= links[#[trigger] order[j]].from
}

/// An order of the first `n` links.
spec fn lists(order: Seq<int>, n: int) -> bool {
    &&& order.no_duplicates()
    &&& forall|i: int| 0 <= i < order.len() ==> 0 <= #[trigger] order[i] < n
}

proof fn lemma_place_back(links: Seq<TargetSpan>, order: Seq<int>, k: int)
    requires
        descending(links, order),
        lists(order, k),
        k >= 0,
    ensures
        descending(links, place_back(links, order, k)),
        lists(place_back(links, order, k), k + 1),
        forall|i: int|
            0 <= i < place_back(links, order, k).len() ==> #[trigger] place_back(links, order, k)[i] == k || order.contains(
                place_back(links, order, k)[i],
            ),
    decreases order.len(),
{
    let out = place_back(links, order, k);
    if order.len() == 0 || links[order.last()].from >= links[k].from {
        assert forall|i: int, j: int| 0 <= i < j < out.len() implies links[#[trigger] out[i]].from >= links[#[trigger] out[j]].from by {
            if j < order.len() {
                assert(out[i] == order[i] && out[j] == order[j]);
            } else if i < order.len() - 1 {
                assert(links[order[i]].from >= links[order[order.len() - 1]].from);
            }
        }
        assert forall|i: int| 0 <= i < out.len() implies #[trigger] out[i] == k || order.contains(out[i]) by {
            if i < order.len() {
                assert(order[i] == out[i]);
            }
        }
    } else {
        let f = order.drop_last();
        assert(descending(links, f)) by {
            assert forall|i: int, j: int| 0 <= i < j < f.len() implies links[#[trigger] f[i]].from >= links[#[trigger] f[j]].from by {
                assert(f[i] == order[i] && f[j] == order[j]);
            }
        }
        assert(lists(f, k)) by {
            assert forall|i: int| 0 <= i < f.len() implies 0 <= #[trigger] f[i] < k by {
                assert(f[i] == order[i]);
            }
        }
        lemma_place_back(links, f, k);
        let sub = place_back(links, f, k);
        let last = order.last();
        assert(order[order.len() - 1] == last);
        assert forall|i: int| 0 <= i < sub.len() implies #[trigger] sub[i] != last && links[sub[i]].from >= links[last].from by {
            if sub[i] != k {
                let j = choose|j: int| 0 <= j < f.len() && f[j] == sub[i];
                assert(order[j] == sub[i]);
                assert(links[order[j]].from >= links[order[order.len() - 1]].from);
            }
        }
        assert forall|i: int, j: int| 0 <= i < j < out.len() implies links[#[trigger] out[i]].from >= links[#[trigger] out[j]].from by {
            if j < sub.len() {
                assert(out[i] == sub[i] && out[j] == sub[j]);
            } else {
                assert(out[i] == sub[i]);
            }
        }
        assert forall|i: int| 0 <= i < out.len() implies #[trigger] out[i] == k || order.contains(out[i]) by {
            if i < sub.len() {
                assert(out[i] == sub[i]);
                if sub[i] != k {
                    let j = choose|j: int| 0 <= j < f.len() && f[j] == sub[i];
                    assert(order[j] == sub[i]);
                }
            }
        }
        assert forall|i: int, j: int| 0 <= i < out.len() && 0 <= j < out.len() && i != j implies out[i] != out[j] by {
            if i < sub.len() && j < sub.len() {
                assert(out[i] == sub[i] && out[j] == sub[j]);
            } else if i < sub.len() {
                assert(out[i] == sub[i]);
            } else {
                assert(out[j] == sub[j]);
            }
        }
    }
}

proof fn lemma_back_to_front(links: Seq<TargetSpan>, n: int)
    requires
        0 <= n,
    ensures
        descending(links, back_to_front(links, n)),
        lists(back_to_front(links, n), n),
    decreases n,
{
    if n > 0 {
        lemma_back_to_front(links, n - 1);
        lemma_place_back(links, back_to_front(links, n - 1), n - 1);
    }
}

/// Links that lie in a text, apart from one another and each within a line.
pub open spec fn apart_in(text: Seq<u8>, links: Seq<TargetSpan>) -> bool {
    &&& forall|i: int|
        0 <= i < links.len() ==> (#[trigger] links[i]).from < links[i].to <= text.len() && newlines(
            text.subrange(links[i].from as int, links[i].to as int),
        ) == 0
    &&& forall|i: int, j: int|
        0 <= i < links.len() && 0 <= j < links.len() && i != j ==> (#[trigger] links[i]).to <= (#[trigger] links[j]).from
            || links[j].to <= links[i].from
}

/// What is before the links rewritten so far stays as it was, and so does the number of lines.
proof fn lemma_rewritten(text: Seq<u8>, links: Seq<TargetSpan>, order: Seq<int>, new: Seq<Option<Seq<char>>>)
    requires
        apart_in(text, links),
        descending(links, order),
        lists(order, links.len() as int),
        new.len() == links.len(),
        forall|i: int| 0 <= i < new.len() ==> ((#[trigger] new[i]) matches Some(s) ==> !s.contains('\n')),
    ensures
        ({
            let out = all_rewritten(text, links, order, new);
            let front = if order.len() == 0 { text.len() as int } else { links[order.last()].from as int };
            &&& newlines(out) == newlines(text)
            &&& front <= out.len()
            &&& front <= text.len()
            &&& out.take(front) == text.take(front)
        }),
    decreases order.len(),
{
    if order.len() > 0 {
        let f = order.drop_last();
        let k = order.last();
        assert(order[order.len() - 1] == k);
        assert(descending(links, f)) by {
            assert forall|i: int, j: int| 0 <= i < j < f.len() implies links[#[trigger] f[i]].from >= links[#[trigger] f[j]].from by {
                assert(f[i] == order[i] && f[j] == order[j]);
            }
        }
        assert(lists(f, links.len() as int)) by {
            assert forall|i: int| 0 <= i < f.len() implies 0 <= #[trigger] f[i] < links.len() by {
                assert(f[i] == order[i]);
            }
        }
        lemma_rewritten(text, links, f, new);
        let mid = all_rewritten(text, links, f, new);
        let l = links[k];
        let front = if f.len() == 0 { text.len() as int } else { links[f.last()].from as int };
        assert(l.to <= front) by {
            if f.len() > 0 {
                let j = f.last();
                assert(order[f.len() - 1] == j);
                assert(links[order[f.len() - 1]].from >= links[order[order.len() - 1]].from);
                assert(links[k].to <= links[j].from || links[j].to <= links[k].from);
            }
        }
        let from = l.from as int;
        let to = l.to as int;
        assert(mid.take(from) =~= mid.take(front).take(from));
        assert(text.take(from) =~= text.take(front).take(from));
        assert(mid.subrange(from, to) =~= mid.take(front).subrange(from, to));
        assert(text.subrange(from, to) =~= text.take(front).subrange(from, to));
        let out = all_rewritten(text, links, order, new);
        match new[k] {
            Some(s) => {
                lemma_encode_newlines(s);
                assert(mid =~= mid.take(from) + mid.subrange(from, to) + mid.skip(to));
                lemma_newlines_concat(mid.take(from) + mid.subrange(from, to), mid.skip(to));
                lemma_newlines_concat(mid.take(from), mid.subrange(from, to));
                lemma_newlines_concat(mid.take(from) + encode_utf8(s), mid.skip(to));
                lemma_newlines_concat(mid.take(from), encode_utf8(s));
                assert(out.take(from) =~= mid.take(from));
            },
            None => {},
        }
    }
}

/// Rewriting links never adds or removes a newline, so line numbers are the same in the
/// projected text: provided that the links lie apart, each within a line, and that what they
/// become holds no newline.
pub proof fn law_projection_keeps_lines(a: Account, text: Seq<u8>, links: Seq<TargetSpan>)
    requires
        apart_in(text, links),
        forall|i: int|
            0 <= i < links.len() ==> (projection(a, #[trigger] links[i]) matches Some(p) ==> !p.1.contains('\n')),
    ensures
        newlines(
            all_rewritten(text, links, back_to_front(links, links.len() as int), projections(a, links)),
        ) == newlines(text),
{
    let new = projections(a, links);
    lemma_back_to_front(links, links.len() as int);
    assert forall|i: int| 0 <= i < new.len() implies ((#[trigger] new[i]) matches Some(s) ==> !s.contains('\n')) by {
        assert(projection(a, links[i]) matches Some(p) ==> !p.1.contains('\n'));
    }
    lemma_rewritten(text, links, back_to_front(links, links.len() as int), new);
}

} // verus!

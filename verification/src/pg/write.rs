//! Writing a file: its whole content, or one piece of text for another.

use vstd::prelude::*;
use vstd::string::*;
use vstd::slice::{slice_subrange, slice_to_vec};
use crate::chunker::ChunkParams;
use crate::commit::{commit, commit_clash, commit_done, commit_local, commit_owed, commit_result, swaps_lost, Committed};
use crate::edit::{edited, edits_valid, Edit};
use crate::error::TextdbError;
use crate::hash::same_hash;
use crate::merge::law_no_text_diff;
use crate::model::{doc, grows, sound, Store};
use crate::patch::{byte_edits, edit_views, edits_between, EditView};
use crate::pg::bulk::{bytes_at, refused};
use crate::storage::{missing_node, Result, Storage};
use crate::text::same_bytes;
use crate::tree::materialize;

verus! {

/// The text `old` stands in `content` at place `i` and, overlapping or not, nowhere else.
pub open spec fn stands_only_at(content: Seq<u8>, old: Seq<u8>, i: int) -> bool {
    &&& old.len() > 0
    &&& bytes_at(content, old, i)
    &&& forall|j: int| #[trigger] bytes_at(content, old, j) ==> j == i
}

/// The text `old` stands in `content` exactly once.
pub open spec fn stands_once(content: Seq<u8>, old: Seq<u8>) -> bool {
    exists|i: int| #[trigger] stands_only_at(content, old, i)
}

/// Why a text does not stand exactly once.
pub open spec fn not_once(content: Seq<u8>, old: Seq<u8>) -> Seq<char> {
    if old.len() == 0 {
        "old text is empty"@
    } else if forall|j: int| !#[trigger] bytes_at(content, old, j) {
        "old text not found"@
    } else {
        "old text is not unique"@
    }
}

/// Where `old` occurs in `content`, exactly once.
pub fn find_unique(content: &[u8], old: &[u8]) -> (r: Result<usize>)
    ensures
        match r {
            Ok(i) => stands_only_at(content@, old@, i as int),
            Err(_) => !stands_once(content@, old@) && refused(r, not_once(content@, old@)),
        },
{
    if old.len() == 0 {
        return Err(TextdbError::InvalidEdit(String::from_str("old text is empty")));
    }
    let mut found: Option<usize> = None;
    let mut i: usize = 0;
    while i <= content.len() && old.len() <= content.len() - i
        invariant
            i <= content@.len(),
            old@.len() > 0,
            match found {
                Some(k) => bytes_at(content@, old@, k as int) && k < i && forall|j: int|
                    #[trigger] bytes_at(content@, old@, j) && j < i ==> j == k,
                None => forall|j: int| #[trigger] bytes_at(content@, old@, j) ==> j >= i,
            },
        decreases content@.len() - i,
    {
        if same_bytes(slice_subrange(content, i, i + old.len()), old) {
            assert(bytes_at(content@, old@, i as int));
            if found.is_some() {
                return Err(TextdbError::InvalidEdit(String::from_str("old text is not unique")));
            }
            found = Some(i);
        }
        i += 1;
    }
    match found {
        Some(k) => {
            assert(stands_only_at(content@, old@, k as int));
            Ok(k)
        },
        None => Err(TextdbError::InvalidEdit(String::from_str("old text not found"))),
    }
}

/// The edits `es` turn the document `base` into `content`, line by line.
pub open spec fn turns_into(st: Store, base: Seq<u8>, content: Seq<u8>, es: Seq<Edit>) -> bool {
    &&& edit_views(es) == edits_between(doc(st, base), content)
    &&& edits_valid(es, doc(st, base).len() as int)
    &&& edited(doc(st, base), es) == content
}

/// What a commit of some edits gives.
pub open spec fn committed(
    local: bool,
    st: Store,
    fin: Store,
    p: ChunkParams,
    file_id: u64,
    path: Seq<char>,
    base: Seq<u8>,
    es: Seq<Edit>,
    retries: usize,
    r: Result<Committed>,
) -> bool {
    &&& r matches Ok(c) ==> c.retries <= retries && commit_result(st, fin, file_id, base, es, c)
    &&& local ==> commit_local(st, fin, file_id, path, base, es, r)
    &&& local && p.min < p.max && r is Ok ==> commit_done(st, fin, p, file_id, path, base, es, r->Ok_0)
    &&& local && r is Err && commit_owed(st, p, file_id, base, es) ==> commit_clash(st, fin, p, file_id, base, es)
    &&& r matches Err(TextdbError::Contention) ==> swaps_lost(st, fin, file_id, retries as nat + 1)
}

/// A write that reached the commit, as the commit tells it.
pub open spec fn as_commit(r: Result<Option<Committed>>) -> Result<Committed> {
    match r {
        Ok(Some(c)) => Ok(c),
        Ok(None) => arbitrary(),
        Err(e) => Err(e),
    }
}

/// What writing a whole content does, with the edits that the content makes to its base.
pub open spec fn update_result(
    local: bool,
    st: Store,
    fin: Store,
    p: ChunkParams,
    file_id: u64,
    path: Seq<char>,
    base: Seq<u8>,
    es: Seq<Edit>,
    retries: usize,
    r: Result<Option<Committed>>,
) -> bool {
    r matches Ok(None) || committed(local, st, fin, p, file_id, path, base, es, retries, as_commit(r))
}

/// What writing a whole content does, once its base has been read.
pub open spec fn content_written(
    local: bool,
    st: Store,
    fin: Store,
    p: ChunkParams,
    file_id: u64,
    path: Seq<char>,
    base: Seq<u8>,
    content: Seq<u8>,
    retries: usize,
    r: Result<Option<Committed>>,
) -> bool {
    exists|es: Seq<Edit>| #[trigger]
        turns_into(st, base, content, es) && update_result(local, st, fin, p, file_id, path, base, es, retries, r)
}

proof fn lemma_no_edits(st: Store, base: Seq<u8>, content: Seq<u8>, es: Seq<Edit>)
    requires
        turns_into(st, base, content, es),
    ensures
        es.len() == 0 <==> doc(st, base) == content,
{
    assert(es.len() == edit_views(es).len());
    if es.len() == 0 {
        assert(edited(doc(st, base), es) == doc(st, base));
    }
    if doc(st, base) == content {
        law_no_text_diff(content);
        assert(edits_between(content, content) =~= Seq::<EditView>::empty());
    }
}

/// Whole-content update: the difference to the base as edits, committed over it and rebased where
/// the file has moved on. Content that the current version holds already makes no version.
pub fn update_content<S: Storage + ?Sized>(
    storage: &mut S,
    params: &ChunkParams,
    file_id: u64,
    path: &str,
    base: &crate::hash::Hash,
    current: &crate::hash::Hash,
    content: &[u8],
    retries: usize,
) -> (r: Result<Option<Committed>>)
    requires
        params.valid(),
        params.min < params.max + params.snap,
        sound(old(storage).store()),
    ensures
        final(storage).local() == old(storage).local(),
        grows(old(storage).store(), final(storage).store()),
        sound(final(storage).store()),
        r is Ok ==> old(storage).store().nodes.contains_key(base@),
        old(storage).local() && !old(storage).store().nodes.contains_key(base@) ==> missing_node(r, base@),
        r matches Ok(o) ==> (o is None <==> base@ == current@ && doc(old(storage).store(), base@) == content@),
        r matches Ok(None) ==> final(storage).store() == old(storage).store(),
        r is Ok || old(storage).local() && old(storage).store().nodes.contains_key(base@) ==> content_written(
            old(storage).local(),
            old(storage).store(),
            final(storage).store(),
            *params,
            file_id,
            path@,
            base@,
            content@,
            retries,
            r,
        ),
{
    let ghost st = storage.store();
    let text: Vec<u8> = match materialize(storage, base) {
        Ok(t) => t,
        Err(e) => {
            return Err(e);
        },
    };
    let edits: Vec<Edit> = byte_edits(text.as_slice(), content);
    proof {
        assert(turns_into(st, base@, content@, edits@));
        lemma_no_edits(st, base@, content@, edits@);
    }
    if edits.len() == 0 && same_hash(base, current) {
        let r: Result<Option<Committed>> = Ok(None);
        proof {
            assert(update_result(storage.local(), st, st, *params, file_id, path@, base@, edits@, retries, r));
        }
        return r;
    }
    let done = commit(storage, params, file_id, path, base, edits.as_slice(), retries);
    let r: Result<Option<Committed>> = match done {
        Ok(c) => Ok(Some(c)),
        Err(e) => Err(e),
    };
    proof {
        assert(update_result(
            old(storage).local(),
            st,
            storage.store(),
            *params,
            file_id,
            path@,
            base@,
            edits@,
            retries,
            r,
        ));
    }
    r
}

/// What a commit of one edit gives.
pub open spec fn committed_edit(
    local: bool,
    st: Store,
    fin: Store,
    p: ChunkParams,
    file_id: u64,
    path: Seq<char>,
    base: Seq<u8>,
    e: EditView,
    retries: usize,
    r: Result<Committed>,
) -> bool {
    exists|es: Seq<Edit>| edit_views(es) == seq![e] && #[trigger]
        committed(local, st, fin, p, file_id, path, base, es, retries, r)
}

/// What replacing a text that occurs once does, once the document has been read.
pub open spec fn text_written(
    local: bool,
    st: Store,
    fin: Store,
    p: ChunkParams,
    file_id: u64,
    path: Seq<char>,
    current: Seq<u8>,
    old_text: Seq<u8>,
    new: Seq<u8>,
    retries: usize,
    r: Result<Committed>,
) -> bool {
    &&& forall|at: int| #[trigger]
        stands_only_at(doc(st, current), old_text, at) ==> {
            let e = EditView { from: at, to: at + old_text.len(), text: new };
            committed_edit(local, st, fin, p, file_id, path, current, e, retries, r)
        }
    &&& !stands_once(doc(st, current), old_text) ==> refused(r, not_once(doc(st, current), old_text))
}

/// Strict replace: `old_text` must occur exactly once in the current content.
pub fn edit_text<S: Storage + ?Sized>(
    storage: &mut S,
    params: &ChunkParams,
    file_id: u64,
    path: &str,
    current: &crate::hash::Hash,
    old_text: &[u8],
    new: &[u8],
    retries: usize,
) -> (r: Result<Committed>)
    requires
        params.valid(),
        params.min < params.max + params.snap,
        sound(old(storage).store()),
    ensures
        final(storage).local() == old(storage).local(),
        grows(old(storage).store(), final(storage).store()),
        sound(final(storage).store()),
        r is Ok ==> old(storage).store().nodes.contains_key(current@),
        old(storage).local() && !old(storage).store().nodes.contains_key(current@) ==> missing_node(r, current@),
        r is Ok || old(storage).local() && old(storage).store().nodes.contains_key(current@) ==> text_written(
            old(storage).local(),
            old(storage).store(),
            final(storage).store(),
            *params,
            file_id,
            path@,
            current@,
            old_text@,
            new@,
            retries,
            r,
        ),
{
    let ghost st = storage.store();
    let text: Vec<u8> = match materialize(storage, current) {
        Ok(t) => t,
        Err(e) => {
            return Err(e);
        },
    };
    let at: usize = match find_unique(text.as_slice(), old_text) {
        Ok(i) => i,
        Err(e) => {
            return Err(e);
        },
    };
    assert(at + old_text.len() <= text.len());
    let mut edits: Vec<Edit> = Vec::new();
    edits.push(Edit::new(at as u64, (at + old_text.len()) as u64, slice_to_vec(new)));
    proof {
        assert(edit_views(edits@) =~= seq![
            EditView { from: at as int, to: at + old_text@.len(), text: new@ },
        ]);
    }
    let r = commit(storage, params, file_id, path, current, edits.as_slice(), retries);
    proof {
        assert(committed(
            old(storage).local(),
            st,
            storage.store(),
            *params,
            file_id,
            path@,
            current@,
            edits@,
            retries,
            r,
        ));
    }
    r
}

} // verus!

//! Commit with automatic rebase at chunk granularity.

use vstd::prelude::*;
use vstd::string::*;
use crate::chunker::ChunkParams;
use crate::edit::{apply_edits, bytes_added, edited, edits_clash, edits_valid, Edit};
use crate::error::TextdbError;
use crate::hash::same_hash;
use crate::levels::{held, is_top, lemma_held_grows, lift};
use crate::model::{doc, grows, law_documents_are_kept, sound, Store};
use crate::node::hash_entries;
use crate::rebase::{edits_fit, rebase, rebase_error, rebase_owed, rebase_result, rebased_clash};
use crate::storage::{expected, missing_node, root_of, swapped, unraced, version_of, Result, Storage};
use crate::tree::{canonical, hashes_of, leaf_entries, new_chunks_listed, totals, tree_held};

verus! {

/// Default retry budget before `Contention` is surfaced.
pub const DEFAULT_RETRIES: usize = 8;

/// How a successful commit was achieved.
#[derive(Clone, Copy, Debug, PartialEq, Eq, Structural)]
pub enum CommitKind {
    /// CAS succeeded against the caller's base root.
    Direct,
    /// Base had moved; edits were shifted past disjoint changes.
    Rebased,
    /// Base had moved and overlapped; line-level diff3 merged cleanly.
    Merged,
    /// The document already had the requested content (no new version).
    NoOp,
}

impl CommitKind {
    /// Lower-case name, as recorded in commit rows and the change feed.
    pub fn as_str(self) -> (r: &'static str)
        ensures
            r@ == match self {
                CommitKind::Direct => "direct"@,
                CommitKind::Rebased => "rebased"@,
                CommitKind::Merged => "merged"@,
                CommitKind::NoOp => "noop"@,
            },
    {
        match self {
            CommitKind::Direct => "direct",
            CommitKind::Rebased => "rebased",
            CommitKind::Merged => "merged",
            CommitKind::NoOp => "noop",
        }
    }
}

#[derive(Clone, Debug)]
pub struct Committed {
    pub version: u64,
    pub root: crate::hash::Hash,
    pub kind: CommitKind,
    pub new_chunks: Vec<crate::hash::Hash>,
    pub retries: usize,
}

/// Conflict payload: the *current* text of the region so an agent can retry
/// without another read.
#[derive(Clone, Debug, PartialEq, Eq)]
pub struct ConflictInfo {
    pub path: String,
    pub region_line_from: u64,
    pub region_line_to: u64,
    pub base: String,
    pub theirs: String,
    pub ours: String,
    pub current_version: u64,
}

/// Between two states of the storage there was one in which the file was at root `cur`, version `v`.
pub open spec fn was_at(before: Store, st: Store, fin: Store, file_id: u64, cur: Seq<u8>, v: int) -> bool {
    &&& grows(before, st)
    &&& grows(st, fin)
    &&& st.roots.contains_key(file_id)
    &&& st.roots[file_id].0 == cur
    &&& st.roots[file_id].1 == v
}

/// What the edits make of the document `cur`: the edited base where it is the base, and the edits
/// rebased onto it where it is another.
pub open spec fn put_on(
    st: Store,
    fin: Store,
    base: Seq<u8>,
    cur: Seq<u8>,
    es: Seq<Edit>,
    root: Seq<u8>,
    kind: CommitKind,
) -> bool {
    if cur == base {
        kind == CommitKind::Direct && direct_result(fin, base, es, root)
    } else {
        rebase_result(st, fin, base, cur, es, root, kind)
    }
}

/// The swap at `mid` put `new` in place of the very root `cur` that the file was at when its
/// version `v` was read. The root may have been away in between, which leaves the document the
/// same.
pub open spec fn replaced(
    before: Store,
    st: Store,
    mid: Store,
    fin: Store,
    file_id: u64,
    cur: Seq<u8>,
    v: int,
    new: Seq<u8>,
) -> bool {
    &&& was_at(before, st, fin, file_id, cur, v)
    &&& grows(st, mid)
    &&& root_of(mid, file_id) == Some(cur)
    &&& swapped(mid, fin, file_id, new)
    &&& new != cur
}

/// A new version: the edits were put on the document that the swap replaced.
pub open spec fn version_made(
    before: Store,
    st: Store,
    mid: Store,
    fin: Store,
    file_id: u64,
    base: Seq<u8>,
    cur: Seq<u8>,
    es: Seq<Edit>,
    c: Committed,
) -> bool {
    &&& replaced(before, st, mid, fin, file_id, cur, c.version - 1, c.root@)
    &&& put_on(st, fin, base, cur, es, c.root@, c.kind)
}

/// No new version: the edits leave the document that was current as it is.
pub open spec fn left_as_is(
    before: Store,
    st: Store,
    fin: Store,
    file_id: u64,
    base: Seq<u8>,
    es: Seq<Edit>,
    c: Committed,
    kind: CommitKind,
) -> bool {
    &&& was_at(before, st, fin, file_id, c.root@, c.version as int)
    &&& put_on(st, fin, base, c.root@, es, c.root@, kind)
}

/// What a commit that succeeded gave, whoever else writes to the storage: a new root holds the
/// edited base, or the edits rebased onto the document it took the place of. Nobody's version is
/// lost.
pub open spec fn commit_result(before: Store, fin: Store, file_id: u64, base: Seq<u8>, es: Seq<Edit>, c: Committed) -> bool {
    &&& fin.nodes.contains_key(c.root@)
    &&& if c.kind == CommitKind::NoOp {
        &&& c.new_chunks@.len() == 0
        &&& exists|st: Store, kind: CommitKind| #[trigger] left_as_is(before, st, fin, file_id, base, es, c, kind)
    } else {
        exists|st: Store, mid: Store, cur: Seq<u8>| #[trigger]
            version_made(before, st, mid, fin, file_id, base, cur, es, c)
    }
}

/// One swap lost to another writer: between `a` and `b` the root of the file was read, and was
/// another one when the swap came.
pub open spec fn swap_lost(a: Store, read: Store, mid: Store, b: Store, file_id: u64) -> bool {
    &&& grows(a, read)
    &&& grows(read, mid)
    &&& grows(mid, b)
    &&& root_of(read, file_id) is Some
    &&& root_of(mid, file_id) != root_of(read, file_id)
}

/// Between `a` and `b`, `n` swaps were lost, one after the other.
pub open spec fn swaps_lost(a: Store, b: Store, file_id: u64, n: nat) -> bool
    decreases n,
{
    if n == 0 {
        grows(a, b)
    } else {
        exists|x: Store, read: Store, mid: Store|
            swaps_lost(a, x, file_id, (n - 1) as nat) && #[trigger] swap_lost(x, read, mid, b, file_id)
    }
}

proof fn lemma_lost_again(a: Store, x: Store, read: Store, mid: Store, b: Store, file_id: u64, n: nat)
    requires
        swaps_lost(a, x, file_id, n),
        swap_lost(x, read, mid, b, file_id),
    ensures
        swaps_lost(a, b, file_id, n + 1),
{
    assert(swaps_lost(a, x, file_id, (n + 1 - 1) as nat));
}

/// What a commit does once a swap has been answered.
#[derive(Clone, Copy, Debug, PartialEq, Eq, Structural)]
pub enum AfterSwap {
    /// The root has moved: the version is made.
    Done,
    /// Somebody else was faster: read the root and try again.
    Again,
    /// Somebody else was faster, and the retry budget is used up: `Contention`.
    GiveUp,
}

/// What a commit with `left` retries left does once a swap has been answered.
pub open spec fn swap_step(won: bool, left: nat) -> AfterSwap {
    if won {
        AfterSwap::Done
    } else if left == 0 {
        AfterSwap::GiveUp
    } else {
        AfterSwap::Again
    }
}

pub fn after_swap(won: bool, left: usize) -> (r: AfterSwap)
    ensures
        r == swap_step(won, left as nat),
{
    if won {
        AfterSwap::Done
    } else if left == 0 {
        AfterSwap::GiveUp
    } else {
        AfterSwap::Again
    }
}

/// What a commit with `left` retries has come to once its swaps have been answered so.
pub open spec fn after_swaps(answers: Seq<bool>, left: nat) -> AfterSwap
    decreases answers.len(),
{
    if answers.len() == 0 {
        AfterSwap::Again
    } else {
        match swap_step(answers[0], left) {
            AfterSwap::Again => after_swaps(answers.skip(1), (left - 1) as nat),
            other => other,
        }
    }
}

/// `Contention` comes after one lost swap more than there are retries, and not before; a swap that
/// is won within them ends the commit.
pub proof fn law_contention(answers: Seq<bool>, retries: nat)
    ensures
        after_swaps(answers, retries) == AfterSwap::GiveUp <==> answers.len() > retries && forall|i: int|
            0 <= i <= retries ==> !#[trigger] answers[i],
        after_swaps(answers, retries) == AfterSwap::Done <==> exists|i: int|
            0 <= i <= retries && i < answers.len() && #[trigger] answers[i],
    decreases answers.len(),
{
    if answers.len() > 0 && !answers[0] && retries > 0 {
        let rest = answers.skip(1);
        let left = (retries - 1) as nat;
        law_contention(rest, left);
        assert forall|i: int| 0 < i < answers.len() implies rest[i - 1] == #[trigger] answers[i] by {}
        assert forall|i: int| 0 <= i < rest.len() implies #[trigger] rest[i] == answers[i + 1] by {}
        if after_swaps(answers, retries) == AfterSwap::GiveUp {
            assert forall|i: int| 0 <= i <= retries implies !#[trigger] answers[i] by {
                if i > 0 {
                    assert(!rest[i - 1]);
                }
            }
        }
        if after_swaps(answers, retries) == AfterSwap::Done {
            let i = choose|i: int| 0 <= i <= left && i < rest.len() && #[trigger] rest[i];
            assert(answers[i + 1]);
        }
        if exists|i: int| 0 <= i <= retries && i < answers.len() && #[trigger] answers[i] {
            let i = choose|i: int| 0 <= i <= retries && i < answers.len() && #[trigger] answers[i];
            assert(rest[i - 1]);
        }
    }
}

/// The new root holds the edited base.
pub open spec fn direct_result(fin: Store, base: Seq<u8>, es: Seq<Edit>, root: Seq<u8>) -> bool {
    &&& fin.nodes.contains_key(base)
    &&& fin.nodes.contains_key(root)
    &&& edits_valid(es, doc(fin, base).len() as int)
    &&& doc(fin, root) == edited(doc(fin, base), es)
}

/// The root and version of a file after a commit, when nobody else writes to the storage: they
/// stay if the content does, and the version goes up by one otherwise.
pub open spec fn moved_on(st: Store, fin: Store, file_id: u64, c: Committed) -> bool {
    let cur = st.roots[file_id].0;
    let v = st.roots[file_id].1;
    &&& c.retries == 0
    &&& if c.root@ == cur {
        c.kind == CommitKind::NoOp && c.version == v && fin.roots == st.roots
    } else {
        &&& c.kind != CommitKind::NoOp
        &&& c.version == v + 1
        &&& fin.roots == st.roots.insert(file_id, (c.root@, c.version))
    }
}

/// What a commit does when nobody else writes to the storage.
pub open spec fn commit_local(
    st: Store,
    fin: Store,
    file_id: u64,
    path: Seq<char>,
    base: Seq<u8>,
    es: Seq<Edit>,
    r: Result<Committed>,
) -> bool {
    let cur = st.roots[file_id].0;
    &&& !st.roots.contains_key(file_id) ==> not_found(r, path)
    &&& r is Err ==> fin.roots == st.roots
    &&& r matches Ok(c) ==> {
        &&& moved_on(st, fin, file_id, c)
        &&& c.kind != CommitKind::NoOp ==> new_chunks_listed(st, fin, hashes_of(c.new_chunks@))
        &&& cur == base ==> direct_result(fin, base, es, c.root@) && (c.kind == CommitKind::Direct || c.kind == CommitKind::NoOp)
        &&& cur != base ==> exists|kind: CommitKind|
            #[trigger] rebase_result(st, fin, base, cur, es, c.root@, kind) && (c.kind == kind || c.kind == CommitKind::NoOp)
    }
    &&& st.roots.contains_key(file_id) && cur == base ==> {
        &&& !st.nodes.contains_key(base) ==> missing_node(r, base)
        &&& st.nodes.contains_key(base) && doc(st, base).len() + bytes_added(es) > usize::MAX ==> r is Err && r->Err_0 is Other
        &&& st.nodes.contains_key(base) && doc(st, base).len() + bytes_added(es) <= usize::MAX && !edits_valid(
            es,
            doc(st, base).len() as int,
        ) ==> r is Err && r->Err_0 is InvalidEdit
    }
    &&& st.roots.contains_key(file_id) && cur != base ==> {
        &&& !st.nodes.contains_key(base) ==> missing_node(r, base)
        &&& st.nodes.contains_key(base) && !st.nodes.contains_key(cur) ==> missing_node(r, cur)
        &&& st.nodes.contains_key(base) && st.nodes.contains_key(cur) && r is Err && version_of(st, file_id) < u64::MAX
            ==> rebase_error(st, base, cur, es, path, version_of(st, file_id), r->Err_0)
    }
}

pub open spec fn not_found<T>(r: Result<T>, path: Seq<char>) -> bool {
    r matches Err(TextdbError::NotFound(s)) && s@ == path
}

/// Is a commit owed success, but for a clash of hashes in the storage? The base is stored as
/// a tree of its own text, the edits are valid and nothing overflows.
pub open spec fn commit_owed(st: Store, p: ChunkParams, file_id: u64, base: Seq<u8>, es: Seq<Edit>) -> bool {
    let cur = st.roots[file_id].0;
    &&& st.roots.contains_key(file_id)
    &&& st.roots[file_id].1 < u64::MAX
    &&& if cur == base {
        &&& st.nodes.contains_key(base)
        &&& edits_valid(es, doc(st, base).len() as int)
        &&& doc(st, base).len() + bytes_added(es) <= usize::MAX
        &&& p.min < p.max
        &&& canonical(st, p, base, doc(st, base))
    } else {
        rebase_owed(st, p, base, cur, es)
    }
}

/// The result of a commit cannot be stored.
pub open spec fn commit_clash(st: Store, fin: Store, p: ChunkParams, file_id: u64, base: Seq<u8>, es: Seq<Edit>) -> bool {
    let cur = st.roots[file_id].0;
    if cur == base {
        edits_clash(fin, p, doc(st, base), es)
    } else {
        rebased_clash(st, fin, p, base, cur, es)
    }
}

/// What a commit that succeeded did, when nobody else writes to the storage. Where the document was
/// stored as its text determines, so is the new one.
#[verifier::opaque]
pub open spec fn commit_done(
    st: Store,
    fin: Store,
    p: ChunkParams,
    file_id: u64,
    path: Seq<char>,
    base: Seq<u8>,
    es: Seq<Edit>,
    c: Committed,
) -> bool {
    let cur = st.roots[file_id].0;
    &&& grows(st, fin)
    &&& sound(fin)
    &&& fin.nodes.contains_key(c.root@)
    &&& commit_local(st, fin, file_id, path, base, es, Ok(c))
    &&& canonical(st, p, cur, doc(st, cur)) ==> canonical(fin, p, c.root@, doc(fin, c.root@))
}

/// The text a direct commit proposes.
fn propose<S: Storage + ?Sized>(storage: &mut S, params: &ChunkParams, base: &crate::hash::Hash, edits: &[Edit]) -> (r:
    Result<(crate::hash::Hash, Vec<crate::hash::Hash>)>)
    requires
        params.valid(),
        params.min < params.max + params.snap,
        sound(old(storage).store()),
    ensures
        unraced(r),
        final(storage).local() == old(storage).local(),
        grows(old(storage).store(), final(storage).store()),
        sound(final(storage).store()),
        old(storage).local() ==> final(storage).store().roots == old(storage).store().roots,
        r matches Ok(p) ==> direct_result(final(storage).store(), base@, edits@, p.0@),
        r matches Ok(p) ==> p.0@ == base@ || edits@.len() > 0,
        r matches Ok(p) ==> params.min < params.max && canonical(
            old(storage).store(),
            *params,
            base@,
            doc(old(storage).store(), base@),
        ) ==> canonical(final(storage).store(), *params, p.0@, doc(final(storage).store(), p.0@)),
        r matches Ok(p) ==> old(storage).local() ==> new_chunks_listed(
            old(storage).store(),
            final(storage).store(),
            hashes_of(p.1@),
        ),
        old(storage).local() ==> ({
            let st = old(storage).store();
            let s = doc(st, base@);
            &&& !st.nodes.contains_key(base@) ==> missing_node(r, base@)
            &&& st.nodes.contains_key(base@) && s.len() + bytes_added(edits@) > usize::MAX ==> r is Err && r->Err_0 is Other
            &&& st.nodes.contains_key(base@) && s.len() + bytes_added(edits@) <= usize::MAX && !edits_valid(
                edits@,
                s.len() as int,
            ) ==> r is Err && r->Err_0 is InvalidEdit
            &&& r is Err && st.nodes.contains_key(base@) && edits_valid(edits@, s.len() as int) && s.len() + bytes_added(
                edits@,
            ) <= usize::MAX && params.min < params.max && canonical(st, *params, base@, s) ==> edits_clash(
                final(storage).store(),
                *params,
                s,
                edits@,
            )
        }),
{
    let len: u64 = match totals(storage, base) {
        Ok(t) => t.0,
        Err(e) => {
            return Err(e);
        },
    };
    if !edits_fit(len, edits) {
        return Err(TextdbError::Other(String::from_str("document too large")));
    }
    let ghost st = storage.store();
    match apply_edits(storage, params, base, edits) {
        Ok(er) => {
            proof {
                law_documents_are_kept(st, storage.store(), base@);
            }
            Ok((er.root, er.new_chunks))
        },
        Err(e) => Err(e),
    }
}

fn copy_hashes(hs: &Vec<crate::hash::Hash>) -> (out: Vec<crate::hash::Hash>)
    ensures
        out@ == hs@,
{
    vstd::slice::slice_to_vec(hs.as_slice())
}

/// Commit `edits` (in coordinates of `base_root`) to `file_id`.
///
/// `path` is only used for the conflict payload. Returns `Conflict` / `Contention` errors.
#[verifier::rlimit(60)]
pub fn commit<S: Storage + ?Sized>(
    storage: &mut S,
    params: &ChunkParams,
    file_id: u64,
    path: &str,
    base_root: &crate::hash::Hash,
    edits: &[Edit],
    retries: usize,
) -> (r: Result<Committed>)
    requires
        params.valid(),
        params.min < params.max + params.snap,
        sound(old(storage).store()),
    ensures
        final(storage).local() == old(storage).local(),
        grows(old(storage).store(), final(storage).store()),
        sound(final(storage).store()),
        r matches Ok(c) ==> c.retries <= retries && commit_result(
            old(storage).store(),
            final(storage).store(),
            file_id,
            base_root@,
            edits@,
            c,
        ),
        old(storage).local() ==> commit_local(
            old(storage).store(),
            final(storage).store(),
            file_id,
            path@,
            base_root@,
            edits@,
            r,
        ),
        r matches Ok(c) ==> old(storage).local() && params.min < params.max ==> commit_done(
            old(storage).store(),
            final(storage).store(),
            *params,
            file_id,
            path@,
            base_root@,
            edits@,
            c,
        ),
        r matches Err(TextdbError::Contention) ==> swaps_lost(
            old(storage).store(),
            final(storage).store(),
            file_id,
            retries as nat + 1,
        ),
        old(storage).local() && r is Err && commit_owed(
            old(storage).store(),
            *params,
            file_id,
            base_root@,
            edits@,
        ) ==> commit_clash(old(storage).store(), final(storage).store(), *params, file_id, base_root@, edits@),
{
    let ghost st0 = storage.store();
    let mut attempt: usize = 0;
    // Our proposed new root against the base; computed lazily once.
    let mut r1: Option<(crate::hash::Hash, Vec<crate::hash::Hash>)> = None;
    loop
        invariant
            params.valid(),
            params.min < params.max + params.snap,
            st0 == old(storage).store(),
            storage.local() == old(storage).local(),
            grows(st0, storage.store()),
            sound(storage.store()),
            attempt <= retries,
            swaps_lost(st0, storage.store(), file_id, attempt as nat),
            storage.local() ==> attempt == 0 && storage.store() == st0 && r1 is None,
            r1 matches Some(p) ==> direct_result(storage.store(), base_root@, edits@, p.0@),
        decreases retries - attempt,
    {
        let ghost st1 = storage.store();
        let (rcur, v): (crate::hash::Hash, u64) = match storage.get_root(file_id) {
            Ok(Some(p)) => p,
            Ok(None) => {
                return Err(TextdbError::NotFound(String::from_str(path)));
            },
            Err(e) => {
                return Err(e);
            },
        };
        let (root, chunks, kind): (crate::hash::Hash, Vec<crate::hash::Hash>, CommitKind) = if same_hash(&rcur, base_root) {
            match &r1 {
                Some(p) => {
                    let c = copy_hashes(&p.1);
                    (p.0, c, CommitKind::Direct)
                },
                None => {
                    match propose(storage, params, base_root, edits) {
                        Ok(p) => {
                            let c = copy_hashes(&p.1);
                            r1 = Some((p.0, c));
                            (p.0, p.1, CommitKind::Direct)
                        },
                        Err(e) => {
                            return Err(e);
                        },
                    }
                },
            }
        } else {
            let x = match rebase(storage, params, path, base_root, &rcur, edits, v) {
                Ok(x) => x,
                Err(e) => {
                    return Err(e);
                },
            };
            proof {
                if r1 is Some {
                    law_documents_are_kept(st1, storage.store(), base_root@);
                    law_documents_are_kept(st1, storage.store(), (r1->0).0@);
                }
            }
            x
        };
        let ghost st2 = storage.store();
        if same_hash(&root, &rcur) {
            let c = Committed { version: v, root, kind: CommitKind::NoOp, new_chunks: Vec::new(), retries: attempt };
            proof {
                assert(left_as_is(st0, st1, st2, file_id, base_root@, edits@, c, kind));
                reveal(commit_done);
            }
            return Ok(c);
        }
        if v == u64::MAX {
            return Err(TextdbError::Storage(String::from_str("version counter exhausted")));
        }
        let won: bool = match storage.cas_root(file_id, Some(&rcur), &root) {
            Ok(b) => b,
            Err(e) => {
                return Err(e);
            },
        };
        let ghost fin = storage.store();
        match after_swap(won, retries - attempt) {
            AfterSwap::Done => {
                let c = Committed { version: v + 1, root, kind, new_chunks: chunks, retries: attempt };
                proof {
                    let mid = choose|mid: Store|
                        grows(st2, mid) && expected(mid, file_id, Some(&rcur)) && #[trigger] swapped(mid, fin, file_id, root@);
                    lemma_committed(st0, st1, st2, fin, base_root@, rcur@, edits@, root@, kind);
                    assert(version_made(st0, st1, mid, fin, file_id, base_root@, rcur@, edits@, c));
                    reveal(commit_done);
                    if storage.local() {
                        lemma_tree_kept(st2, fin, *params, root@);
                    }
                }
                return Ok(c);
            },
            AfterSwap::GiveUp => {
                proof {
                    lemma_lost_one(st0, st1, st2, fin, file_id, &rcur, attempt as nat);
                }
                return Err(TextdbError::Contention);
            },
            AfterSwap::Again => {
                proof {
                    lemma_lost_one(st0, st1, st2, fin, file_id, &rcur, attempt as nat);
                    if r1 is Some {
                        law_documents_are_kept(st2, storage.store(), base_root@);
                        law_documents_are_kept(st2, storage.store(), (r1->0).0@);
                    }
                }
                attempt += 1;
            },
        }
    }
}

/// A swap that was answered with a no has been lost.
proof fn lemma_lost_one(st0: Store, st1: Store, st2: Store, fin: Store, file_id: u64, cur: &crate::hash::Hash, n: nat)
    requires
        swaps_lost(st0, st1, file_id, n),
        grows(st1, st2),
        root_of(st1, file_id) == Some(cur@),
        exists|mid: Store| grows(st2, mid) && grows(mid, fin) && !#[trigger] expected(mid, file_id, Some(cur)),
    ensures
        swaps_lost(st0, fin, file_id, n + 1),
{
    let mid = choose|mid: Store| grows(st2, mid) && grows(mid, fin) && !#[trigger] expected(mid, file_id, Some(cur));
    assert(swap_lost(st1, st1, mid, fin, file_id));
    lemma_lost_again(st0, st1, st1, mid, fin, file_id, n);
}

/// A tree stays the tree of its text in a store that grows.
pub(crate) proof fn lemma_tree_kept(a: Store, b: Store, p: ChunkParams, root: Seq<u8>)
    requires
        grows(a, b),
        sound(a),
        a.nodes.contains_key(root),
    ensures
        canonical(a, p, root, doc(a, root)) ==> canonical(b, p, root, doc(b, root)),
{
    law_documents_are_kept(a, b, root);
    if canonical(a, p, root, doc(a, root)) {
        reveal(tree_held);
        let es = leaf_entries(p, doc(a, root));
        let k = choose|k: nat| #[trigger] is_top(es, k) && held(a, es, k) && a.nodes[root] == lift(es, k) && root
            == hash_entries(lift(es, k));
        lemma_held_grows(a, b, es, k);
    }
}

/// What was stored before the root moved is there after it.
proof fn lemma_committed(
    st0: Store,
    st1: Store,
    st2: Store,
    fin: Store,
    base: Seq<u8>,
    cur: Seq<u8>,
    es: Seq<Edit>,
    root: Seq<u8>,
    kind: CommitKind,
)
    requires
        grows(st0, st1),
        grows(st1, st2),
        grows(st2, fin),
        sound(st2),
        kind == CommitKind::Direct && direct_result(st2, base, es, root) || rebase_result(
            st1,
            st2,
            base,
            cur,
            es,
            root,
            kind,
        ),
    ensures
        grows(st1, fin),
        fin.nodes.contains_key(root),
        direct_result(st2, base, es, root) ==> direct_result(fin, base, es, root),
        rebase_result(st1, st2, base, cur, es, root, kind) ==> rebase_result(st1, fin, base, cur, es, root, kind),
{
    law_documents_are_kept(st2, fin, root);
    if direct_result(st2, base, es, root) {
        law_documents_are_kept(st2, fin, base);
    }
}

/// What an append that succeeded gave: the document that the swap replaced, and the tail behind
/// it. Where that is the document itself, it is one that was current.
pub open spec fn append_result(before: Store, fin: Store, file_id: u64, tail: Seq<u8>, c: Committed) -> bool {
    &&& fin.nodes.contains_key(c.root@)
    &&& c.kind != CommitKind::Merged
    &&& c.kind == CommitKind::Direct ==> c.retries == 0
    &&& c.kind == CommitKind::Rebased ==> c.retries > 0
    &&& if c.kind == CommitKind::NoOp {
        &&& c.new_chunks@.len() == 0
        &&& doc(fin, c.root@) == doc(fin, c.root@) + tail
        &&& exists|st: Store| #[trigger] was_at(before, st, fin, file_id, c.root@, c.version as int)
    } else {
        exists|st: Store, mid: Store, cur: Seq<u8>|
            #[trigger] replaced(before, st, mid, fin, file_id, cur, c.version - 1, c.root@) && fin.nodes.contains_key(cur)
                && doc(fin, c.root@) == doc(fin, cur) + tail
    }
}

/// What an append does when nobody else writes to the storage.
pub open spec fn append_local(
    st: Store,
    fin: Store,
    file_id: u64,
    path: Seq<char>,
    tail: Seq<u8>,
    r: Result<Committed>,
) -> bool {
    let cur = st.roots[file_id].0;
    &&& !st.roots.contains_key(file_id) ==> not_found(r, path)
    &&& st.roots.contains_key(file_id) && !st.nodes.contains_key(cur) ==> missing_node(r, cur)
    &&& r is Err ==> fin.roots == st.roots
    &&& r matches Ok(c) ==> {
        &&& moved_on(st, fin, file_id, c)
        &&& doc(fin, c.root@) == doc(st, cur) + tail
        &&& c.kind != CommitKind::NoOp ==> new_chunks_listed(st, fin, hashes_of(c.new_chunks@))
    }
}

/// The edit that appends `tail` to a text of `len` bytes.
pub open spec fn append_edit(len: int, tail: Seq<u8>, es: Seq<Edit>) -> bool {
    es.len() == 1 && es[0].from == len && es[0].to == len && es[0].replacement@ == tail
}

/// The longer document cannot be stored.
pub open spec fn append_clash(fin: Store, p: ChunkParams, text: Seq<u8>, tail: Seq<u8>) -> bool {
    exists|es: Seq<Edit>| append_edit(text.len() as int, tail, es) && #[trigger] edits_clash(fin, p, text, es)
}

proof fn lemma_append(text: Seq<u8>, tail: Seq<u8>, es: Seq<Edit>)
    requires
        append_edit(text.len() as int, tail, es),
    ensures
        edits_valid(es, text.len() as int),
        edited(text, es) == text + tail,
        bytes_added(es) == tail.len(),
{
    reveal_with_fuel(edited, 2);
    reveal_with_fuel(bytes_added, 2);
    assert(es.last() == es[0]);
    assert(es.drop_last() =~= Seq::empty());
    assert(es[0].applied(text) =~= text + tail);
}

/// Append `tail` at the current end of the file. Never conflicts: the edit is defined
/// relative to the end, so a moved base only changes where it lands.
pub fn commit_append<S: Storage + ?Sized>(
    storage: &mut S,
    params: &ChunkParams,
    file_id: u64,
    path: &str,
    tail: &[u8],
    retries: usize,
) -> (r: Result<Committed>)
    requires
        params.valid(),
        params.min < params.max + params.snap,
        sound(old(storage).store()),
    ensures
        final(storage).local() == old(storage).local(),
        grows(old(storage).store(), final(storage).store()),
        sound(final(storage).store()),
        r matches Ok(c) ==> c.retries <= retries && append_result(
            old(storage).store(),
            final(storage).store(),
            file_id,
            tail@,
            c,
        ),
        old(storage).local() ==> append_local(
            old(storage).store(),
            final(storage).store(),
            file_id,
            path@,
            tail@,
            r,
        ),
        r matches Ok(c) ==> old(storage).local() && params.min < params.max && canonical(
            old(storage).store(),
            *params,
            old(storage).store().roots[file_id].0,
            doc(old(storage).store(), old(storage).store().roots[file_id].0),
        ) ==> canonical(final(storage).store(), *params, c.root@, doc(final(storage).store(), c.root@)),
        r matches Err(TextdbError::Contention) ==> swaps_lost(
            old(storage).store(),
            final(storage).store(),
            file_id,
            retries as nat + 1,
        ),
        !(r matches Err(TextdbError::Conflict(_))),
        ({
            let st = old(storage).store();
            let text = doc(st, st.roots[file_id].0);
            r is Err && old(storage).local() && st.roots.contains_key(file_id) && st.nodes.contains_key(st.roots[file_id].0)
                && st.roots[file_id].1 < u64::MAX && text.len() + tail@.len() <= usize::MAX && params.min < params.max
                && canonical(st, *params, st.roots[file_id].0, text) ==> append_clash(
                final(storage).store(),
                *params,
                text,
                tail@,
            )
        }),
{
    let ghost st0 = storage.store();
    let mut attempt: usize = 0;
    loop
        invariant
            params.valid(),
            params.min < params.max + params.snap,
            st0 == old(storage).store(),
            storage.local() == old(storage).local(),
            grows(st0, storage.store()),
            sound(storage.store()),
            attempt <= retries,
            swaps_lost(st0, storage.store(), file_id, attempt as nat),
            storage.local() ==> attempt == 0 && storage.store() == st0,
        decreases retries - attempt,
    {
        let ghost st1 = storage.store();
        let (rcur, v): (crate::hash::Hash, u64) = match storage.get_root(file_id) {
            Ok(Some(p)) => p,
            Ok(None) => {
                return Err(TextdbError::NotFound(String::from_str(path)));
            },
            Err(e) => {
                return Err(e);
            },
        };
        let len: u64 = match totals(storage, &rcur) {
            Ok(t) => t.0,
            Err(e) => {
                return Err(e);
            },
        };
        let mut es: Vec<Edit> = Vec::new();
        es.push(Edit::new(len, len, vstd::slice::slice_to_vec(tail)));
        proof {
            lemma_append(doc(st1, rcur@), tail@, es@);
        }
        let (root, chunks): (crate::hash::Hash, Vec<crate::hash::Hash>) = match propose(
            storage,
            params,
            &rcur,
            es.as_slice(),
        ) {
            Ok(p) => p,
            Err(e) => {
                return Err(e);
            },
        };
        let ghost st2 = storage.store();
        proof {
            law_documents_are_kept(st1, st2, rcur@);
        }
        if same_hash(&root, &rcur) {
            let c = Committed { version: v, root: rcur, kind: CommitKind::NoOp, new_chunks: Vec::new(), retries: attempt };
            assert(was_at(st0, st1, st2, file_id, c.root@, c.version as int));
            assert(doc(st2, c.root@) == doc(st2, c.root@) + tail@);
            return Ok(c);
        }
        if v == u64::MAX {
            return Err(TextdbError::Storage(String::from_str("version counter exhausted")));
        }
        let won: bool = match storage.cas_root(file_id, Some(&rcur), &root) {
            Ok(b) => b,
            Err(e) => {
                return Err(e);
            },
        };
        let ghost fin = storage.store();
        match after_swap(won, retries - attempt) {
            AfterSwap::Done => {
                let kind = if attempt == 0 {
                    CommitKind::Direct
                } else {
                    CommitKind::Rebased
                };
                let c = Committed { version: v + 1, root, kind, new_chunks: chunks, retries: attempt };
                proof {
                    law_documents_are_kept(st2, fin, rcur@);
                    law_documents_are_kept(st2, fin, root@);
                    let mid = choose|mid: Store|
                        grows(st2, mid) && expected(mid, file_id, Some(&rcur)) && #[trigger] swapped(mid, fin, file_id, root@);
                    assert(replaced(st0, st1, mid, fin, file_id, rcur@, c.version - 1, c.root@));
                    if storage.local() {
                        lemma_tree_kept(st2, fin, *params, root@);
                    }
                }
                return Ok(c);
            },
            AfterSwap::GiveUp => {
                proof {
                    lemma_lost_one(st0, st1, st2, fin, file_id, &rcur, attempt as nat);
                }
                return Err(TextdbError::Contention);
            },
            AfterSwap::Again => {
                proof {
                    lemma_lost_one(st0, st1, st2, fin, file_id, &rcur, attempt as nat);
                }
                attempt += 1;
            },
        }
    }
}

} // verus!

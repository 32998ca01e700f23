//! Prolly tree over chunk hashes.
//!
//! Level 0 is the sequence of chunk entries. Each higher level groups the entries of
//! the level below into nodes; a node ends after an entry when that entry's hash
//! satisfies the boundary predicate (probability 1/32, mean fanout 32) or when the
//! node reaches `MAX_FANOUT`. The split therefore depends only on the entry sequence,
//! so identical content yields identical roots.

use vstd::prelude::*;
use vstd::string::*;
use crate::chunker::{
    chunk_all, chunks_of, count_newlines, joined, law_chunks_cover, lemma_joined_push, lemma_newlines_bound, lemma_newlines_concat,
    newlines,     spans_cover, ChunkParams,
};
use crate::error::TextdbError;
use crate::hash::{blake3_digest, hash_chunk};
use crate::levels::{
    boundary, closes, ends_within, flat, grouped, groups, held, is_top, is_tree_node, lemma_flat_concat,
    lemma_flat_sums, lemma_groups, lemma_lift_narrows, lemma_nodes_held_grows, lemma_top_unique, lemma_up_level,
    lift, node_clash, nodes_held, root_hash, up, up_of,
};
use crate::model::{
    doc, entry_text, expand, grows, height, leaf_level, leaf_ok, leaf_text, lemma_entry_sums, lemma_height_is,
    lemma_leaf_sums, lemma_level_at, lemma_level_sums, lemma_level_text_concat, lemma_level_concat, lemma_level_grows, level_ok, level_text, sound,
    tree_ok, tree_text, Store,
};
use crate::node::{
    as_entry, entries_of, hash_entries, lemma_sums_concat, lemma_sums_take, sum_bytes, sum_lines, Child, Entry, Node,
};
use crate::storage::{keep_chunk, keep_node, missing_node, plain_failure, Result, Storage};

pub use crate::cursor::{locate_byte, Cursor, Frame};
pub use crate::rebuild::replace_entries;

verus! {

/// Mean fanout is 32 (boundary probability 1/32).
pub const BOUNDARY_MASK: u32 = 31;

/// Hard cap on node width; keeps pathological runs bounded while staying deterministic.
pub const MAX_FANOUT: usize = 512;

/// Levels a tree may have: as many as can be counted.
pub const MAX_LEVELS: usize = usize::MAX;

/// Does the node end after an entry with this hash?
pub fn is_node_boundary(h: &crate::hash::Hash) -> (r: bool)
    ensures
        r == boundary(h@),
{
    // Little-endian bytes 4..8, so the decision is independent of the chunker's use of
    // the hash; the mask keeps the lowest bits only.
    let low: u8 = h[4];
    assert((low as u32) & 31 == 0 <==> low % 32 == 0) by (bit_vector);
    (low as u32) & BOUNDARY_MASK == 0
}

/// The children of a sequence of nodes.
pub open spec fn views(nodes: Seq<Node>) -> Seq<Seq<Entry>> {
    Seq::new(nodes.len(), |i: int| nodes[i]@)
}

/// One step of the grouping: add an entry to the open run and close the run if it is full.
pub(crate) fn push_entry(nodes: &mut Vec<Node>, cur: &mut Vec<Child>, e: Child)
    ensures
        ({
            let run = entries_of(old(cur)@).push(e@);
            if closes(run) {
                &&& views(final(nodes)@) == views(old(nodes)@).push(run)
                &&& entries_of(final(cur)@) == Seq::<Entry>::empty()
            } else {
                &&& views(final(nodes)@) == views(old(nodes)@)
                &&& entries_of(final(cur)@) == run
            }
        }),
{
    let ghost c0 = cur@;
    let ghost n0 = nodes@;
    cur.push(e);
    assert(entries_of(cur@) =~= entries_of(c0).push(e@));
    if is_node_boundary(&e.hash) || cur.len() >= MAX_FANOUT {
        let mut full: Vec<Child> = Vec::new();
        std::mem::swap(cur, &mut full);
        nodes.push(Node::new(full));
        assert(views(nodes@) =~= views(n0).push(entries_of(c0).push(e@)));
        assert(entries_of(cur@) =~= Seq::<Entry>::empty());
    }
}

/// Group a sequence of entries into nodes deterministically.
pub fn split_level(entries: &[Child]) -> (nodes: Vec<Node>)
    ensures
        views(nodes@) == groups(entries_of(entries@)),
{
    let mut nodes: Vec<Node> = Vec::new();
    let mut cur: Vec<Child> = Vec::new();
    let mut i: usize = 0;
    let ghost es = entries_of(entries@);
    assert(views(nodes@) =~= Seq::empty());
    assert(entries_of(cur@) =~= Seq::empty());
    while i < entries.len()
        invariant
            i <= entries@.len(),
            es == entries_of(entries@),
            views(nodes@) == grouped(es.take(i as int)).0,
            entries_of(cur@) == grouped(es.take(i as int)).1,
        decreases entries@.len() - i,
    {
        push_entry(&mut nodes, &mut cur, entries[i]);
        i += 1;
        assert(es.take(i as int).drop_last() =~= es.take(i - 1));
    }
    assert(es.take(i as int) =~= es);
    assert(entries_of(cur@).len() == cur@.len());
    if cur.len() > 0 {
        let ghost n0 = nodes@;
        let ghost open = entries_of(cur@);
        nodes.push(Node::new(cur));
        assert(views(nodes@) =~= views(n0).push(open));
    }
    nodes
}

proof fn lemma_group_level(st: Store, gs: Seq<Seq<Entry>>, d: nat, i: int)
    requires
        d >= 1,
        level_ok(st, flat(gs), d),
        0 <= i < gs.len(),
    ensures
        level_ok(st, gs[i], d),
{
    let a = gs.take(i);
    let b = gs.skip(i + 1);
    assert(gs =~= a.push(gs[i]) + b);
    lemma_flat_concat(a.push(gs[i]), b);
    assert(a.push(gs[i]).drop_last() =~= a);
    lemma_level_concat(st, flat(a) + gs[i], flat(b), d);
    lemma_level_concat(st, flat(a), gs[i], d);
}

proof fn lemma_group_tree(st: Store, gs: Seq<Seq<Entry>>, d: nat, i: int)
    requires
        d >= 1,
        level_ok(st, flat(gs), d),
        sum_bytes(flat(gs)) <= usize::MAX,
        sum_lines(flat(gs)) <= usize::MAX,
        0 <= i < gs.len(),
        gs[i].len() > 0,
    ensures
        tree_ok(st, gs[i]),
{
    lemma_group_level(st, gs, d, i);
    lemma_height_is(st, gs[i], d);
    lemma_flat_sums(gs, i);
}

/// Nothing but nodes was written.
pub open spec fn only_nodes(a: Store, b: Store) -> bool {
    b.chunks == a.chunks && b.roots == a.roots
}

/// Some node in `gs` differs from what the store has under its hash.
pub open spec fn some_clash(st: Store, gs: Seq<Seq<Entry>>) -> bool {
    exists|i: int|
        0 <= i < gs.len() && st.nodes.contains_key(hash_entries(#[trigger] gs[i]))
            && st.nodes[hash_entries(gs[i])] != gs[i]
}

/// Store a sequence of nodes and return their entries.
pub(crate) fn put_nodes<S: Storage + ?Sized>(storage: &mut S, nodes: &Vec<Node>, Ghost(d): Ghost<nat>) -> (r: Result<
    Vec<Child>,
>)
    requires
        sound(old(storage).store()),
        nodes@.len() > 0 ==> level_ok(old(storage).store(), flat(views(nodes@)), d),
        sum_bytes(flat(views(nodes@))) <= usize::MAX,
        sum_lines(flat(views(nodes@))) <= usize::MAX,
        forall|i: int| 0 <= i < nodes@.len() ==> (#[trigger] views(nodes@)[i]).len() > 0,
    ensures
        plain_failure(r),
        final(storage).local() == old(storage).local(),
        grows(old(storage).store(), final(storage).store()),
        sound(final(storage).store()),
        r matches Ok(up) ==> entries_of(up@) == up_of(views(nodes@)) && nodes_held(
            final(storage).store(),
            views(nodes@),
        ),
        old(storage).local() ==> only_nodes(old(storage).store(), final(storage).store()),
        old(storage).local() && r is Err ==> some_clash(final(storage).store(), views(nodes@)),
{
    let ghost gs = views(nodes@);
    let ghost st0 = storage.store();
    let mut next: Vec<Child> = Vec::new();
    let mut i: usize = 0;
    assert(entries_of(next@) =~= up_of(gs.take(0)));
    while i < nodes.len()
        invariant
            i <= nodes@.len(),
            gs == views(nodes@),
            storage.local() == old(storage).local(),
            sound(storage.store()),
            grows(st0, storage.store()),
            st0 == old(storage).store(),
            old(storage).local() ==> only_nodes(st0, storage.store()),
            entries_of(next@) == up_of(gs.take(i as int)),
            nodes_held(storage.store(), gs.take(i as int)),
            nodes@.len() > 0 ==> level_ok(st0, flat(gs), d),
            sum_bytes(flat(gs)) <= usize::MAX,
            sum_lines(flat(gs)) <= usize::MAX,
            forall|k: int| 0 <= k < nodes@.len() ==> (#[trigger] gs[k]).len() > 0,
        decreases nodes@.len() - i,
    {
        let n = &nodes[i];
        let ghost st = storage.store();
        proof {
            assert(gs[i as int] == n@);
            lemma_level_grows(st0, st, flat(gs), d);
            lemma_group_tree(st, gs, d, i as int);
            lemma_flat_sums(gs, i as int);
        }
        let h = n.hash();
        match keep_node(storage, &h, n) {
            Ok(_) => {},
            Err(e) => {
                assert(hash_entries(gs[i as int]) == h@);
                return Err(e);
            },
        }
        let c = Child { hash: h, nbytes: n.nbytes(), nlines: n.nlines(), is_leaf: false };
        let ghost before = next@;
        next.push(c);
        i += 1;
        proof {
            assert(c@ == as_entry(n@));
            assert(entries_of(next@) =~= entries_of(before).push(c@));
            assert(up_of(gs.take(i as int)) =~= up_of(gs.take(i - 1)).push(as_entry(gs[i - 1])));
            assert forall|k: int| 0 <= k < i implies storage.store().nodes.contains_key(
                hash_entries(#[trigger] gs.take(i as int)[k]),
            ) && storage.store().nodes[hash_entries(gs.take(i as int)[k])] == gs.take(i as int)[k] by {
                if k < i - 1 {
                    assert(gs.take(i - 1)[k] == gs.take(i as int)[k]);
                    assert(st.nodes.contains_key(hash_entries(gs.take(i - 1)[k])));
                }
            }
        }
    }
    assert(gs.take(i as int) =~= gs);
    Ok(next)
}

/// What `build_up` makes of the leaf (or other level) entries `es` in `a`, ending in `b`.
pub open spec fn built_up(a: Store, b: Store, es: Seq<Entry>, root: Seq<u8>) -> bool {
    &&& b.nodes.contains_key(root)
    &&& doc(b, root) == tree_text(a, es)
    &&& ends_within(es, MAX_LEVELS as nat)
    &&& root == root_hash(es)
    &&& tree_held(b, es, root)
}

/// The tree over `es` is stored, and `root` is its root.
#[verifier::opaque]
pub open spec fn tree_held(st: Store, es: Seq<Entry>, root: Seq<u8>) -> bool {
    &&& st.nodes.contains_key(root)
    &&& exists|k: nat| #[trigger] is_top(es, k) && held(st, es, k) && st.nodes[root] == lift(es, k) && root == hash_entries(lift(es, k))
}

pub proof fn lemma_single_group(es: Seq<Entry>)
    requires
        groups(es).len() == 1,
    ensures
        groups(es)[0] == es,
{
    lemma_groups(es);
    reveal_with_fuel(flat, 2);
    assert(groups(es).drop_last() =~= Seq::empty());
    assert(flat(groups(es)) =~= groups(es)[0]);
}

/// Build levels above `entries` until a single node remains; store every node.
/// Returns the root hash. An empty entry list produces an empty root node.
pub fn build_up<S: Storage + ?Sized>(storage: &mut S, entries: Vec<Child>) -> (r: Result<crate::hash::Hash>)
    requires
        sound(old(storage).store()),
        tree_ok(old(storage).store(), entries_of(entries@)),
    ensures
        plain_failure(r),
        final(storage).local() == old(storage).local(),
        grows(old(storage).store(), final(storage).store()),
        sound(final(storage).store()),
        r matches Ok(h) ==> built_up(
            old(storage).store(),
            final(storage).store(),
            entries_of(entries@),
            h@,
        ),
        old(storage).local() ==> only_nodes(old(storage).store(), final(storage).store()),
        old(storage).local() && r is Err ==> node_clash(final(storage).store(), entries_of(entries@))
            || !ends_within(entries_of(entries@), MAX_LEVELS as nat),
{
    let ghost es = entries_of(entries@);
    let ghost st0 = storage.store();
    proof {
        reveal(tree_held);
        reveal(node_clash);
        reveal(ends_within);
    }
    if entries.len() == 0 {
        let root = Node::default();
        let h = root.hash();
        assert(es =~= Seq::empty());
        match keep_node(storage, &h, &root) {
            Ok(_) => {},
            Err(e) => {
                assert(is_tree_node(es, es));
                return Err(e);
            },
        }
        proof {
            lemma_groups(es);
            assert(lift(es, 0) == es);
            assert(is_top(es, 0));
            lemma_top_unique(es, 0, 0);
            assert(held(storage.store(), es, 0)) by {
                assert forall|j: nat| j <= 0 implies nodes_held(storage.store(), #[trigger] groups(lift(es, j))) by {
                    assert(j == 0);
                }
            }
        }
        return Ok(h);
    }
    let ghost d = height(st0, es);
    let mut row = entries;
    let mut level: usize = 0;
    assert(lift(es, 0) == es);
    loop
        invariant
            level < MAX_LEVELS,
            storage.local() == old(storage).local(),
            sound(storage.store()),
            grows(st0, storage.store()),
            st0 == old(storage).store(),
            old(storage).local() ==> only_nodes(st0, storage.store()),
            es == entries_of(entries@),
            entries_of(row@) == lift(es, level as nat),
            es.len() > 0,
            level_ok(st0, es, d),
            d == height(st0, es),
            level_ok(storage.store(), lift(es, level as nat), d + level as nat),
            level_text(storage.store(), lift(es, level as nat), d + level as nat) == level_text(st0, es, d),
            sum_bytes(lift(es, level as nat)) == sum_bytes(es) <= usize::MAX,
            sum_lines(lift(es, level as nat)) == sum_lines(es) <= usize::MAX,
            forall|j: nat| j < level ==> (#[trigger] groups(lift(es, j))).len() > 1,
            forall|j: nat| j < level ==> nodes_held(storage.store(), #[trigger] groups(lift(es, j))),
        decreases MAX_LEVELS - level,
    {
        proof {
            reveal(tree_held);
            reveal(node_clash);
            reveal(ends_within);
        }
        let ghost cur = lift(es, level as nat);
        let ghost gs = groups(cur);
        let ghost dl = (d + level) as nat;
        let ghost st1 = storage.store();
        let nodes = split_level(row.as_slice());
        proof {
            lemma_groups(cur);
            lemma_lift_narrows(es, 0, level as nat);
        }
        let next: Vec<Child> = match put_nodes(storage, &nodes, Ghost(dl)) {
            Ok(v) => v,
            Err(e) => {
                proof {
                    if storage.local() {
                        let i = choose|i: int|
                            0 <= i < gs.len() && storage.store().nodes.contains_key(hash_entries(#[trigger] gs[i]))
                                && storage.store().nodes[hash_entries(gs[i])] != gs[i];
                        assert(groups(lift(es, level as nat)).contains(gs[i]));
                        assert(is_tree_node(es, gs[i]));
                    }
                }
                return Err(e);
            },
        };
        let ghost st2 = storage.store();
        proof {
            lemma_level_grows(st1, st2, cur, dl);
            lemma_up_level(st2, cur, gs, dl);
            assert(entries_of(next@) == up(cur));
            assert(entries_of(next@).len() == gs.len());
            assert(lift(es, (level + 1) as nat) == up(cur));
            assert forall|j: nat| j <= level implies nodes_held(st2, #[trigger] groups(lift(es, j))) by {
                if j < level {
                    lemma_nodes_held_grows(st1, st2, groups(lift(es, j)));
                }
            }
        }
        if nodes.len() == 1 {
            proof {
                lemma_single_group(cur);
                assert(is_top(es, level as nat));
                lemma_top_unique(es, level as nat, level as nat);
                assert(entries_of(next@)[0] == as_entry(cur));
                assert(nodes_held(st2, gs));
                assert(st2.nodes[hash_entries(gs[0])] == gs[0]);
                lemma_height_is(st2, cur, dl);
                assert(next@[0]@ == entries_of(next@)[0]);
                assert(held(st2, es, level as nat));
            }
            return Ok(next[0].hash);
        }
        if level + 1 >= MAX_LEVELS {
            proof {
                if ends_within(es, MAX_LEVELS as nat) {
                    let k = choose|k: nat| k < MAX_LEVELS && #[trigger] is_top(es, k);
                    assert(groups(lift(es, k)).len() <= 1);
                    assert(groups(lift(es, level as nat)).len() > 1);
                    assert(k < level || k == level);
                }
            }
            return Err(TextdbError::Other(String::from_str("tree too deep")));
        }
        row = next;
        level += 1;
        proof {
            assert(level_text(st2, lift(es, level as nat), d + level as nat) == level_text(st2, cur, dl)) by {
                assert(expand(st2, up(cur)) == cur);
            }
        }
    }
}

/// The entry of a chunk.
pub open spec fn leaf_entry(chunk: Seq<u8>) -> Entry {
    Entry {
        hash: blake3_digest(chunk),
        nbytes: chunk.len() as u64,
        nlines: newlines(chunk) as u64,
        is_leaf: true,
    }
}

/// The entries of some chunks.
pub open spec fn chunk_entries(chunks: Seq<Seq<u8>>) -> Seq<Entry> {
    Seq::new(chunks.len(), |i: int| leaf_entry(chunks[i]))
}

/// The leaf entries of a document.
pub open spec fn leaf_entries(p: ChunkParams, text: Seq<u8>) -> Seq<Entry> {
    chunk_entries(chunks_of(p, text))
}

/// The root of the tree that `text` alone determines.
pub open spec fn text_root(p: ChunkParams, text: Seq<u8>) -> Seq<u8> {
    root_hash(leaf_entries(p, text))
}

/// The tree that `text` alone determines is stored, under `root`.
pub open spec fn canonical(st: Store, p: ChunkParams, root: Seq<u8>, text: Seq<u8>) -> bool {
    &&& tree_held(st, leaf_entries(p, text), root)
    &&& root == text_root(p, text)
}

/// Every chunk in `cs` is stored under its hash.
pub open spec fn chunks_held(st: Store, cs: Seq<Seq<u8>>) -> bool {
    forall|i: int|
        0 <= i < cs.len() ==> st.chunks.contains_key(blake3_digest(#[trigger] cs[i])) && st.chunks[blake3_digest(cs[i])]
            == cs[i]
}

/// The store has other bytes under the hash of one of these chunks.
#[verifier::opaque]
pub open spec fn chunk_clash(st: Store, cs: Seq<Seq<u8>>) -> bool {
    exists|i: int|
        0 <= i < cs.len() && st.chunks.contains_key(blake3_digest(#[trigger] cs[i])) && st.chunks[blake3_digest(cs[i])]
            != cs[i]
}

/// Some chunk or node of the tree over `text` has the hash of another one in the store.
pub open spec fn text_clash(st: Store, p: ChunkParams, text: Seq<u8>) -> bool {
    chunk_clash(st, chunks_of(p, text)) || node_clash(st, leaf_entries(p, text))
}

/// Entries of stored chunks are a level, and spell the chunks.
pub proof fn lemma_chunk_entries(st: Store, cs: Seq<Seq<u8>>)
    requires
        chunks_held(st, cs),
        forall|i: int| 0 <= i < cs.len() ==> 0 < (#[trigger] cs[i]).len() <= usize::MAX,
    ensures
        level_ok(st, chunk_entries(cs), 1),
        leaf_text(st, chunk_entries(cs)) == joined(cs),
        level_text(st, chunk_entries(cs), 1) == joined(cs),
    decreases cs.len(),
{
    let es = chunk_entries(cs);
    if cs.len() == 0 {
        assert(es =~= Seq::empty());
    } else {
        let front = cs.drop_last();
        assert forall|i: int| 0 <= i < front.len() implies st.chunks.contains_key(blake3_digest(#[trigger] front[i]))
            && st.chunks[blake3_digest(front[i])] == front[i] && 0 < front[i].len() <= usize::MAX by {
            assert(front[i] == cs[i]);
        }
        lemma_chunk_entries(st, front);
        assert(es.drop_last() =~= chunk_entries(front));
        assert(es.last() == leaf_entry(cs[cs.len() - 1]));
        assert(front.push(cs[cs.len() - 1]) =~= cs);
        lemma_joined_push(front, cs[cs.len() - 1]);
        assert forall|i: int| 0 <= i < es.len() implies leaf_ok(st, #[trigger] es[i]) by {
            assert(es[i] == leaf_entry(cs[i]));
            lemma_newlines_bound(cs[i]);
        }
        assert(st.chunks[blake3_digest(cs[cs.len() - 1])] == cs[cs.len() - 1]);
    }
}

/// Store one chunk and return its entry.
pub(crate) fn put_chunk_entry<S: Storage + ?Sized>(storage: &mut S, chunk: &[u8]) -> (r: Result<Child>)
    requires
        sound(old(storage).store()),
    ensures
        plain_failure(r),
        final(storage).local() == old(storage).local(),
        grows(old(storage).store(), final(storage).store()),
        sound(final(storage).store()),
        r matches Ok(c) ==> c@ == leaf_entry(chunk@) && c.hash@ == blake3_digest(chunk@)
            && final(storage).store().chunks.contains_key(c.hash@) && final(storage).store().chunks[c.hash@]
            == chunk@,
        old(storage).local() ==> final(storage).store().nodes == old(storage).store().nodes
            && final(storage).store().roots == old(storage).store().roots,
        old(storage).local() && r is Ok ==> final(storage).store().chunks == old(storage).store().chunks.insert(
            blake3_digest(chunk@),
            chunk@,
        ),
        old(storage).local() && r is Err ==> final(storage).store().chunks.contains_key(
            blake3_digest(chunk@),
        ) && final(storage).store().chunks[blake3_digest(chunk@)] != chunk@,
{
    let h = hash_chunk(chunk);
    match keep_chunk(storage, &h, chunk) {
        Ok(_) => {},
        Err(e) => {
            return Err(e);
        },
    }
    Ok(Child { hash: h, nbytes: chunk.len() as u64, nlines: count_newlines(chunk), is_leaf: true })
}

/// The hashes of some chunks.
pub open spec fn digests(chunks: Seq<Seq<u8>>) -> Seq<Seq<u8>> {
    Seq::new(chunks.len(), |i: int| blake3_digest(chunks[i]))
}

/// A sequence of hashes as byte sequences.
pub open spec fn hashes_of(hs: Seq<crate::hash::Hash>) -> Seq<Seq<u8>> {
    Seq::new(hs.len(), |i: int| hs[i]@)
}

/// Every chunk that `b` has and `a` has not is among the hashes `hs`.
pub open spec fn new_chunks_listed(a: Store, b: Store, hs: Seq<Seq<u8>>) -> bool {
    forall|h: Seq<u8>| #[trigger] b.chunks.contains_key(h) ==> a.chunks.contains_key(h) || hs.contains(h)
}

pub(crate) proof fn lemma_listed_push(a: Store, b: Store, c: Store, hs: Seq<Seq<u8>>, h: Seq<u8>, bytes: Seq<u8>)
    requires
        new_chunks_listed(a, b, hs),
        c.chunks == b.chunks.insert(h, bytes),
    ensures
        new_chunks_listed(a, c, hs.push(h)),
{
    let more = hs.push(h);
    assert forall|k: Seq<u8>| #[trigger] c.chunks.contains_key(k) implies a.chunks.contains_key(k) || more.contains(k) by {
        if k == h {
            assert(more[hs.len() as int] == k);
        } else {
            assert(b.chunks.contains_key(k));
            if hs.contains(k) {
                let i = choose|i: int| 0 <= i < hs.len() && hs[i] == k;
                assert(more[i] == k);
            }
        }
    }
}

/// Build and also return the set of chunk hashes produced (for FTS insertion).
pub fn build_with_chunks<S: Storage + ?Sized>(storage: &mut S, params: &ChunkParams, bytes: &[u8]) -> (r: Result<
    (crate::hash::Hash, Vec<crate::hash::Hash>),
>)
    requires
        params.valid(),
        sound(old(storage).store()),
    ensures
        plain_failure(r),
        final(storage).local() == old(storage).local(),
        grows(old(storage).store(), final(storage).store()),
        sound(final(storage).store()),
        r matches Ok(x) ==> {
            &&& final(storage).store().nodes.contains_key(x.0@)
            &&& doc(final(storage).store(), x.0@) == bytes@
            &&& canonical(final(storage).store(), *params, x.0@, bytes@)
            &&& hashes_of(x.1@) == digests(chunks_of(*params, bytes@))
            &&& old(storage).local() ==> new_chunks_listed(
                old(storage).store(),
                final(storage).store(),
                hashes_of(x.1@),
            )
        },
        old(storage).local() ==> final(storage).store().roots == old(storage).store().roots,
        old(storage).local() && r is Err ==> text_clash(final(storage).store(), *params, bytes@) || !ends_within(
            leaf_entries(*params, bytes@),
            MAX_LEVELS as nat,
        ),
{
    let ghost cs = chunks_of(*params, bytes@);
    let ghost st0 = storage.store();
    let mut entries: Vec<Child> = Vec::new();
    let mut hashes: Vec<crate::hash::Hash> = Vec::new();
    let spans = chunk_all(params, bytes);
    let mut i: usize = 0;
    assert(entries_of(entries@) =~= chunk_entries(cs.take(0)));
    assert(hashes_of(hashes@) =~= digests(cs.take(0)));
    proof {
        law_chunks_cover(*params, bytes@);
    }
    while i < spans.len()
        invariant
            i <= spans@.len() == cs.len(),
            cs == chunks_of(*params, bytes@),
            spans_cover(spans@, bytes@.len() as int),
            forall|k: int|
                0 <= k < spans@.len() ==> bytes@.subrange(
                    (#[trigger] spans@[k]).0 as int,
                    spans@[k].0 + spans@[k].1,
                ) == cs[k],
            storage.local() == old(storage).local(),
            st0 == old(storage).store(),
            grows(st0, storage.store()),
            sound(storage.store()),
            old(storage).local() ==> storage.store().roots == st0.roots,
            old(storage).local() ==> new_chunks_listed(st0, storage.store(), hashes_of(hashes@)),
            chunks_held(storage.store(), cs.take(i as int)),
            entries_of(entries@) == chunk_entries(cs.take(i as int)),
            hashes_of(hashes@) == digests(cs.take(i as int)),
        decreases spans@.len() - i,
    {
        let (s, l) = spans[i];
        assert(spans@[i as int].0 + spans@[i as int].1 <= bytes@.len());
        let total: usize = bytes.len();
        let chunk = vstd::slice::slice_subrange(bytes, s, s + l);
        assert(chunk@ == cs[i as int]);
        let ghost st = storage.store();
        let c: Child = match put_chunk_entry(storage, chunk) {
            Ok(c) => c,
            Err(e) => {
                proof {
                    reveal(chunk_clash);
                }
                return Err(e);
            },
        };
        let ghost e0 = entries@;
        let ghost h0 = hashes@;
        hashes.push(c.hash);
        entries.push(c);
        i += 1;
        proof {
            assert(entries_of(entries@) =~= entries_of(e0).push(c@));
            assert(hashes_of(hashes@) =~= hashes_of(h0).push(c.hash@));
            if storage.local() {
                lemma_listed_push(st0, st, storage.store(), hashes_of(h0), c.hash@, chunk@);
            }
            assert(cs.take(i as int) =~= cs.take(i - 1).push(cs[i - 1]));
            assert(chunk_entries(cs.take(i as int)) =~= chunk_entries(cs.take(i - 1)).push(leaf_entry(cs[i - 1])));
            assert(digests(cs.take(i as int)) =~= digests(cs.take(i - 1)).push(blake3_digest(cs[i - 1])));
            assert forall|k: int| 0 <= k < i implies storage.store().chunks.contains_key(
                blake3_digest(#[trigger] cs.take(i as int)[k]),
            ) && storage.store().chunks[blake3_digest(cs.take(i as int)[k])] == cs.take(i as int)[k] by {
                if k < i - 1 {
                    assert(cs.take(i - 1)[k] == cs.take(i as int)[k]);
                    assert(st.chunks.contains_key(blake3_digest(cs.take(i - 1)[k])));
                }
            }
        }
    }
    assert(cs.take(i as int) =~= cs);
    let ghost st1 = storage.store();
    let ghost es = leaf_entries(*params, bytes@);
    let total: usize = bytes.len();
    proof {
        assert forall|k: int| 0 <= k < cs.len() implies 0 < (#[trigger] cs[k]).len() <= usize::MAX by {
            assert(bytes@.subrange(spans@[k].0 as int, spans@[k].0 + spans@[k].1) == cs[k]);
        }
        lemma_chunk_entries(st1, cs);
        lemma_leaf_sums(st1, es);
        lemma_newlines_bound(bytes@);
        if es.len() > 0 {
            lemma_height_is(st1, es, 1);
        }
    }
    let h = match build_up(storage, entries) {
        Ok(h) => h,
        Err(e) => {
            return Err(e);
        },
    };
    Ok((h, hashes))
}

/// Chunk `bytes`, store the chunks and build the tree. Returns the root hash.
pub fn build<S: Storage + ?Sized>(storage: &mut S, params: &ChunkParams, bytes: &[u8]) -> (r: Result<
    crate::hash::Hash,
>)
    requires
        params.valid(),
        sound(old(storage).store()),
    ensures
        plain_failure(r),
        final(storage).local() == old(storage).local(),
        grows(old(storage).store(), final(storage).store()),
        sound(final(storage).store()),
        r matches Ok(h) ==> {
            &&& final(storage).store().nodes.contains_key(h@)
            &&& doc(final(storage).store(), h@) == bytes@
            &&& canonical(final(storage).store(), *params, h@, bytes@)
        },
        old(storage).local() ==> final(storage).store().roots == old(storage).store().roots,
        old(storage).local() && r is Err ==> text_clash(final(storage).store(), *params, bytes@) || !ends_within(
            leaf_entries(*params, bytes@),
            MAX_LEVELS as nat,
        ),
{
    match build_with_chunks(storage, params, bytes) {
        Ok((h, _)) => Ok(h),
        Err(e) => Err(e),
    }
}

/// A read of the document `root` succeeds only if the root is stored; on a local storage
/// it succeeds exactly then, and says which node is missing otherwise.
pub open spec fn reads<T>(local: bool, st: Store, root: Seq<u8>, r: Result<T>) -> bool {
    &&& r is Ok ==> st.nodes.contains_key(root)
    &&& local && st.nodes.contains_key(root) ==> r is Ok
    &&& local && !st.nodes.contains_key(root) ==> missing_node(r, root)
}

/// Totals of a stored root are those of its text.
pub proof fn lemma_doc_sums(st: Store, es: Seq<Entry>)
    requires
        tree_ok(st, es),
    ensures
        sum_bytes(es) == tree_text(st, es).len(),
        sum_lines(es) == newlines(tree_text(st, es)),
        tree_text(st, es).len() <= usize::MAX,
{
    if es.len() > 0 {
        lemma_level_sums(st, es, height(st, es));
    }
}

/// Total bytes and lines under a root.
pub fn totals<S: Storage + ?Sized>(storage: &S, root: &crate::hash::Hash) -> (r: Result<(u64, u64)>)
    requires
        sound(storage.store()),
    ensures
        plain_failure(r),
        reads(storage.local(), storage.store(), root@, r),
        r matches Ok(t) ==> t.0 == doc(storage.store(), root@).len() && t.1 == newlines(
            doc(storage.store(), root@),
        ),
{
    match storage.node(root) {
        Ok(n) => {
            proof {
                lemma_doc_sums(storage.store(), n@);
            }
            Ok((n.nbytes(), n.nlines()))
        },
        Err(e) => Err(e),
    }
}

/// In-order leaf traversal and concatenation.
pub fn materialize<S: Storage + ?Sized>(storage: &S, root: &crate::hash::Hash) -> (r: Result<Vec<u8>>)
    requires
        sound(storage.store()),
    ensures
        plain_failure(r),
        reads(storage.local(), storage.store(), root@, r),
        r matches Ok(b) ==> b@ == doc(storage.store(), root@),
{
    match storage.node(root) {
        Ok(n) => {
            let mut out: Vec<u8> = Vec::new();
            match materialize_into(storage, &n, &mut out) {
                Ok(_) => {
                    assert(out@ =~= doc(storage.store(), root@));
                    Ok(out)
                },
                Err(e) => Err(e),
            }
        },
        Err(e) => Err(e),
    }
}

/// The children of a stored node of a tree are a tree of their own, one level lower.
pub proof fn lemma_child_tree(st: Store, es: Seq<Entry>, i: int)
    requires
        tree_ok(st, es),
        0 <= i < es.len(),
        !es[i].is_leaf,
    ensures
        height(st, es) > 1,
        node_of(st, es[i]),
        tree_ok(st, st.nodes[es[i].hash]),
        st.nodes[es[i].hash].len() > 0,
        height(st, st.nodes[es[i].hash]) == height(st, es) - 1,
        tree_text(st, st.nodes[es[i].hash]) == entry_text(st, es[i], height(st, es)),
{
    let d = height(st, es);
    lemma_level_at(st, es, d, i);
    lemma_sums_take(es, i);
    lemma_sums_take(es, i + 1);
    let c = st.nodes[es[i].hash];
    lemma_height_is(st, c, (d - 1) as nat);
}

/// The node of an entry is stored.
pub open spec fn node_of(st: Store, e: Entry) -> bool {
    st.nodes.contains_key(e.hash)
}

/// The leaf entry of a tree has its chunk stored.
pub proof fn lemma_child_leaf(st: Store, es: Seq<Entry>, i: int)
    requires
        tree_ok(st, es),
        0 <= i < es.len(),
        es[i].is_leaf,
    ensures
        height(st, es) == 1,
        leaf_ok(st, es[i]),
        entry_text(st, es[i], 1) == st.chunks[es[i].hash],
{
    let d = height(st, es);
    lemma_level_at(st, es, d, i);
}

fn materialize_into<S: Storage + ?Sized>(storage: &S, node: &Node, out: &mut Vec<u8>) -> (r: Result<()>)
    requires
        sound(storage.store()),
        tree_ok(storage.store(), node@),
    ensures
        plain_failure(r),
        storage.local() ==> r is Ok,
        r is Ok ==> final(out)@ == old(out)@ + tree_text(storage.store(), node@),
    decreases height(storage.store(), node@),
{
    let ghost st = storage.store();
    let ghost es = node@;
    let ghost d = height(st, es);
    let ghost start = out@;
    let mut i: usize = 0;
    proof {
        if es.len() > 0 {
            lemma_level_at(st, es, d, 0);
            assert(level_text(st, es.take(0), d) =~= Seq::empty()) by {
                lemma_level_sums(st, es.take(0), d);
                assert(es.take(0) =~= Seq::empty());
            }
        }
    }
    while i < node.children.len()
        invariant
            i <= node.children@.len(),
            st == storage.store(),
            es == node@,
            d == height(st, es),
            sound(st),
            tree_ok(st, es),
            start == old(out)@,
            es.len() > 0 ==> out@ == start + level_text(st, es.take(i as int), d),
            es.len() == 0 ==> out@ == start,
        decreases node.children@.len() - i,
    {
        let c = node.children[i];
        assert(es[i as int] == c@);
        proof {
            lemma_level_at(st, es, d, i as int);
        }
        if c.is_leaf {
            proof {
                lemma_child_leaf(st, es, i as int);
            }
            match storage.chunk_shared(&c.hash) {
                Ok(bytes) => {
                    out.extend_from_slice(bytes.as_slice());
                },
                Err(e) => {
                    return Err(e);
                },
            }
        } else {
            proof {
                lemma_child_tree(st, es, i as int);
            }
            match storage.node(&c.hash) {
                Ok(child) => {
                    match materialize_into(storage, &child, out) {
                        Ok(_) => {},
                        Err(e) => {
                            return Err(e);
                        },
                    }
                },
                Err(e) => {
                    return Err(e);
                },
            }
        }
        i += 1;
        assert(out@ =~= start + level_text(st, es.take(i as int), d));
    }
    assert(es.take(i as int) =~= es);
    assert(es.len() == 0 ==> out@ =~= start + tree_text(st, es));
    Ok(())
}

pub open spec fn clamp(x: int, hi: int) -> int {
    if x < 0 {
        0
    } else if x > hi {
        hi
    } else {
        x
    }
}

/// The part of `s` at positions `[from, to)`, as far as there is one.
pub open spec fn clip(s: Seq<u8>, from: int, to: int) -> Seq<u8> {
    let lo = clamp(from, s.len() as int);
    let hi = clamp(to, s.len() as int);
    if lo < hi {
        s.subrange(lo, hi)
    } else {
        Seq::empty()
    }
}

pub proof fn lemma_clip_concat(a: Seq<u8>, b: Seq<u8>, from: int, to: int)
    ensures
        clip(a + b, from, to) == clip(a, from, to) + clip(b, from - a.len(), to - a.len()),
{
    assert(clip(a + b, from, to) =~= clip(a, from, to) + clip(b, from - a.len(), to - a.len()));
}

/// Materialize the byte range `[from, to)`. O(range + log n).
pub fn materialize_range<S: Storage + ?Sized>(storage: &S, root: &crate::hash::Hash, from: u64, to: u64) -> (r: Result<
    Vec<u8>,
>)
    requires
        sound(storage.store()),
    ensures
        plain_failure(r),
        reads(storage.local(), storage.store(), root@, r),
        r matches Ok(b) ==> b@ == clip(doc(storage.store(), root@), from as int, to as int),
{
    let n = match storage.node(root) {
        Ok(n) => n,
        Err(e) => {
            return Err(e);
        },
    };
    proof {
        lemma_doc_sums(storage.store(), n@);
    }
    let total: u64 = n.nbytes();
    let to = if to <= total {
        to
    } else {
        total
    };
    if from >= to {
        return Ok(Vec::new());
    }
    let mut out: Vec<u8> = Vec::new();
    match range_into(storage, &n, 0, from, to, &mut out) {
        Ok(_) => {
            assert(out@ =~= clip(doc(storage.store(), root@), from as int, to as int));
            Ok(out)
        },
        Err(e) => Err(e),
    }
}

fn range_into<S: Storage + ?Sized>(
    storage: &S,
    node: &Node,
    off: u64,
    from: u64,
    to: u64,
    out: &mut Vec<u8>,
) -> (r: Result<()>)
    requires
        sound(storage.store()),
        tree_ok(storage.store(), node@),
        off + sum_bytes(node@) <= usize::MAX,
        from < to,
    ensures
        plain_failure(r),
        storage.local() ==> r is Ok,
        r is Ok ==> final(out)@ == old(out)@ + clip(
            tree_text(storage.store(), node@),
            from - off,
            to - off,
        ),
    decreases height(storage.store(), node@),
{
    let ghost st = storage.store();
    let ghost es = node@;
    let ghost d = height(st, es);
    let ghost start = out@;
    let mut at: u64 = off;
    let mut i: usize = 0;
    if node.children.len() == 0 {
        assert(out@ =~= start + clip(tree_text(st, es), from - off, to - off));
        return Ok(());
    }
    proof {
        lemma_level_at(st, es, d, 0);
        lemma_level_sums(st, es.take(0), d);
        assert(es.take(0) =~= Seq::empty());
        assert(level_text(st, es.take(0), d) =~= Seq::empty());
        assert(out@ =~= start + clip(level_text(st, es.take(0), d), from - off, to - off));
    }
    while i < node.children.len() && at < to
        invariant
            i <= node.children@.len(),
            st == storage.store(),
            es == node@,
            d == height(st, es),
            sound(st),
            tree_ok(st, es),
            es.len() > 0,
            from < to,
            off + sum_bytes(es) <= usize::MAX,
            start == old(out)@,
            level_ok(st, es.take(i as int), d),
            at == off + sum_bytes(es.take(i as int)),
            sum_bytes(es.take(i as int)) == level_text(st, es.take(i as int), d).len(),
            out@ == start + clip(level_text(st, es.take(i as int), d), from - off, to - off),
        decreases node.children@.len() - i,
    {
        let c = node.children[i];
        assert(es[i as int] == c@);
        let ghost before = level_text(st, es.take(i as int), d);
        let ghost piece = entry_text(st, es[i as int], d);
        proof {
            lemma_level_at(st, es, d, i as int);
            lemma_entry_sums(st, es, d, i as int);
            lemma_sums_take(es, i as int);
            lemma_sums_take(es, i + 1);
            lemma_level_sums(st, es.take(i + 1), d);
            lemma_clip_concat(before, piece, from - off, to - off);
        }
        let ghost out0 = out@;
        let end: u64 = at + c.nbytes;
        if end > from {
            if c.is_leaf {
                proof {
                    lemma_child_leaf(st, es, i as int);
                }
                match storage.chunk_shared(&c.hash) {
                    Ok(bytes) => {
                        let s: usize = if from > at {
                            (from - at) as usize
                        } else {
                            0
                        };
                        let e: usize = if to < end {
                            (to - at) as usize
                        } else {
                            (end - at) as usize
                        };
                        let part = vstd::slice::slice_subrange(bytes.as_slice(), s, e);
                        assert(part@ =~= clip(piece, from - at, to - at));
                        out.extend_from_slice(part);
                    },
                    Err(e) => {
                        return Err(e);
                    },
                }
            } else {
                proof {
                    lemma_child_tree(st, es, i as int);
                    lemma_doc_sums(st, st.nodes[c.hash@]);
                }
                match storage.node(&c.hash) {
                    Ok(child) => {
                        match range_into(storage, &child, at, from, to, out) {
                            Ok(_) => {},
                            Err(e) => {
                                return Err(e);
                            },
                        }
                    },
                    Err(e) => {
                        return Err(e);
                    },
                }
            }
            assert(out@ =~= out0 + clip(piece, from - at, to - at));
        } else {
            assert(clip(piece, from - at, to - at) =~= Seq::empty());
            assert(out@ =~= out0 + clip(piece, from - at, to - at));
        }
        assert(out@ =~= start + clip(level_text(st, es.take(i + 1), d), from - off, to - off));
        at = end;
        i += 1;
    }
    proof {
        let rest = level_text(st, es.skip(i as int), d);
        assert(es =~= es.take(i as int) + es.skip(i as int));
        lemma_level_text_concat(st, es.take(i as int), es.skip(i as int), d);
        lemma_clip_concat(level_text(st, es.take(i as int), d), rest, from - off, to - off);
        if i == node.children@.len() {
            assert(es.take(i as int) =~= es);
        } else {
            assert(clip(rest, from - at, to - at) =~= Seq::empty());
        }
        assert(out@ =~= start + clip(tree_text(st, es), from - off, to - off));
    }
    Ok(())
}

/// A leaf as seen from the root: hash, byte offset, line offset, size.
#[derive(Clone, Copy, Debug, PartialEq, Eq)]
pub struct LeafRef {
    pub hash: crate::hash::Hash,
    pub byte_off: u64,
    pub line_off: u64,
    pub nbytes: u64,
    pub nlines: u64,
}

/// `refs` are the leaves `ls`, counted from byte `boff` and line `loff`.
pub open spec fn refs_of(refs: Seq<LeafRef>, ls: Seq<Entry>, boff: int, loff: int) -> bool {
    &&& refs.len() == ls.len()
    &&& forall|i: int|
        0 <= i < refs.len() ==> {
            &&& (#[trigger] refs[i]).hash@ == ls[i].hash
            &&& refs[i].nbytes == ls[i].nbytes
            &&& refs[i].nlines == ls[i].nlines
            &&& refs[i].byte_off == boff + sum_bytes(ls.take(i))
            &&& refs[i].line_off == loff + sum_lines(ls.take(i))
        }
}

proof fn lemma_refs_concat(a: Seq<LeafRef>, b: Seq<LeafRef>, la: Seq<Entry>, lb: Seq<Entry>, boff: int, loff: int)
    requires
        refs_of(a, la, boff, loff),
        refs_of(b, lb, boff + sum_bytes(la), loff + sum_lines(la)),
    ensures
        refs_of(a + b, la + lb, boff, loff),
{
    let r = a + b;
    let l = la + lb;
    assert forall|i: int| 0 <= i < r.len() implies {
        &&& (#[trigger] r[i]).hash@ == l[i].hash
        &&& r[i].nbytes == l[i].nbytes
        &&& r[i].nlines == l[i].nlines
        &&& r[i].byte_off == boff + sum_bytes(l.take(i))
        &&& r[i].line_off == loff + sum_lines(l.take(i))
    } by {
        if i < a.len() {
            assert(l.take(i) =~= la.take(i));
            assert(r[i] == a[i]);
        } else {
            let j = i - a.len();
            assert(r[i] == b[j]);
            assert(l.take(i) =~= la + lb.take(j));
            lemma_sums_concat(la, lb.take(j));
        }
    }
}

/// The leaf entries of a stored document.
pub open spec fn doc_leaves(st: Store, es: Seq<Entry>) -> Seq<Entry> {
    if es.len() == 0 {
        Seq::empty()
    } else {
        leaf_level(st, es, height(st, es))
    }
}

/// All leaves in order with their offsets. O(n) — used by search result mapping and tests.
pub fn leaves<S: Storage + ?Sized>(storage: &S, root: &crate::hash::Hash) -> (r: Result<Vec<LeafRef>>)
    requires
        sound(storage.store()),
    ensures
        plain_failure(r),
        reads(storage.local(), storage.store(), root@, r),
        r matches Ok(v) ==> refs_of(
            v@,
            doc_leaves(storage.store(), storage.store().nodes[root@]),
            0,
            0,
        ),
{
    let n = match storage.node(root) {
        Ok(n) => n,
        Err(e) => {
            return Err(e);
        },
    };
    let mut out: Vec<LeafRef> = Vec::new();
    match leaves_into(storage, &n, 0, 0, &mut out) {
        Ok(_) => Ok(out),
        Err(e) => Err(e),
    }
}

fn leaves_into<S: Storage + ?Sized>(
    storage: &S,
    node: &Node,
    boff: u64,
    loff: u64,
    out: &mut Vec<LeafRef>,
) -> (r: Result<()>)
    requires
        sound(storage.store()),
        tree_ok(storage.store(), node@),
        boff + sum_bytes(node@) <= usize::MAX,
        loff + sum_lines(node@) <= usize::MAX,
    ensures
        plain_failure(r),
        storage.local() ==> r is Ok,
        r is Ok ==> exists|v: Seq<LeafRef>|
            final(out)@ == old(out)@ + v && #[trigger] refs_of(
                v,
                doc_leaves(storage.store(), node@),
                boff as int,
                loff as int,
            ),
        r is Ok && old(out)@.len() == 0 ==> refs_of(
            final(out)@,
            doc_leaves(storage.store(), node@),
            boff as int,
            loff as int,
        ),
    decreases height(storage.store(), node@),
{
    let ghost st = storage.store();
    let ghost es = node@;
    let ghost d = height(st, es);
    let ghost start = out@;
    let mut b: u64 = boff;
    let mut l: u64 = loff;
    let mut i: usize = 0;
    let ghost mut v: Seq<LeafRef> = Seq::empty();
    if node.children.len() == 0 {
        proof {
            assert(refs_of(v, doc_leaves(st, es), boff as int, loff as int));
            assert(out@ =~= start + v);
        }
        return Ok(());
    }
    proof {
        lemma_level_at(st, es, d, 0);
        lemma_level_concat(st, es.take(0), es.take(0), d);
        assert(es.take(0) + es.take(0) =~= es.take(0));
        assert(leaf_level(st, es.take(0), d).len() == 0);
    }
    while i < node.children.len()
        invariant
            i <= node.children@.len(),
            st == storage.store(),
            es == node@,
            d == height(st, es),
            sound(st),
            tree_ok(st, es),
            es.len() > 0,
            boff + sum_bytes(es) <= usize::MAX,
            loff + sum_lines(es) <= usize::MAX,
            start == old(out)@,
            b == boff + sum_bytes(es.take(i as int)),
            l == loff + sum_lines(es.take(i as int)),
            level_ok(st, es.take(i as int), d),
            out@ == start + v,
            refs_of(v, leaf_level(st, es.take(i as int), d), boff as int, loff as int),
        decreases node.children@.len() - i,
    {
        let c = node.children[i];
        assert(es[i as int] == c@);
        let ghost one = seq![es[i as int]];
        let ghost la = leaf_level(st, es.take(i as int), d);
        proof {
            lemma_level_at(st, es, d, i as int);
            lemma_sums_take(es, i as int);
            lemma_sums_take(es, i + 1);
            lemma_level_leaf_sums(st, es.take(i as int), d);
            assert(es.take(i + 1) =~= es.take(i as int) + one);
            lemma_level_concat(st, es.take(i as int), one, d);
        }
        let ghost v0 = v;
        if c.is_leaf {
            proof {
                lemma_child_leaf(st, es, i as int);
            }
            let x = LeafRef { hash: c.hash, byte_off: b, line_off: l, nbytes: c.nbytes, nlines: c.nlines };
            out.push(x);
            proof {
                let lb = leaf_level(st, one, d);
                assert(lb == one);
                let w = seq![x];
                assert(one.take(0) =~= Seq::<Entry>::empty());
                assert(refs_of(w, one, b as int, l as int));
                lemma_refs_concat(v0, w, la, lb, boff as int, loff as int);
                v = v0 + w;
                assert(out@ =~= start + v);
            }
        } else {
            proof {
                lemma_child_tree(st, es, i as int);
                lemma_doc_sums(st, st.nodes[c.hash@]);
            }
            let ghost out0 = out@;
            match storage.node(&c.hash) {
                Ok(child) => {
                    proof {
                        lemma_entry_sums(st, es, d, i as int);
                        assert(sum_lines(child@) == c.nlines);
                        assert(sum_bytes(child@) == c.nbytes);
                    }
                    match leaves_into(storage, &child, b, l, out) {
                        Ok(_) => {},
                        Err(e) => {
                            return Err(e);
                        },
                    }
                    proof {
                        let lb = leaf_level(st, one, d);
                        crate::model::lemma_expand_one(st, es[i as int]);
                        assert(lb == doc_leaves(st, child@));
                        let w = choose|w: Seq<LeafRef>|
                            out@ == out0 + w && #[trigger] refs_of(w, doc_leaves(st, child@), b as int, l as int);
                        lemma_refs_concat(v0, w, la, lb, boff as int, loff as int);
                        v = v0 + w;
                        assert(out@ =~= start + v);
                    }
                },
                Err(e) => {
                    return Err(e);
                },
            }
        }
        b = b + c.nbytes;
        l = l + c.nlines;
        i += 1;
    }
    proof {
        assert(es.take(i as int) =~= es);
        assert(refs_of(v, doc_leaves(st, es), boff as int, loff as int));
        if start.len() == 0 {
            assert(out@ =~= v);
        }
    }
    Ok(())
}

pub proof fn lemma_level_leaf_sums(st: Store, es: Seq<Entry>, d: nat)
    requires
        level_ok(st, es, d),
    ensures
        sum_bytes(leaf_level(st, es, d)) == sum_bytes(es),
        sum_lines(leaf_level(st, es, d)) == sum_lines(es),
        level_ok(st, leaf_level(st, es, d), 1),
    decreases d,
{
    if d > 1 {
        crate::model::lemma_expand_sums(st, es);
        lemma_level_leaf_sums(st, expand(st, es), (d - 1) as nat);
    }
}

/// Number of levels of internal nodes (a tree whose root holds leaves has depth 1).
pub fn depth<S: Storage + ?Sized>(storage: &S, root: &crate::hash::Hash) -> (r: Result<usize>)
    requires
        sound(storage.store()),
        height(storage.store(), storage.store().nodes[root@]) <= usize::MAX,
    ensures
        plain_failure(r),
        reads(storage.local(), storage.store(), root@, r),
        r matches Ok(d) ==> d == if storage.store().nodes[root@].len() == 0 {
            1
        } else {
            height(storage.store(), storage.store().nodes[root@])
        },
{
    let ghost st = storage.store();
    let ghost top = st.nodes[root@];
    let mut d: usize = 1;
    let mut n = match storage.node(root) {
        Ok(n) => n,
        Err(e) => {
            return Err(e);
        },
    };
    if n.children.len() == 0 {
        return Ok(d);
    }
    while !n.children[0].is_leaf
        invariant
            st == storage.store(),
            sound(st),
            tree_ok(st, n@),
            n@.len() > 0,
            n@.len() == n.children@.len(),
            top == st.nodes[root@],
            st.nodes.contains_key(root@),
            d + height(st, n@) == height(st, top) + 1,
            height(st, top) <= usize::MAX,
        decreases height(st, n@),
    {
        proof {
            assert(n@[0] == n.children@[0]@);
            lemma_child_tree(st, n@, 0);
        }
        n = match storage.node(&n.children[0].hash) {
            Ok(m) => m,
            Err(e) => {
                return Err(e);
            },
        };
        d += 1;
    }
    proof {
        assert(n@[0] == n.children@[0]@);
        lemma_child_leaf(st, n@, 0);
    }
    Ok(d)
}

/// Collapse a root whose single child is an internal node (keeps the build invariant).
pub fn normalize_root<S: Storage + ?Sized>(storage: &S, root: crate::hash::Hash) -> (r: Result<crate::hash::Hash>)
    requires
        sound(storage.store()),
    ensures
        plain_failure(r),
        reads(storage.local(), storage.store(), root@, r),
        r matches Ok(h) ==> {
            &&& storage.store().nodes.contains_key(h@)
            &&& doc(storage.store(), h@) == doc(storage.store(), root@)
            &&& collapses(storage.store(), root@, h@)
        },
{
    let ghost st = storage.store();
    let mut cur = root;
    let mut n = match storage.node(&cur) {
        Ok(n) => n,
        Err(e) => {
            return Err(e);
        },
    };
    proof {
        assert(chain(st, root@, root@, 0));
    }
    let ghost mut steps: nat = 0;
    while n.children.len() == 1 && !n.children[0].is_leaf
        invariant
            st == storage.store(),
            sound(st),
            st.nodes.contains_key(root@),
            st.nodes.contains_key(cur@),
            n@ == st.nodes[cur@],
            tree_ok(st, n@),
            n@.len() == n.children@.len(),
            doc(st, cur@) == doc(st, root@),
            chain(st, root@, cur@, steps),
        decreases height(st, n@),
    {
        proof {
            assert(n@[0] == n.children@[0]@);
            lemma_child_tree(st, n@, 0);
            let d = height(st, n@);
            lemma_level_at(st, n@, d, 0);
            assert(n@.take(1) =~= n@);
            assert(level_text(st, n@.take(0), d) =~= Seq::empty()) by {
                lemma_level_sums(st, n@.take(0), d);
                assert(n@.take(0) =~= Seq::empty());
            }
            assert(doc(st, cur@) =~= entry_text(st, n@[0], d));
            lemma_chain_step(st, root@, cur@, steps);
        }
        cur = n.children[0].hash;
        n = match storage.node(&cur) {
            Ok(m) => m,
            Err(e) => {
                return Err(e);
            },
        };
        proof {
            steps = steps + 1;
        }
    }
    proof {
        assert(n@.len() == 1 ==> n@[0] == n.children@[0]@);
        assert(chain(st, root@, cur@, steps));
    }
    Ok(cur)
}

/// A node with a single child that is itself a node.
pub open spec fn single(es: Seq<Entry>) -> bool {
    es.len() == 1 && !es[0].is_leaf
}

/// `h` is reached from `root` by `n` steps through single children.
pub open spec fn chain(st: Store, root: Seq<u8>, h: Seq<u8>, n: nat) -> bool
    decreases n,
{
    if n == 0 {
        root == h
    } else {
        single(st.nodes[root]) && chain(st, st.nodes[root][0].hash, h, (n - 1) as nat)
    }
}

/// `h` is the first node under `root`, through single children, that is not one itself.
pub open spec fn collapses(st: Store, root: Seq<u8>, h: Seq<u8>) -> bool {
    !single(st.nodes[h]) && exists|n: nat| chain(st, root, h, n)
}

proof fn lemma_chain_step(st: Store, root: Seq<u8>, h: Seq<u8>, n: nat)
    requires
        chain(st, root, h, n),
        single(st.nodes[h]),
    ensures
        chain(st, root, st.nodes[h][0].hash, n + 1),
    decreases n,
{
    if n > 0 {
        lemma_chain_step(st, st.nodes[root][0].hash, h, (n - 1) as nat);
    } else {
        assert(chain(st, st.nodes[root][0].hash, st.nodes[h][0].hash, 0));
    }
}

/// Line `line` (0-based) of `s` starts at `o`: just past the `line`-th newline.
pub open spec fn starts_line(s: Seq<u8>, line: int, o: int) -> bool {
    &&& 0 <= o <= s.len()
    &&& newlines(s.take(o)) == line
    &&& o == 0 ==> line == 0
    &&& o > 0 ==> s[o - 1] == 10
}

/// A line starts at one place only.
pub proof fn law_line_start_unique(s: Seq<u8>, line: int, a: int, b: int)
    requires
        starts_line(s, line, a),
        starts_line(s, line, b),
    ensures
        a == b,
{
    if a < b {
        lemma_newlines_between(s, a, b);
    } else if b < a {
        lemma_newlines_between(s, b, a);
    }
}

proof fn lemma_newlines_between(s: Seq<u8>, a: int, b: int)
    requires
        0 <= a < b <= s.len(),
        s[b - 1] == 10,
    ensures
        newlines(s.take(a)) < newlines(s.take(b)),
{
    assert(s.take(b).drop_last() =~= s.take(b - 1));
    assert(s.take(b - 1) =~= s.take(a) + s.subrange(a, b - 1));
    lemma_newlines_concat(s.take(a), s.subrange(a, b - 1));
}

/// Byte offset at which line `line` (0-based) starts: the offset just past the
/// `line`-th `\n`. `None` if the document has fewer newlines than `line`.
#[verifier::rlimit(50)]
pub fn locate_line<S: Storage + ?Sized>(storage: &S, root: &crate::hash::Hash, line: u64) -> (r: Result<Option<u64>>)
    requires
        sound(storage.store()),
    ensures
        plain_failure(r),
        line == 0 ==> r == Ok::<Option<u64>, TextdbError>(Some(0)),
        line > 0 ==> reads(storage.local(), storage.store(), root@, r),
        line > 0 ==> (r matches Ok(Some(o)) ==> starts_line(
            doc(storage.store(), root@),
            line as int,
            o as int,
        )),
        line > 0 ==> (r matches Ok(None) ==> newlines(doc(storage.store(), root@)) < line),
{
    if line == 0 {
        return Ok(Some(0));
    }
    let ghost st = storage.store();
    let ghost text = doc(st, root@);
    let mut node = match storage.node(root) {
        Ok(n) => n,
        Err(e) => {
            return Err(e);
        },
    };
    let mut boff: u64 = 0;
    let mut remaining: u64 = line;
    let ghost mut pre: Seq<u8> = Seq::empty();
    let ghost mut post: Seq<u8> = Seq::empty();
    proof {
        lemma_doc_sums(st, node@);
        assert(text =~= pre + tree_text(st, node@) + post);
    }
    loop
        invariant
            st == storage.store(),
            sound(st),
            st.nodes.contains_key(root@),
            text == doc(st, root@),
            text.len() <= usize::MAX,
            tree_ok(st, node@),
            text == pre + tree_text(st, node@) + post,
            boff == pre.len(),
            line > 0,
            remaining >= 1,
            newlines(pre) + remaining == line,
            (pre.len() == 0 && post.len() == 0) || newlines(tree_text(st, node@)) >= remaining,
        decreases height(st, node@),
    {
        let ghost es = node@;
        let ghost d = height(st, es);
        if node.children.len() == 0 {
            assert(tree_text(st, es) =~= Seq::empty());
            assert(text =~= Seq::empty());
            return Ok(None);
        }
        let ghost pre0 = pre;
        let ghost rem0 = remaining;
        let mut i: usize = 0;
        proof {
            lemma_level_at(st, es, d, 0);
            lemma_level_sums(st, es.take(0), d);
            assert(es.take(0) =~= Seq::empty());
            assert(level_text(st, es.take(0), d) =~= Seq::empty());
            assert(pre0 + level_text(st, es.take(0), d) =~= pre0);
        }
        while i < node.children.len() && node.children[i].nlines < remaining
            invariant
                i <= node.children@.len(),
                es == node@,
                d == height(st, es),
                tree_ok(st, es),
                es.len() > 0,
                text.len() <= usize::MAX,
                text == pre0 + tree_text(st, es) + post,
                pre == pre0 + level_text(st, es.take(i as int), d),
                boff == pre.len(),
                remaining >= 1,
                newlines(pre) + remaining == line,
            decreases node.children@.len() - i,
        {
            proof {
                assert(es[i as int] == node.children@[i as int]@);
                lemma_level_at(st, es, d, i as int);
                lemma_entry_sums(st, es, d, i as int);
                let piece = entry_text(st, es[i as int], d);
                lemma_newlines_concat(pre, piece);
                assert(pre + piece =~= pre0 + level_text(st, es.take(i + 1), d));
                assert((pre + piece).len() <= text.len());
                pre = pre + piece;
            }
            remaining = remaining - node.children[i].nlines;
            boff = boff + node.children[i].nbytes;
            i += 1;
        }
        if i == node.children.len() {
            proof {
                assert(es.take(i as int) =~= es);
                lemma_newlines_concat(pre0, tree_text(st, es));
                assert(pre0.len() == 0 && post.len() == 0);
                assert(text =~= pre0 + tree_text(st, es));
            }
            return Ok(None);
        }
        let c = node.children[i];
        let ghost piece = entry_text(st, es[i as int], d);
        let ghost rest = level_text(st, es.skip(i + 1), d) + post;
        proof {
            assert(es[i as int] == c@);
            lemma_level_at(st, es, d, i as int);
            lemma_entry_sums(st, es, d, i as int);
            assert(text =~= pre + piece + rest);
        }
        if c.is_leaf {
            proof {
                lemma_child_leaf(st, es, i as int);
            }
            let bytes = match storage.chunk(&c.hash) {
                Ok(b) => b,
                Err(e) => {
                    return Err(e);
                },
            };
            let mut k: u64 = remaining;
            let mut j: usize = 0;
            assert(bytes@.take(0) =~= Seq::empty());
            while j < bytes.len()
                invariant
                    j <= bytes@.len(),
                    bytes@ == piece,
                    text == pre + piece + rest,
                    text.len() <= usize::MAX,
                    boff == pre.len(),
                    k >= 1,
                    k + newlines(bytes@.take(j as int)) == remaining,
                    newlines(pre) + remaining == line,
                    line > 0,
                    st == storage.store(),
                    st.nodes.contains_key(root@),
                    text == doc(st, root@),
                decreases bytes@.len() - j,
            {
                proof {
                    assert(bytes@.take(j + 1).drop_last() =~= bytes@.take(j as int));
                }
                if bytes[j] == 10 {
                    k -= 1;
                    if k == 0 {
                        proof {
                            let o = boff + j + 1;
                            assert(text.take(o) =~= pre + bytes@.take(j + 1));
                            lemma_newlines_concat(pre, bytes@.take(j + 1));
                            assert(text[o - 1] == bytes@[j as int]);
                        }
                        return Ok(Some(boff + j as u64 + 1));
                    }
                }
                j += 1;
            }
            proof {
                assert(bytes@.take(j as int) =~= bytes@);
                assert(false);
            }
            return Ok(None);
        }
        proof {
            lemma_child_tree(st, es, i as int);
            post = rest;
        }
        node = match storage.node(&c.hash) {
            Ok(n) => n,
            Err(e) => {
                return Err(e);
            },
        };
    }
}

/// The lines `[from, to]` of a text, 0-based and inclusive; lines past the end are ignored.
pub open spec fn is_lines(s: Seq<u8>, from: int, to: int, part: Seq<u8>) -> bool {
    if newlines(s) < from {
        part == Seq::<u8>::empty()
    } else {
        exists|a: int, b: int|
            #![trigger s.subrange(a, b)]
            starts_line(s, from, a) && (if newlines(s) < to + 1 {
                b == s.len()
            } else {
                starts_line(s, to + 1, b)
            }) && part == s.subrange(a, b)
    }
}

/// Bytes of lines `[from, to]` inclusive, 0-based. Lines past the end are ignored.
pub fn lines<S: Storage + ?Sized>(storage: &S, root: &crate::hash::Hash, from: u64, to: u64) -> (r: Result<Vec<u8>>)
    requires
        sound(storage.store()),
    ensures
        plain_failure(r),
        to < from ==> r is Ok && r->Ok_0@ == Seq::<u8>::empty(),
        to >= from ==> reads(storage.local(), storage.store(), root@, r),
        to >= from ==> (r matches Ok(b) ==> is_lines(
            doc(storage.store(), root@),
            from as int,
            to as int,
            b@,
        )),
{
    if to < from {
        return Ok(Vec::new());
    }
    let ghost s = doc(storage.store(), root@);
    let total: u64 = match totals(storage, root) {
        Ok(t) => t.0,
        Err(e) => {
            return Err(e);
        },
    };
    let start: u64 = match locate_line(storage, root, from) {
        Ok(Some(a)) => a,
        Ok(None) => {
            return Ok(Vec::new());
        },
        Err(e) => {
            return Err(e);
        },
    };
    proof {
        if from == 0 {
            assert(s.take(0) =~= Seq::empty());
        }
        assert(starts_line(s, from as int, start as int));
        lemma_newlines_prefix(s, start as int);
    }
    let end: u64 = if to == u64::MAX {
        total
    } else {
        match locate_line(storage, root, to + 1) {
            Ok(Some(b)) => b,
            Ok(None) => total,
            Err(e) => {
                return Err(e);
            },
        }
    };
    proof {
        lemma_newlines_prefix(s, end as int);
        if end < start {
            lemma_newlines_between(s, end as int, start as int);
        }
    }
    let r = materialize_range(storage, root, start, end);
    proof {
        if r is Ok {
            assert(r->Ok_0@ =~= s.subrange(start as int, end as int));
        }
    }
    r
}

pub proof fn lemma_newlines_prefix(s: Seq<u8>, o: int)
    requires
        0 <= o <= s.len(),
    ensures
        newlines(s.take(o)) <= newlines(s),
{
    assert(s =~= s.take(o) + s.skip(o));
    lemma_newlines_concat(s.take(o), s.skip(o));
}

/// Line number (0-based) of byte offset `off` (`off == len` gives the last line).
#[verifier::rlimit(50)]
pub fn line_of_byte<S: Storage + ?Sized>(storage: &S, root: &crate::hash::Hash, off: u64) -> (r: Result<u64>)
    requires
        sound(storage.store()),
    ensures
        plain_failure(r),
        reads(storage.local(), storage.store(), root@, r),
        r matches Ok(n) ==> n == line_at(doc(storage.store(), root@), off as int),
{
    let ghost st = storage.store();
    let ghost text = doc(st, root@);
    let mut node = match storage.node(root) {
        Ok(n) => n,
        Err(e) => {
            return Err(e);
        },
    };
    let mut boff: u64 = 0;
    let mut lines: u64 = 0;
    let ghost mut pre: Seq<u8> = Seq::empty();
    let ghost mut post: Seq<u8> = Seq::empty();
    proof {
        lemma_doc_sums(st, node@);
        assert(text =~= pre + tree_text(st, node@) + post);
    }
    loop
        invariant
            st == storage.store(),
            sound(st),
            st.nodes.contains_key(root@),
            text == doc(st, root@),
            text.len() <= usize::MAX,
            tree_ok(st, node@),
            text == pre + tree_text(st, node@) + post,
            boff == pre.len(),
            lines == newlines(pre),
            boff <= off,
            (pre.len() == 0 && post.len() == 0) || off <= boff + tree_text(st, node@).len(),
        decreases height(st, node@),
    {
        let ghost es = node@;
        let ghost d = height(st, es);
        if node.children.len() == 0 {
            assert(text =~= pre + post);
            assert(text.take(clamp(off as int, text.len() as int)) =~= pre);
            return Ok(lines);
        }
        let ghost pre0 = pre;
        let mut i: usize = 0;
        let last: usize = node.children.len() - 1;
        proof {
            lemma_level_at(st, es, d, 0);
            lemma_level_sums(st, es.take(0), d);
            assert(es.take(0) =~= Seq::empty());
            assert(level_text(st, es.take(0), d) =~= Seq::empty());
            assert(pre0 + level_text(st, es.take(0), d) =~= pre0);
        }
        while i < node.children.len() && !(off - boff < node.children[i].nbytes || (i == last && off - boff
            == node.children[i].nbytes))
            invariant
                i <= node.children@.len(),
                last == node.children@.len() - 1,
                es == node@,
                d == height(st, es),
                tree_ok(st, es),
                es.len() > 0,
                text.len() <= usize::MAX,
                text == pre0 + tree_text(st, es) + post,
                pre == pre0 + level_text(st, es.take(i as int), d),
                boff == pre.len(),
                boff <= off,
                lines == newlines(pre),
            decreases node.children@.len() - i,
        {
            proof {
                assert(es[i as int] == node.children@[i as int]@);
                lemma_level_at(st, es, d, i as int);
                lemma_entry_sums(st, es, d, i as int);
                let piece = entry_text(st, es[i as int], d);
                lemma_newlines_concat(pre, piece);
                lemma_newlines_bound(pre + piece);
                assert(pre + piece =~= pre0 + level_text(st, es.take(i + 1), d));
                assert((pre + piece).len() <= text.len());
                pre = pre + piece;
            }
            boff = boff + node.children[i].nbytes;
            lines = lines + node.children[i].nlines;
            i += 1;
        }
        if i == node.children.len() {
            proof {
                assert(es.take(i as int) =~= es);
                assert(es[last as int] == node.children@[last as int]@);
                lemma_level_at(st, es, d, last as int);
                lemma_entry_sums(st, es, d, last as int);
                if pre0.len() == 0 && post.len() == 0 {
                    assert(text =~= pre);
                    assert(text.take(clamp(off as int, text.len() as int)) =~= pre);
                } else {
                    // `off` is at most the end of this node, so it is the node's last entry's end.
                    assert(text.take(clamp(off as int, text.len() as int)) =~= pre);
                }
            }
            return Ok(lines);
        }
        let c = node.children[i];
        let ghost piece = entry_text(st, es[i as int], d);
        let ghost rest = level_text(st, es.skip(i + 1), d) + post;
        proof {
            assert(es[i as int] == c@);
            lemma_level_at(st, es, d, i as int);
            lemma_entry_sums(st, es, d, i as int);
            assert(text =~= pre + piece + rest);
        }
        if c.is_leaf {
            proof {
                lemma_child_leaf(st, es, i as int);
            }
            let bytes = match storage.chunk(&c.hash) {
                Ok(b) => b,
                Err(e) => {
                    return Err(e);
                },
            };
            let within: usize = (off - boff) as usize;
            let part = vstd::slice::slice_subrange(bytes.as_slice(), 0, within);
            let n: u64 = count_newlines(part);
            proof {
                assert(text.take(clamp(off as int, text.len() as int)) =~= pre + part@);
                lemma_newlines_concat(pre, part@);
                lemma_newlines_bound(pre + part@);
            }
            return Ok(lines + n);
        }
        proof {
            lemma_child_tree(st, es, i as int);
            post = rest;
        }
        node = match storage.node(&c.hash) {
            Ok(n) => n,
            Err(e) => {
                return Err(e);
            },
        };
    }
}

/// Number of newlines before offset `off`, or in the whole text when `off` is past its end.
pub open spec fn line_at(s: Seq<u8>, off: int) -> nat {
    newlines(s.take(clamp(off, s.len() as int)))
}

/// Raise a missing-file error helper for bindings.
pub fn missing_file(path: &str) -> (r: TextdbError)
    ensures
        r matches TextdbError::NotFound(s) && s@ == path@,
{
    TextdbError::NotFound(String::from_str(path))
}

/// A document's root depends on its text alone: two stores, and two histories of edits that end
/// in one text, have it under one root.
pub proof fn law_history_independent(a: Store, b: Store, p: ChunkParams, x: Seq<u8>, y: Seq<u8>, text: Seq<u8>)
    requires
        canonical(a, p, x, text),
        canonical(b, p, y, text),
    ensures
        x == y,
{
}

} // verus!

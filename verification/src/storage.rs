//! The `Storage` trait bindings implement, and an in-memory implementation.

use std::collections::HashMap;
use std::sync::Arc;
use vstd::prelude::*;
use vstd::string::*;
use crate::error::TextdbError;
use crate::hash::same_hash;
use crate::model::{grows, lemma_sound_chunks, lemma_sound_insert, sound, tree_ok, Store};
use crate::node::Node;
use crate::table::Table;
use crate::text::same_bytes;

verus! {

pub type Result<T> = std::result::Result<T, TextdbError>;

/// The current root of a file.
pub open spec fn root_of(st: Store, file_id: u64) -> Option<Seq<u8>> {
    if st.roots.contains_key(file_id) {
        Some(st.roots[file_id].0)
    } else {
        None
    }
}

/// The current version of a file; 0 before the first.
pub open spec fn version_of(st: Store, file_id: u64) -> u64 {
    if st.roots.contains_key(file_id) {
        st.roots[file_id].1
    } else {
        0
    }
}

/// The call failed because the node `h` is not stored.
pub open spec fn missing_node<T>(r: Result<T>, h: Seq<u8>) -> bool {
    r matches Err(TextdbError::MissingNode(x)) && x@ == h
}

/// The call failed because the chunk `h` is not stored.
pub open spec fn missing_chunk<T>(r: Result<T>, h: Seq<u8>) -> bool {
    r matches Err(TextdbError::MissingChunk(x)) && x@ == h
}

/// A call that failed did so because of what is stored or cannot be, and not for the edits or for
/// other writers: those errors are for the functions that take edits to give.
pub open spec fn plain_failure<T>(r: Result<T>) -> bool {
    r matches Err(e) ==> !(e is Conflict) && !(e is Contention) && !(e is InvalidEdit)
}

/// A call that failed did so for a reason of its own, not with one of the two errors by which a
/// commit tells that others wrote: `Conflict` and `Contention`.
pub open spec fn unraced<T>(r: Result<T>) -> bool {
    r matches Err(e) ==> !(e is Conflict) && !(e is Contention)
}

/// The root of a file is the one that a swap expects.
pub open spec fn expected(st: Store, file_id: u64, expect: Option<&crate::hash::Hash>) -> bool {
    match expect {
        Some(h) => root_of(st, file_id) == Some(h@),
        None => root_of(st, file_id) is None,
    }
}

/// A swap that went through, from the state `mid` right before it: the file is at the new root, and
/// its version went up by one.
pub open spec fn swapped(mid: Store, fin: Store, file_id: u64, new: Seq<u8>) -> bool {
    &&& grows(mid, fin)
    &&& version_of(mid, file_id) < u64::MAX
    &&& root_of(fin, file_id) == Some(new)
    &&& version_of(fin, file_id) == version_of(mid, file_id) + 1
}

/// Persistence abstraction. All chunk/node writes are append-only and idempotent; the
/// only mutation is `cas_root`.
///
/// Reads between two calls that change the storage see one state of it. A call fails for what
/// is stored or cannot be; `Conflict`, `Contention` and `InvalidEdit` are a commit's to give.
pub trait Storage {
    /// What the storage holds.
    open spec fn store(&self) -> Store {
        Store { chunks: Map::empty(), nodes: Map::empty(), roots: Map::empty() }
    }

    /// Nobody else writes to the storage, and calls do not fail.
    open spec fn local(&self) -> bool {
        false
    }

    fn get_chunk(&self, h: &crate::hash::Hash) -> (r: Result<Option<Vec<u8>>>)
        ensures
            plain_failure(r),
            self.local() ==> r is Ok,
            r matches Ok(Some(b)) ==> self.store().chunks.contains_key(h@) && b@
                == self.store().chunks[h@],
            r matches Ok(None) ==> !self.store().chunks.contains_key(h@),
    ;

    /// Store a chunk under its hash. What is stored there already stays.
    fn put_chunk(&mut self, h: &crate::hash::Hash, b: &[u8]) -> (r: Result<()>)
        ensures
            plain_failure(r),
            final(self).local() == old(self).local(),
            grows(old(self).store(), final(self).store()),
            sound(old(self).store()) ==> sound(final(self).store()),
            r is Ok ==> final(self).store().chunks.contains_key(h@),
            old(self).local() ==> {
                let o = old(self).store();
                &&& r is Ok
                &&& o.chunks.contains_key(h@) ==> final(self).store() == o
                &&& !o.chunks.contains_key(h@) ==> final(self).store() == (Store {
                    chunks: o.chunks.insert(h@, b@),
                    ..o
                })
            },
    ;

    fn get_node(&self, h: &crate::hash::Hash) -> (r: Result<Option<Node>>)
        ensures
            plain_failure(r),
            self.local() ==> r is Ok,
            r matches Ok(Some(n)) ==> self.store().nodes.contains_key(h@) && n@
                == self.store().nodes[h@],
            r matches Ok(None) ==> !self.store().nodes.contains_key(h@),
    ;

    /// Store a node under its hash. What is stored there already stays.
    fn put_node(&mut self, h: &crate::hash::Hash, n: &Node) -> (r: Result<()>)
        ensures
            plain_failure(r),
            final(self).local() == old(self).local(),
            grows(old(self).store(), final(self).store()),
            sound(old(self).store()) && tree_ok(old(self).store(), n@) ==> sound(final(self).store()),
            r is Ok ==> final(self).store().nodes.contains_key(h@),
            old(self).local() ==> {
                let o = old(self).store();
                &&& r is Ok
                &&& o.nodes.contains_key(h@) ==> final(self).store() == o
                &&& !o.nodes.contains_key(h@) ==> final(self).store() == (Store {
                    nodes: o.nodes.insert(h@, n@),
                    ..o
                })
            },
    ;

    /// Current `(root, version)` of a file, if the file exists.
    fn get_root(&self, file_id: u64) -> (r: Result<Option<(crate::hash::Hash, u64)>>)
        ensures
            plain_failure(r),
            self.local() ==> r is Ok,
            r matches Ok(Some(p)) ==> self.store().roots.contains_key(file_id) && self.store().roots[file_id]
                == (p.0@, p.1),
            r matches Ok(None) ==> !self.store().roots.contains_key(file_id),
    ;

    /// Compare-and-swap the root. `expect == None` means "file has no root yet".
    /// Returns `true` on success. On success the version is incremented by one.
    fn cas_root(&mut self, file_id: u64, expect: Option<&crate::hash::Hash>, new: &crate::hash::Hash) -> (r:
        Result<bool>)
        ensures
            plain_failure(r),
            final(self).local() == old(self).local(),
            grows(old(self).store(), final(self).store()),
            sound(old(self).store()) ==> sound(final(self).store()),
            r == Ok::<bool, TextdbError>(true) ==> exists|mid: Store|
                grows(old(self).store(), mid) && expected(mid, file_id, expect) && #[trigger] swapped(
                    mid,
                    final(self).store(),
                    file_id,
                    new@,
                ),
            r == Ok::<bool, TextdbError>(false) ==> exists|mid: Store|
                grows(old(self).store(), mid) && grows(mid, final(self).store()) && !#[trigger] expected(
                    mid,
                    file_id,
                    expect,
                ),
            old(self).local() ==> {
                let o = old(self).store();
                let holds = expected(o, file_id, expect);
                &&& version_of(o, file_id) < u64::MAX || !holds ==> r == Ok::<bool, TextdbError>(holds)
                &&& r == Ok::<bool, TextdbError>(true) ==> holds && version_of(o, file_id) < u64::MAX
                    && final(self).store() == (Store {
                    roots: o.roots.insert(file_id, (new@, (version_of(o, file_id) + 1) as u64)),
                    ..o
                })
                &&& r != Ok::<bool, TextdbError>(true) ==> final(self).store() == o
            },
    ;

    /// Convenience: fetch a node or fail.
    fn node(&self, h: &crate::hash::Hash) -> (r: Result<Node>)
        ensures
            plain_failure(r),
            r matches Ok(n) ==> self.store().nodes.contains_key(h@) && n@ == self.store().nodes[h@],
            self.local() && self.store().nodes.contains_key(h@) ==> r is Ok,
            self.local() && !self.store().nodes.contains_key(h@) ==> missing_node(r, h@),
    {
        match self.get_node(h) {
            Ok(Some(n)) => Ok(n),
            Ok(None) => Err(TextdbError::MissingNode(*h)),
            Err(e) => Err(e),
        }
    }

    /// Convenience: fetch a chunk or fail.
    fn chunk(&self, h: &crate::hash::Hash) -> (r: Result<Vec<u8>>)
        ensures
            plain_failure(r),
            r matches Ok(b) ==> self.store().chunks.contains_key(h@) && b@ == self.store().chunks[h@],
            self.local() && self.store().chunks.contains_key(h@) ==> r is Ok,
            self.local() && !self.store().chunks.contains_key(h@) ==> missing_chunk(r, h@),
    {
        match self.get_chunk(h) {
            Ok(Some(b)) => Ok(b),
            Ok(None) => Err(TextdbError::MissingChunk(*h)),
            Err(e) => Err(e),
        }
    }

    /// Fetch a chunk as a shared buffer.
    ///
    /// Materialising a document copies every chunk into the output, so a binding that
    /// already holds the bytes — from a cache, say — should not have to hand out a fresh
    /// `Vec` only for the caller to copy out of it and drop it. The default allocates, as
    /// `chunk` does.
    fn chunk_shared(&self, h: &crate::hash::Hash) -> (r: Result<Arc<Vec<u8>>>)
        ensures
            plain_failure(r),
            r matches Ok(b) ==> self.store().chunks.contains_key(h@) && b@ == self.store().chunks[h@],
            self.local() && self.store().chunks.contains_key(h@) ==> r is Ok,
            self.local() && !self.store().chunks.contains_key(h@) ==> missing_chunk(r, h@),
    {
        match self.chunk(h) {
            Ok(b) => Ok(Arc::new(b)),
            Err(e) => Err(e),
        }
    }
}

/// A counter that has counted `n` more, and stays at the greatest number once it is there.
pub open spec fn counted(c: u64, n: nat) -> int {
    if c + n > u64::MAX {
        u64::MAX as int
    } else {
        c + n
    }
}

/// In-memory storage used for tests and as the reference implementation.
#[derive(Debug, Clone)]
pub struct MemStorage {
    pub chunks: Table<Vec<u8>>,
    pub nodes: Table<Node>,
    pub roots: HashMap<u64, (crate::hash::Hash, u64)>,
    /// Number of chunk bytes written (counting only new chunks).
    pub chunk_bytes_written: u64,
    pub node_writes: u64,
}

impl MemStorage {
    pub fn new() -> (r: Self)
        ensures
            r.store() == (Store {
                chunks: Map::empty(),
                nodes: Map::empty(),
                roots: Map::empty(),
            }),
            r.local(),
            sound(r.store()),
            r.chunk_bytes_written == 0,
            r.node_writes == 0,
    {
        broadcast use vstd::std_specs::hash::group_hash_axioms;

        let r = MemStorage {
            chunks: Table::new(),
            nodes: Table::new(),
            roots: HashMap::new(),
            chunk_bytes_written: 0,
            node_writes: 0,
        };
        proof {
            assert(r.store().chunks =~= Map::empty());
            assert(r.store().nodes =~= Map::empty());
            assert(r.store().roots =~= Map::empty());
        }
        r
    }
}

impl Default for MemStorage {
    fn default() -> (r: Self)
        ensures
            r.store() == (Store {
                chunks: Map::empty(),
                nodes: Map::empty(),
                roots: Map::empty(),
            }),
            r.chunk_bytes_written == 0,
            r.node_writes == 0,
    {
        MemStorage::new()
    }
}

fn same_node(a: &Node, b: &Node) -> (r: bool)
    ensures
        r == (a@ == b@),
{
    if a.children.len() != b.children.len() {
        assert(a@.len() != b@.len());
        return false;
    }
    let mut i: usize = 0;
    while i < a.children.len()
        invariant
            i <= a.children@.len() == b.children@.len(),
            forall|j: int| 0 <= j < i ==> a.children@[j]@ == b.children@[j]@,
        decreases a.children@.len() - i,
    {
        let x = &a.children[i];
        let y = &b.children[i];
        if !same_hash(&x.hash, &y.hash) || x.nbytes != y.nbytes || x.nlines != y.nlines || x.is_leaf
            != y.is_leaf {
            assert(a@[i as int] != b@[i as int]);
            return false;
        }
        i += 1;
    }
    assert(a@ =~= b@);
    true
}

/// Store a chunk, and make sure that its hash stands for it: a document reads back as it was
/// written, or writing it fails.
pub(crate) fn keep_chunk<S: Storage + ?Sized>(storage: &mut S, h: &crate::hash::Hash, b: &[u8]) -> (r: Result<()>)
    ensures
        plain_failure(r),
        final(storage).local() == old(storage).local(),
        grows(old(storage).store(), final(storage).store()),
        sound(old(storage).store()) ==> sound(final(storage).store()),
        r is Ok ==> final(storage).store().chunks.contains_key(h@) && final(storage).store().chunks[h@] == b@,
        old(storage).local() ==> {
            let o = old(storage).store();
            &&& r is Err <==> o.chunks.contains_key(h@) && o.chunks[h@] != b@
            &&& r is Ok ==> final(storage).store() == (Store { chunks: o.chunks.insert(h@, b@), ..o })
            &&& r is Err ==> r->Err_0 is Storage && final(storage).store() == o
        },
{
    let ghost o = storage.store();
    match storage.put_chunk(h, b) {
        Ok(_) => {},
        Err(e) => {
            return Err(e);
        },
    }
    match storage.get_chunk(h) {
        Ok(Some(v)) => {
            if !same_bytes(v.as_slice(), b) {
                return Err(TextdbError::Storage(String::from_str("two chunks have one hash")));
            }
            proof {
                if storage.local() && o.chunks.contains_key(h@) {
                    assert(o.chunks =~= o.chunks.insert(h@, b@));
                }
            }
            Ok(())
        },
        Ok(None) => Err(TextdbError::MissingChunk(*h)),
        Err(e) => Err(e),
    }
}

/// Store a node, and make sure that its hash stands for it.
pub(crate) fn keep_node<S: Storage + ?Sized>(storage: &mut S, h: &crate::hash::Hash, n: &Node) -> (r: Result<()>)
    ensures
        plain_failure(r),
        final(storage).local() == old(storage).local(),
        grows(old(storage).store(), final(storage).store()),
        sound(old(storage).store()) && tree_ok(old(storage).store(), n@) ==> sound(final(storage).store()),
        r is Ok ==> final(storage).store().nodes.contains_key(h@) && final(storage).store().nodes[h@] == n@,
        old(storage).local() ==> {
            let o = old(storage).store();
            &&& r is Err <==> o.nodes.contains_key(h@) && o.nodes[h@] != n@
            &&& r is Ok ==> final(storage).store() == (Store { nodes: o.nodes.insert(h@, n@), ..o })
            &&& r is Err ==> r->Err_0 is Storage && final(storage).store() == o
        },
{
    let ghost o = storage.store();
    match storage.put_node(h, n) {
        Ok(_) => {},
        Err(e) => {
            return Err(e);
        },
    }
    match storage.get_node(h) {
        Ok(Some(m)) => {
            if !same_node(&m, n) {
                return Err(TextdbError::Storage(String::from_str("two nodes have one hash")));
            }
            proof {
                if storage.local() && o.nodes.contains_key(h@) {
                    assert(o.nodes =~= o.nodes.insert(h@, n@));
                }
            }
            Ok(())
        },
        Ok(None) => Err(TextdbError::MissingNode(*h)),
        Err(e) => Err(e),
    }
}

impl Storage for MemStorage {
    open spec fn store(&self) -> Store {
        Store {
            chunks: self.chunks@.map_values(|v: Vec<u8>| v@),
            nodes: self.nodes@.map_values(|n: Node| n@),
            roots: self.roots@.map_values(|p: (crate::hash::Hash, u64)| (p.0@, p.1)),
        }
    }

    open spec fn local(&self) -> bool {
        true
    }

    fn get_chunk(&self, h: &crate::hash::Hash) -> (r: Result<Option<Vec<u8>>>) {
        match self.chunks.get(h) {
            Some(v) => Ok(Some(vstd::slice::slice_to_vec(v.as_slice()))),
            None => Ok(None),
        }
    }

    fn put_chunk(&mut self, h: &crate::hash::Hash, b: &[u8]) -> (r: Result<()>)
        ensures
            final(self).chunk_bytes_written == if old(self).store().chunks.contains_key(h@) {
                old(self).chunk_bytes_written as int
            } else {
                counted(old(self).chunk_bytes_written, b@.len())
            },
            final(self).node_writes == old(self).node_writes,
    {
        let ghost o = self.store();
        if self.chunks.get(h).is_some() {
            return Ok(());
        }
        let v = vstd::slice::slice_to_vec(b);
        self.chunk_bytes_written = self.chunk_bytes_written.saturating_add(b.len() as u64);
        self.chunks.insert_new(h, v);
        proof {
            assert(self.store().chunks =~= o.chunks.insert(h@, b@));
            if sound(o) {
                lemma_sound_chunks(o, self.store());
            }
        }
        Ok(())
    }

    fn get_node(&self, h: &crate::hash::Hash) -> (r: Result<Option<Node>>) {
        match self.nodes.get(h) {
            Some(n) => Ok(Some(n.clone())),
            None => Ok(None),
        }
    }

    fn put_node(&mut self, h: &crate::hash::Hash, n: &Node) -> (r: Result<()>)
        ensures
            final(self).node_writes == if old(self).store().nodes.contains_key(h@) {
                old(self).node_writes as int
            } else {
                counted(old(self).node_writes, 1)
            },
            final(self).chunk_bytes_written == old(self).chunk_bytes_written,
    {
        let ghost o = self.store();
        if self.nodes.get(h).is_some() {
            return Ok(());
        }
        let m = n.clone();
        self.node_writes = self.node_writes.saturating_add(1);
        self.nodes.insert_new(h, m);
        proof {
            assert(self.store().nodes =~= o.nodes.insert(h@, n@));
            if sound(o) && tree_ok(o, n@) {
                lemma_sound_insert(o, self.store(), h@, n@);
            }
        }
        Ok(())
    }

    fn get_root(&self, file_id: u64) -> (r: Result<Option<(crate::hash::Hash, u64)>>) {
        broadcast use vstd::std_specs::hash::group_hash_axioms;

        match self.roots.get(&file_id) {
            Some(p) => Ok(Some(*p)),
            None => Ok(None),
        }
    }

    fn cas_root(&mut self, file_id: u64, expect: Option<&crate::hash::Hash>, new: &crate::hash::Hash) -> (r:
        Result<bool>)
        ensures
            final(self).chunk_bytes_written == old(self).chunk_bytes_written,
            final(self).node_writes == old(self).node_writes,
    {
        broadcast use vstd::std_specs::hash::group_hash_axioms;

        let ghost o = self.store();
        let cur: Option<(crate::hash::Hash, u64)> = match self.roots.get(&file_id) {
            Some(p) => Some(*p),
            None => None,
        };
        let same: bool = match (&cur, expect) {
            (Some(p), Some(h)) => same_hash(&p.0, h),
            (None, None) => true,
            _ => false,
        };
        if !same {
            assert(!expected(o, file_id, expect));
            return Ok(false);
        }
        let v: u64 = match cur {
            Some(p) => p.1,
            None => 0,
        };
        if v == u64::MAX {
            return Err(TextdbError::Storage(String::from_str("version counter exhausted")));
        }
        self.roots.insert(file_id, (*new, v + 1));
        proof {
            assert(self.store().roots =~= o.roots.insert(file_id, (new@, (v + 1) as u64)));
            if sound(o) {
                lemma_sound_chunks(o, self.store());
            }
            assert(expected(o, file_id, expect));
            assert(swapped(o, self.store(), file_id, new@));
        }
        Ok(true)
    }
}

} // verus!

//! Tree nodes and their canonical encoding.

use vstd::prelude::*;
use crate::hash::hash_node;
use vstd::bytes::*;

verus! {

/// One entry of an internal node: a child subtree (or a leaf chunk) with its totals.
#[derive(Clone, Copy, Debug, PartialEq, Eq)]
pub struct Child {
    pub hash: crate::hash::Hash,
    pub nbytes: u64,
    pub nlines: u64,
    pub is_leaf: bool,
}

/// An entry as a mathematical value.
#[verifier::ext_equal]
pub struct Entry {
    pub hash: Seq<u8>,
    pub nbytes: u64,
    pub nlines: u64,
    pub is_leaf: bool,
}

impl View for Child {
    type V = Entry;

    open spec fn view(&self) -> Entry {
        Entry {
            hash: self.hash@,
            nbytes: self.nbytes,
            nlines: self.nlines,
            is_leaf: self.is_leaf,
        }
    }
}

/// Internal node of the prolly tree. Leaves (chunks) are not nodes.
#[derive(Debug, PartialEq, Eq)]
pub struct Node {
    pub children: Vec<Child>,
}

/// The entries of a sequence of children.
pub open spec fn entries_of(children: Seq<Child>) -> Seq<Entry> {
    Seq::new(children.len(), |i: int| children[i]@)
}

impl View for Node {
    type V = Seq<Entry>;

    open spec fn view(&self) -> Seq<Entry> {
        entries_of(self.children@)
    }
}

impl Clone for Node {
    fn clone(&self) -> (r: Self)
        ensures
            r.children@ == self.children@,
            r@ == self@,
    {
        Node { children: copy_children(self.children.as_slice()) }
    }
}

/// A node without children: the root of an empty document.
impl Default for Node {
    fn default() -> (r: Self)
        ensures
            r@ == Seq::<Entry>::empty(),
    {
        let r = Node { children: Vec::new() };
        assert(r@ =~= Seq::<Entry>::empty());
        r
    }
}

pub fn copy_children(children: &[Child]) -> (out: Vec<Child>)
    ensures
        out@ == children@,
{
    let mut out: Vec<Child> = Vec::new();
    let mut i: usize = 0;
    while i < children.len()
        invariant
            i <= children@.len(),
            out@ == children@.take(i as int),
        decreases children@.len() - i,
    {
        out.push(children[i]);
        i += 1;
        assert(out@ =~= children@.take(i as int));
    }
    assert(children@.take(i as int) =~= children@);
    out
}

/// Bytes under a sequence of entries.
pub open spec fn sum_bytes(es: Seq<Entry>) -> nat
    decreases es.len(),
{
    if es.len() == 0 {
        0
    } else {
        sum_bytes(es.drop_last()) + es.last().nbytes as nat
    }
}

/// Newlines under a sequence of entries.
pub open spec fn sum_lines(es: Seq<Entry>) -> nat
    decreases es.len(),
{
    if es.len() == 0 {
        0
    } else {
        sum_lines(es.drop_last()) + es.last().nlines as nat
    }
}

pub proof fn lemma_sums_concat(a: Seq<Entry>, b: Seq<Entry>)
    ensures
        sum_bytes(a + b) == sum_bytes(a) + sum_bytes(b),
        sum_lines(a + b) == sum_lines(a) + sum_lines(b),
    decreases b.len(),
{
    if b.len() == 0 {
        assert(a + b =~= a);
    } else {
        lemma_sums_concat(a, b.drop_last());
        assert((a + b).drop_last() =~= a + b.drop_last());
    }
}

pub proof fn lemma_sums_take(es: Seq<Entry>, i: int)
    requires
        0 <= i <= es.len(),
    ensures
        sum_bytes(es.take(i)) <= sum_bytes(es),
        sum_lines(es.take(i)) <= sum_lines(es),
        i < es.len() ==> sum_bytes(es.take(i + 1)) == sum_bytes(es.take(i)) + es[i].nbytes,
        i < es.len() ==> sum_lines(es.take(i + 1)) == sum_lines(es.take(i)) + es[i].nlines,
{
    assert(es =~= es.take(i) + es.skip(i));
    lemma_sums_concat(es.take(i), es.skip(i));
    if i < es.len() {
        assert(es.take(i + 1).drop_last() =~= es.take(i));
    }
}

pub const CHILD_ENC_LEN: usize = 49;

/// `hash || nbytes_le || nlines_le || is_leaf`.
pub open spec fn encode_entry(e: Entry) -> Seq<u8> {
    e.hash + spec_u64_to_le_bytes(e.nbytes) + spec_u64_to_le_bytes(e.nlines) + seq![
        if e.is_leaf {
            1u8
        } else {
            0u8
        },
    ]
}

/// Canonical encoding: the entries' encodings one after the other.
pub open spec fn encode_entries(es: Seq<Entry>) -> Seq<u8>
    decreases es.len(),
{
    if es.len() == 0 {
        Seq::empty()
    } else {
        encode_entries(es.drop_last()) + encode_entry(es.last())
    }
}

/// Hash of a node with these children.
pub open spec fn hash_entries(es: Seq<Entry>) -> Seq<u8> {
    crate::hash::node_digest(encode_entries(es))
}

/// The entry a node with these children contributes to its parent.
pub open spec fn as_entry(es: Seq<Entry>) -> Entry {
    Entry {
        hash: hash_entries(es),
        nbytes: sum_bytes(es) as u64,
        nlines: sum_lines(es) as u64,
        is_leaf: false,
    }
}

/// Is `bytes` an encoding of a node: whole entries, each with a flag of 0 or 1?
pub open spec fn is_encoding(bytes: Seq<u8>) -> bool {
    &&& bytes.len() % 49 == 0
    &&& forall|i: int| 0 <= i < bytes.len() / 49 ==> (#[trigger] bytes[49 * i + 48]) <= 1
}

impl Node {
    pub fn new(children: Vec<Child>) -> (r: Self)
        ensures
            r.children == children,
            r@ == entries_of(children@),
    {
        Node { children }
    }

    pub fn nbytes(&self) -> (r: u64)
        requires
            sum_bytes(self@) <= u64::MAX,
        ensures
            r == sum_bytes(self@),
    {
        let mut n: u64 = 0;
        let mut i: usize = 0;
        while i < self.children.len()
            invariant
                i <= self.children@.len(),
                n == sum_bytes(self@.take(i as int)),
                sum_bytes(self@) <= u64::MAX,
            decreases self.children@.len() - i,
        {
            proof {
                lemma_sums_take(self@, i as int);
                lemma_sums_take(self@, i + 1);
            }
            n += self.children[i].nbytes;
            i += 1;
        }
        assert(self@.take(i as int) =~= self@);
        n
    }

    pub fn nlines(&self) -> (r: u64)
        requires
            sum_lines(self@) <= u64::MAX,
        ensures
            r == sum_lines(self@),
    {
        let mut n: u64 = 0;
        let mut i: usize = 0;
        while i < self.children.len()
            invariant
                i <= self.children@.len(),
                n == sum_lines(self@.take(i as int)),
                sum_lines(self@) <= u64::MAX,
            decreases self.children@.len() - i,
        {
            proof {
                lemma_sums_take(self@, i as int);
                lemma_sums_take(self@, i + 1);
            }
            n += self.children[i].nlines;
            i += 1;
        }
        assert(self@.take(i as int) =~= self@);
        n
    }

    /// Canonical encoding: concatenation of `hash || nbytes_le || nlines_le || is_leaf`.
    pub fn encode(&self) -> (out: Vec<u8>)
        ensures
            out@ == encode_entries(self@),
    {
        let mut out: Vec<u8> = Vec::new();
        let mut i: usize = 0;
        while i < self.children.len()
            invariant
                i <= self.children@.len(),
                out@ == encode_entries(self@.take(i as int)),
            decreases self.children@.len() - i,
        {
            let c = self.children[i];
            let ghost before = out@;
            out.extend_from_slice(c.hash.as_slice());
            out.extend_from_slice(u64_to_le_bytes(c.nbytes).as_slice());
            out.extend_from_slice(u64_to_le_bytes(c.nlines).as_slice());
            out.push(
                if c.is_leaf {
                    1
                } else {
                    0
                },
            );
            i += 1;
            proof {
                assert(self@.take(i as int).drop_last() =~= self@.take(i - 1));
                assert(self@.take(i as int).last() == c@);
                assert(out@ =~= before + encode_entry(c@));
            }
        }
        assert(self@.take(i as int) =~= self@);
        out
    }

    /// Read an encoding back; `None` when the bytes are not one.
    pub fn decode(bytes: &[u8]) -> (r: Option<Node>)
        ensures
            r is Some <==> is_encoding(bytes@),
            r matches Some(n) ==> encode_entries(n@) == bytes@ && n@.len() == bytes@.len() / 49,
    {
        if bytes.len() % CHILD_ENC_LEN != 0 {
            return None;
        }
        let total: usize = bytes.len();
        let count: usize = total / CHILD_ENC_LEN;
        let mut children: Vec<Child> = Vec::new();
        let mut i: usize = 0;
        assert(bytes@.take(0) =~= Seq::<u8>::empty());
        while i < count
            invariant
                i <= count,
                bytes@.len() == total == count * 49,
                children@.len() == i,
                encode_entries(entries_of(children@)) == bytes@.take(49 * i as int),
                forall|j: int| 0 <= j < i ==> (#[trigger] bytes@[49 * j + 48]) <= 1,
            decreases count - i,
        {
            let at: usize = i * CHILD_ENC_LEN;
            let flag: u8 = bytes[at + 48];
            if flag > 1 {
                assert(bytes@[49 * i + 48] > 1);
                return None;
            }
            let mut hash = [0u8; 32];
            let mut k: usize = 0;
            while k < 32
                invariant
                    k <= 32,
                    at + 49 <= bytes@.len() == total,
                    forall|j: int| 0 <= j < k ==> hash@[j] == bytes@[at + j],
                decreases 32 - k,
            {
                hash[k] = bytes[at + k];
                k += 1;
            }
            let nb = vstd::slice::slice_subrange(bytes, at + 32, at + 40);
            let nl = vstd::slice::slice_subrange(bytes, at + 40, at + 48);
            let nbytes: u64 = u64_from_le_bytes(nb);
            let nlines: u64 = u64_from_le_bytes(nl);
            let c = Child { hash, nbytes, nlines, is_leaf: flag == 1 };
            let ghost before = children@;
            children.push(c);
            i += 1;
            proof {
                lemma_auto_spec_u64_to_from_le_bytes();
                assert(entries_of(children@).drop_last() =~= entries_of(before));
                assert(nb@ =~= spec_u64_to_le_bytes(nbytes));
                assert(nl@ =~= spec_u64_to_le_bytes(nlines));
                assert(bytes@.take(49 * i as int) =~= bytes@.take(49 * (i - 1) as int) + encode_entry(c@));
            }
        }
        assert(bytes@.take(49 * i as int) =~= bytes@);
        Some(Node { children })
    }

    pub fn hash(&self) -> (r: crate::hash::Hash)
        ensures
            r@ == hash_entries(self@),
    {
        hash_node(self.encode().as_slice())
    }

    /// The entry this node contributes to its parent.
    pub fn as_child(&self) -> (r: Child)
        requires
            sum_bytes(self@) <= u64::MAX,
            sum_lines(self@) <= u64::MAX,
        ensures
            r@ == as_entry(self@),
    {
        Child { hash: self.hash(), nbytes: self.nbytes(), nlines: self.nlines(), is_leaf: false }
    }
}

pub proof fn lemma_encode_len(es: Seq<Entry>)
    requires
        forall|i: int| 0 <= i < es.len() ==> (#[trigger] es[i]).hash.len() == 32,
    ensures
        encode_entries(es).len() == 49 * es.len(),
    decreases es.len(),
{
    lemma_auto_spec_u64_to_from_le_bytes();
    if es.len() > 0 {
        lemma_encode_len(es.drop_last());
    }
}

proof fn lemma_entry_encoding_injective(a: Entry, b: Entry)
    requires
        a.hash.len() == 32,
        b.hash.len() == 32,
        encode_entry(a) == encode_entry(b),
    ensures
        a == b,
{
    lemma_auto_spec_u64_to_from_le_bytes();
    let x = encode_entry(a);
    let y = encode_entry(b);
    assert(a.hash =~= x.subrange(0, 32));
    assert(b.hash =~= y.subrange(0, 32));
    assert(spec_u64_to_le_bytes(a.nbytes) =~= x.subrange(32, 40));
    assert(spec_u64_to_le_bytes(b.nbytes) =~= y.subrange(32, 40));
    assert(spec_u64_to_le_bytes(a.nlines) =~= x.subrange(40, 48));
    assert(spec_u64_to_le_bytes(b.nlines) =~= y.subrange(40, 48));
    assert(x[48] == y[48]);
}

/// Different nodes have different encodings, so decoding an encoding gives the node back.
pub proof fn law_encoding_injective(a: Seq<Entry>, b: Seq<Entry>)
    requires
        forall|i: int| 0 <= i < a.len() ==> (#[trigger] a[i]).hash.len() == 32,
        forall|i: int| 0 <= i < b.len() ==> (#[trigger] b[i]).hash.len() == 32,
        encode_entries(a) == encode_entries(b),
    ensures
        a == b,
    decreases a.len(),
{
    lemma_encode_len(a);
    lemma_encode_len(b);
    if a.len() > 0 {
        lemma_encode_len(a.drop_last());
        lemma_encode_len(b.drop_last());
        lemma_auto_spec_u64_to_from_le_bytes();
        let x = encode_entries(a);
        let y = encode_entries(b);
        let m = 49 * (a.len() - 1);
        assert(encode_entries(a.drop_last()) =~= x.take(m));
        assert(encode_entries(b.drop_last()) =~= y.take(m));
        assert(encode_entry(a.last()) =~= x.skip(m));
        assert(encode_entry(b.last()) =~= y.skip(m));
        law_encoding_injective(a.drop_last(), b.drop_last());
        lemma_entry_encoding_injective(a.last(), b.last());
        assert(a =~= a.drop_last().push(a.last()));
        assert(b =~= b.drop_last().push(b.last()));
    } else {
        assert(a =~= b);
    }
}

/// What `encode` writes is an encoding.
pub proof fn law_encode_is_encoding(es: Seq<Entry>)
    requires
        forall|i: int| 0 <= i < es.len() ==> (#[trigger] es[i]).hash.len() == 32,
    ensures
        is_encoding(encode_entries(es)),
    decreases es.len(),
{
    lemma_encode_len(es);
    lemma_auto_spec_u64_to_from_le_bytes();
    if es.len() > 0 {
        let front = es.drop_last();
        law_encode_is_encoding(front);
        lemma_encode_len(front);
        let x = encode_entries(es);
        assert forall|i: int| 0 <= i < x.len() / 49 implies (#[trigger] x[49 * i + 48]) <= 1 by {
            if i < front.len() {
                assert(x[49 * i + 48] == encode_entries(front)[49 * i + 48]);
            } else {
                assert(i == front.len());
                assert(x[49 * i + 48] == encode_entry(es.last())[48]);
            }
        }
    }
}

} // verus!

//! Places in a text counted in bytes.

use vstd::prelude::*;
use vstd::string::*;
use vstd::utf8::*;
use crate::chunker::{lemma_newlines_concat, newlines};
use crate::tree::{line_at, starts_line};

verus! {

/// Bytes a character takes in UTF-8.
pub open spec fn char_width(c: char) -> nat {
    encode_scalar(c as u32).len()
}

/// Bytes a text takes in UTF-8.
pub open spec fn byte_len(s: Seq<char>) -> nat
    decreases s.len(),
{
    if s.len() == 0 {
        0
    } else {
        byte_len(s.drop_last()) + char_width(s.last())
    }
}

pub fn width_of(c: char) -> (n: usize)
    ensures
        n == char_width(c),
        1 <= n <= 4,
{
    proof {
        char_is_scalar(c);
    }
    let u: u32 = c as u32;
    if u <= 0x7f {
        1
    } else if u <= 0x7ff {
        2
    } else if u <= 0xffff {
        3
    } else {
        4
    }
}

pub proof fn lemma_byte_len_concat(a: Seq<char>, b: Seq<char>)
    ensures
        byte_len(a + b) == byte_len(a) + byte_len(b),
    decreases b.len(),
{
    if b.len() == 0 {
        assert(a + b =~= a);
    } else {
        assert((a + b).drop_last() =~= a + b.drop_last());
        lemma_byte_len_concat(a, b.drop_last());
    }
}

/// One more character.
pub proof fn lemma_byte_len_take(s: Seq<char>, i: int)
    requires
        0 <= i <= s.len(),
    ensures
        byte_len(s.take(i)) <= byte_len(s),
        i < s.len() ==> byte_len(s.take(i + 1)) == byte_len(s.take(i)) + char_width(s[i]),
        i < s.len() ==> byte_len(s.take(i + 1)) <= byte_len(s),
{
    assert(s =~= s.take(i) + s.skip(i));
    lemma_byte_len_concat(s.take(i), s.skip(i));
    if i < s.len() {
        assert(s.take(i + 1).drop_last() =~= s.take(i));
        assert(s =~= s.take(i + 1) + s.skip(i + 1));
        lemma_byte_len_concat(s.take(i + 1), s.skip(i + 1));
    }
}

/// The bytes of a text are as many as its characters take.
pub proof fn lemma_text_bytes(s: Seq<char>)
    ensures
        encode_utf8(s).len() == byte_len(s),
    decreases s.len(),
{
    if s.len() > 0 {
        let rest = s.drop_first();
        lemma_text_bytes(rest);
        assert(s =~= seq![s[0]] + rest);
        lemma_byte_len_concat(seq![s[0]], rest);
        reveal_with_fuel(byte_len, 2);
        assert(seq![s[0]].drop_last() =~= Seq::<char>::empty());
        assert(byte_len(seq![s[0]]) == char_width(s[0]));
    }
}

/// The number of the line that a byte is in, counted from one; behind the end, of the last.
pub open spec fn line_number(doc: Seq<u8>, off: int) -> nat {
    1 + line_at(doc, off)
}

/// Where the lines of a document begin.
pub struct LineTable {
    starts: Vec<usize>,
}

proof fn lemma_newlines_order(s: Seq<u8>, a: int, b: int)
    requires
        0 <= a <= b <= s.len(),
    ensures
        newlines(s.take(a)) <= newlines(s.take(b)),
        a < b && s[b - 1] == 10 ==> newlines(s.take(a)) < newlines(s.take(b)),
{
    assert(s.take(b) =~= s.take(a) + s.subrange(a, b));
    lemma_newlines_concat(s.take(a), s.subrange(a, b));
    if a < b && s[b - 1] == 10 {
        let t = s.subrange(a, b);
        assert(t.last() == 10);
    }
}

impl LineTable {
    /// Does the table tell where the lines of `doc` begin?
    pub closed spec fn tells(&self, doc: Seq<u8>) -> bool {
        &&& self.starts@.len() == newlines(doc) + 1
        &&& forall|k: int| 0 <= k < self.starts@.len() ==> starts_line(doc, k, #[trigger] self.starts@[k] as int)
    }

    pub fn new(doc: &[u8]) -> (r: Self)
        ensures
            r.tells(doc@),
    {
        let mut starts: Vec<usize> = Vec::new();
        starts.push(0);
        let mut i: usize = 0;
        assert(doc@.take(0) =~= Seq::empty());
        while i < doc.len()
            invariant
                i <= doc@.len(),
                starts@.len() == newlines(doc@.take(i as int)) + 1,
                forall|k: int| 0 <= k < starts@.len() ==> starts_line(doc@, k, #[trigger] starts@[k] as int),
            decreases doc@.len() - i,
        {
            proof {
                assert(doc@.take(i + 1).drop_last() =~= doc@.take(i as int));
            }
            if doc[i] == 10 {
                starts.push(i + 1);
            }
            i += 1;
        }
        assert(doc@.take(i as int) =~= doc@);
        LineTable { starts }
    }

    pub closed spec fn lines(&self) -> nat {
        self.starts@.len()
    }

    /// Where line `k`, counted from zero, begins.
    pub fn start(&self, k: usize) -> (o: usize)
        requires
            k < self.lines(),
        ensures
            forall|doc: Seq<u8>| #[trigger] self.tells(doc) ==> starts_line(doc, k as int, o as int),
    {
        self.starts[k]
    }

    /// Lines of the document; a newline at its end begins an empty one.
    pub fn count(&self) -> (n: usize)
        ensures
            n == self.lines(),
            forall|doc: Seq<u8>| #[trigger] self.tells(doc) ==> n == newlines(doc) + 1,
    {
        self.starts.len()
    }

    /// The number of the line that a byte is in, counted from one.
    pub fn line(&self, off: usize) -> (r: usize)
        ensures
            forall|doc: Seq<u8>| #[trigger] self.tells(doc) ==> r == line_number(doc, off as int),
    {
        let mut lo: usize = 0;
        let mut hi: usize = self.starts.len();
        while lo < hi
            invariant
                lo <= hi <= self.starts@.len(),
                forall|doc: Seq<u8>|
                    #![trigger self.tells(doc)]
                    self.tells(doc) ==> (forall|k: int| 0 <= k < lo ==> (#[trigger] self.starts@[k]) <= off),
                forall|doc: Seq<u8>|
                    #![trigger self.tells(doc)]
                    self.tells(doc) ==> (forall|k: int| hi <= k < self.starts@.len() ==> (#[trigger] self.starts@[k]) > off),
            decreases hi - lo,
        {
            let mid: usize = lo + (hi - lo) / 2;
            let here: usize = self.starts[mid];
            proof {
                assert forall|doc: Seq<u8>, j: int, k: int|
                    #![trigger self.tells(doc), self.starts@[j], self.starts@[k]]
                    self.tells(doc) && 0 <= j <= k < self.starts@.len() implies self.starts@[j] <= self.starts@[k] by {
                    if self.starts@[k] < self.starts@[j] {
                        assert(starts_line(doc, j, self.starts@[j] as int));
                        assert(starts_line(doc, k, self.starts@[k] as int));
                        lemma_newlines_order(doc, self.starts@[k] as int, self.starts@[j] as int);
                    }
                }
            }
            if here <= off {
                lo = mid + 1;
            } else {
                hi = mid;
            }
        }
        proof {
            assert forall|doc: Seq<u8>| #[trigger] self.tells(doc) implies lo == line_number(doc, off as int) by {
                let n = doc.len() as int;
                let at = if off > n { n } else { off as int };
                assert(starts_line(doc, 0, self.starts@[0] as int));
                if lo == 0 {
                    assert(self.starts@[0] > off);
                }
                assert(self.starts@[lo - 1] <= off);
                assert(starts_line(doc, lo - 1, self.starts@[lo - 1] as int));
                lemma_newlines_order(doc, self.starts@[lo - 1] as int, at);
                if lo < self.starts@.len() {
                    assert(self.starts@[lo as int] > off);
                    assert(starts_line(doc, lo as int, self.starts@[lo as int] as int));
                    lemma_newlines_order(doc, at, self.starts@[lo as int] as int);
                } else {
                    lemma_newlines_order(doc, at, n);
                    assert(doc.take(n) =~= doc);
                }
            }
        }
        lo
    }
}

/// The byte at which place `i` of a text is.
pub open spec fn byte_at(t: Seq<char>, i: int) -> int {
    byte_len(t.take(i)) as int
}

/// The byte offset of each place of a text, the end included.
pub(crate) fn byte_offsets(input: &str, t: &Vec<char>) -> (out: Vec<usize>)
    requires
        t@ == input@,
    ensures
        out@.len() == t@.len() + 1,
        forall|i: int| 0 <= i <= t@.len() ==> (#[trigger] out@[i]) == byte_at(t@, i),
{
    let total: usize = input.as_bytes().len();
    proof {
        lemma_text_bytes(t@);
    }
    let mut out: Vec<usize> = Vec::new();
    let mut at: usize = 0;
    let mut i: usize = 0;
    assert(t@.take(0) =~= Seq::empty());
    out.push(0);
    while i < t.len()
        invariant
            i <= t@.len(),
            total == byte_len(t@),
            out@.len() == i + 1,
            at == byte_at(t@, i as int),
            forall|k: int| 0 <= k <= i ==> (#[trigger] out@[k]) == byte_at(t@, k),
        decreases t@.len() - i,
    {
        proof {
            lemma_byte_len_take(t@, i as int);
        }
        at = at + width_of(t[i]);
        out.push(at);
        i += 1;
    }
    out
}

/// The place of a text that is at byte `b`.
pub open spec fn place_at(t: Seq<char>, b: int) -> Option<int> {
    if exists|i: int| 0 <= i <= t.len() && #[trigger] byte_at(t, i) == b {
        Some(choose|i: int| 0 <= i <= t.len() && #[trigger] byte_at(t, i) == b)
    } else {
        None
    }
}

/// Later places are at later bytes.
pub proof fn lemma_byte_at_order(t: Seq<char>, i: int, j: int)
    requires
        0 <= i < j <= t.len(),
    ensures
        byte_at(t, i) < byte_at(t, j),
    decreases j - i,
{
    lemma_byte_len_take(t, j - 1);
    char_is_scalar(t[j - 1]);
    if i < j - 1 {
        lemma_byte_at_order(t, i, j - 1);
    }
}

/// Finds the place that is at byte `b`.
pub(crate) fn find_place(t: &Vec<char>, offs: &Vec<usize>, b: usize) -> (r: Option<usize>)
    requires
        offs@.len() == t@.len() + 1,
        forall|i: int| 0 <= i <= t@.len() ==> (#[trigger] offs@[i]) == byte_at(t@, i),
    ensures
        match r {
            Some(i) => place_at(t@, b as int) == Some(i as int) && i <= t@.len() && byte_at(t@, i as int) == b,
            None => place_at(t@, b as int) is None,
        },
{
    let mut lo: usize = 0;
    let mut hi: usize = offs.len();
    while lo < hi
        invariant
            lo <= hi <= offs@.len(),
            offs@.len() == t@.len() + 1,
            forall|i: int| 0 <= i <= t@.len() ==> (#[trigger] offs@[i]) == byte_at(t@, i),
            forall|k: int| 0 <= k < lo ==> (#[trigger] offs@[k]) < b,
            forall|k: int| hi <= k < offs@.len() ==> (#[trigger] offs@[k]) > b,
        decreases hi - lo,
    {
        let mid: usize = lo + (hi - lo) / 2;
        let here: usize = offs[mid];
        proof {
            assert forall|j: int, k: int| 0 <= j < k < offs@.len() implies (#[trigger] offs@[j]) < (#[trigger] offs@[k]) by {
                lemma_byte_at_order(t@, j, k);
            }
        }
        if here == b {
            proof {
                assert(byte_at(t@, mid as int) == b);
                let p = place_at(t@, b as int)->0;
                if p < mid {
                    lemma_byte_at_order(t@, p, mid as int);
                } else if mid < p {
                    lemma_byte_at_order(t@, mid as int, p);
                }
            }
            return Some(mid);
        } else if here < b {
            lo = mid + 1;
        } else {
            hi = mid;
        }
    }
    proof {
        assert forall|i: int| 0 <= i <= t@.len() implies #[trigger] byte_at(t@, i) != b by {
            assert(offs@[i] == byte_at(t@, i));
        }
    }
    None
}

} // verus!

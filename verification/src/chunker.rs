//! Content-defined chunker: FastCDC-style gear hash with normalized chunking and a
//! forward newline snap.
//!
//! Boundaries are a pure function of the bytes from the start of the current chunk, so
//! identical content always yields identical chunks.

use vstd::prelude::*;

verus! {

/// Chunker parameters. All sizes in bytes.
#[derive(Clone, Copy, Debug, PartialEq, Eq, Structural)]
pub struct ChunkParams {
    pub min: usize,
    pub avg: usize,
    pub max: usize,
    /// Forward search distance for a `\n` after a CDC boundary.
    pub snap: usize,
}

impl ChunkParams {
    /// The parameters the chunker can work with: the masks fit the upper half of a word,
    /// every chunk makes progress, and the lookahead is a size.
    pub open spec fn valid(&self) -> bool {
        &&& 1 <= self.mask_bits() <= 23
        &&& self.max >= 1
        &&& self.max + self.snap <= usize::MAX
    }

    /// The number of low zero bits of `avg`, from which both masks are made.
    pub open spec fn mask_bits(&self) -> int {
        vstd::std_specs::bits::u64_trailing_zeros(self.avg as u64) as int
    }

    /// Number of bytes that must be available past a chunk start for a boundary
    /// decision to be final when more input may follow.
    pub fn lookahead(&self) -> (r: usize)
        requires
            self.max + self.snap <= usize::MAX,
        ensures
            r == self.max + self.snap,
    {
        self.max + self.snap
    }

    fn bits(&self) -> (r: u32)
        ensures
            r == self.mask_bits(),
    {
        (self.avg as u64).trailing_zeros()
    }

    /// Mask used before `avg` (more bits set: harder to hit).
    pub fn mask_s(&self) -> (r: u64)
        requires
            self.valid(),
        ensures
            r == mask_of(self.mask_bits() + 1),
    {
        spread_mask(self.bits() + 1)
    }

    /// Mask used after `avg` (fewer bits set: easier to hit).
    pub fn mask_l(&self) -> (r: u64)
        requires
            self.valid(),
        ensures
            r == mask_of(self.mask_bits() - 1),
    {
        spread_mask(self.bits() - 1)
    }
}

impl Default for ChunkParams {
    fn default() -> (r: Self)
        ensures
            r == (ChunkParams { min: 512, avg: 1024, max: 4096, snap: 256 }),
            r.valid(),
    {
        proof {
            vstd::std_specs::bits::axiom_u64_trailing_zeros(1024);
            let z = vstd::std_specs::bits::u64_trailing_zeros(1024) as u64;
            assert(z < 64 && (1024u64 >> z) & 1u64 == 1u64 ==> z == 10) by (bit_vector);
        }
        ChunkParams { min: 512, avg: 1024, max: 4096, snap: 256 }
    }
}

/// `k` bits, every second one from bit 16 up.
pub open spec fn mask_of(k: int) -> u64
    decreases k,
{
    if k <= 0 {
        0
    } else {
        mask_of(k - 1) | (1u64 << ((16 + 2 * (k - 1)) as u64))
    }
}

/// `k` mask bits spread over the upper half of the word, where the gear hash mixes best.
pub fn spread_mask(k: u32) -> (r: u64)
    requires
        k <= 24,
    ensures
        r == mask_of(k as int),
{
    let mut m: u64 = 0;
    let mut j: u32 = 0;
    while j < k
        invariant
            j <= k <= 24,
            m == mask_of(j as int),
        decreases k - j,
    {
        let at: u64 = 16 + 2 * (j as u64);
        m = m | (1u64 << at);
        j = j + 1;
    }
    m
}

pub open spec fn splitmix_spec(x: u64) -> u64 {
    let a = x.wrapping_add(0x9E3779B97F4A7C15);
    let b = (a ^ (a >> 30)).wrapping_mul(0xBF58476D1CE4E5B9);
    let c = (b ^ (b >> 27)).wrapping_mul(0x94D049BB133111EB);
    c ^ (c >> 31)
}

/// One step of the splitmix64 generator.
pub fn splitmix64(x: u64) -> (r: u64)
    ensures
        r == splitmix_spec(x),
{
    let a: u64 = x.wrapping_add(0x9E3779B97F4A7C15);
    let b: u64 = (a ^ (a >> 30)).wrapping_mul(0xBF58476D1CE4E5B9);
    let c: u64 = (b ^ (b >> 27)).wrapping_mul(0x94D049BB133111EB);
    c ^ (c >> 31)
}

/// The gear value of a byte; part of the stored format (changing it changes every root).
#[verifier::opaque]
pub open spec fn gear_of(b: u8) -> u64 {
    splitmix_spec(0x7465787464622d67 ^ (b as u64))
}

/// The fixed random table: one gear value per byte.
pub fn gear_table() -> (t: [u64; 256])
    ensures
        forall|i: int| 0 <= i < 256 ==> t[i] == #[trigger] gear_of(i as u8),
{
    let mut t = [0u64; 256];
    let mut i: usize = 0;
    while i < 256
        invariant
            i <= 256,
            forall|j: int| 0 <= j < i ==> t[j] == #[trigger] gear_of(j as u8),
        decreases 256 - i,
    {
        t[i] = gear(i as u8);
        i = i + 1;
    }
    t
}

/// Rolling gear hash of `s[lo..hi]`.
pub open spec fn gear_hash(s: Seq<u8>, lo: int, hi: int) -> u64
    decreases hi - lo,
{
    if hi <= lo {
        0
    } else {
        (gear_hash(s, lo, hi - 1) << 1).wrapping_add(gear_of(s[hi - 1]))
    }
}

/// Does a chunk of `s` want to end after byte `i`?
pub open spec fn wants_cut(p: ChunkParams, s: Seq<u8>, i: int) -> bool {
    let mask = if i < p.avg {
        mask_of(p.mask_bits() + 1)
    } else {
        mask_of(p.mask_bits() - 1)
    };
    gear_hash(s, p.min as int, i + 1) & mask == 0
}

/// The end of the first byte from `i` on after which the chunk wants to end, or `limit`.
pub open spec fn first_cut(p: ChunkParams, s: Seq<u8>, i: int, limit: int) -> int
    decreases limit - i,
{
    if i >= limit {
        limit
    } else if wants_cut(p, s, i) {
        i + 1
    } else {
        first_cut(p, s, i + 1, limit)
    }
}

pub open spec fn min_int(a: int, b: int) -> int {
    if a <= b {
        a
    } else {
        b
    }
}

/// The boundary before the newline snap: content-defined, at most `max`.
pub open spec fn raw_cut(p: ChunkParams, s: Seq<u8>) -> int {
    first_cut(p, s, p.min as int, min_int(s.len() as int, p.max as int))
}

/// Index of the first newline of `s[i..end]`.
pub open spec fn first_newline(s: Seq<u8>, i: int, end: int) -> Option<int>
    decreases end - i,
{
    if i >= end {
        None
    } else if s[i] == 10 {
        Some(i)
    } else {
        first_newline(s, i + 1, end)
    }
}

/// A boundary moved forward to just after the next newline within `snap` bytes.
pub open spec fn snapped(p: ChunkParams, s: Seq<u8>, b: int) -> int {
    match first_newline(s, b, min_int(b + p.snap, s.len() as int)) {
        Some(j) => j + 1,
        None => b,
    }
}

/// Length of the first chunk of `s`, the whole rest of a document.
pub open spec fn cut_len(p: ChunkParams, s: Seq<u8>) -> int {
    if s.len() <= p.min {
        s.len() as int
    } else {
        snapped(p, s, raw_cut(p, s))
    }
}

/// The chunks of a document.
pub open spec fn chunks_of(p: ChunkParams, s: Seq<u8>) -> Seq<Seq<u8>>
    decreases s.len(),
{
    let c = cut_len(p, s);
    if s.len() == 0 {
        Seq::empty()
    } else if c < 1 || c >= s.len() {
        seq![s]
    } else {
        seq![s.take(c)] + chunks_of(p, s.skip(c))
    }
}

proof fn lemma_first_cut_bounds(p: ChunkParams, s: Seq<u8>, i: int, limit: int)
    ensures
        first_cut(p, s, i, limit) <= limit,
        i < limit ==> first_cut(p, s, i, limit) > i,
        i >= limit ==> first_cut(p, s, i, limit) == limit,
    decreases limit - i,
{
    if i < limit && !wants_cut(p, s, i) {
        lemma_first_cut_bounds(p, s, i + 1, limit);
    }
}

proof fn lemma_first_newline_bounds(s: Seq<u8>, i: int, end: int)
    ensures
        first_newline(s, i, end) matches Some(j) ==> i <= j < end && s[j] == 10,
        first_newline(s, i, end) is None ==> forall|j: int| i <= j < end ==> s[j] != 10,
    decreases end - i,
{
    if i < end && s[i] != 10 {
        lemma_first_newline_bounds(s, i + 1, end);
    }
}

/// Every chunk makes progress, stays within the document, and is at most `max + snap`
/// long once the rest is longer than `min`; one that is not the last is longer than `min`
/// or at least `max` long.
pub proof fn law_cut_bounds(p: ChunkParams, s: Seq<u8>)
    requires
        p.valid(),
        s.len() > 0,
    ensures
        1 <= cut_len(p, s) <= s.len(),
        s.len() > p.min ==> cut_len(p, s) <= p.max + p.snap,
        cut_len(p, s) < s.len() ==> cut_len(p, s) > p.min || cut_len(p, s) >= p.max,
{
    if s.len() > p.min {
        let limit = min_int(s.len() as int, p.max as int);
        lemma_first_cut_bounds(p, s, p.min as int, limit);
        let b = raw_cut(p, s);
        lemma_first_newline_bounds(s, b, min_int(b + p.snap, s.len() as int));
    }
}

/// A chunk that is not the last ends with a line, unless no line ends within `snap` bytes behind it.
pub proof fn law_cut_snaps_to_line(p: ChunkParams, s: Seq<u8>)
    requires
        p.valid(),
        s.len() > p.min,
    ensures
        ({
            let c = cut_len(p, s);
            s[c - 1] == 10 || forall|k: int| c <= k < s.len() && k < c + p.snap ==> s[k] != 10
        }),
{
    let limit = min_int(s.len() as int, p.max as int);
    lemma_first_cut_bounds(p, s, p.min as int, limit);
    let b = raw_cut(p, s);
    lemma_first_newline_bounds(s, b, min_int(b + p.snap, s.len() as int));
}

proof fn lemma_gear_hash_local(s: Seq<u8>, t: Seq<u8>, lo: int, hi: int)
    requires
        0 <= lo,
        hi <= s.len(),
        hi <= t.len(),
        s.take(hi) == t.take(hi),
    ensures
        gear_hash(s, lo, hi) == gear_hash(t, lo, hi),
    decreases hi - lo,
{
    if lo < hi {
        assert(s.take(hi - 1) =~= s.take(hi).take(hi - 1));
        assert(t.take(hi - 1) =~= t.take(hi).take(hi - 1));
        lemma_gear_hash_local(s, t, lo, hi - 1);
        assert(s[hi - 1] == s.take(hi)[hi - 1]);
        assert(t[hi - 1] == t.take(hi)[hi - 1]);
    }
}

proof fn lemma_first_cut_local(p: ChunkParams, s: Seq<u8>, t: Seq<u8>, i: int, ls: int, lt: int, m: int)
    requires
        p.min <= i,
        0 <= m <= s.len(),
        m <= t.len(),
        s.take(m) == t.take(m),
        ls <= s.len(),
        lt <= t.len(),
        first_cut(p, s, i, ls) <= m,
        m <= lt,
        first_cut(p, s, i, ls) < ls || ls == lt,
    ensures
        first_cut(p, t, i, lt) == first_cut(p, s, i, ls),
    decreases ls - i,
{
    lemma_first_cut_bounds(p, s, i, ls);
    if i < ls {
        assert(s.take(i + 1) =~= s.take(m).take(i + 1));
        assert(t.take(i + 1) =~= t.take(m).take(i + 1));
        lemma_gear_hash_local(s, t, p.min as int, i + 1);
        assert(wants_cut(p, s, i) == wants_cut(p, t, i));
        if !wants_cut(p, s, i) {
            lemma_first_cut_local(p, s, t, i + 1, ls, lt, m);
        }
    }
}

proof fn lemma_first_newline_local(s: Seq<u8>, t: Seq<u8>, i: int, end: int)
    requires
        0 <= i,
        end <= s.len(),
        end <= t.len(),
        s.take(end) == t.take(end),
    ensures
        first_newline(s, i, end) == first_newline(t, i, end),
    decreases end - i,
{
    if i < end {
        assert(s[i] == s.take(end)[i]);
        assert(t[i] == t.take(end)[i]);
        lemma_first_newline_local(s, t, i + 1, end);
    }
}

/// A cut depends on nothing past `snap` bytes after the boundary it snapped from: texts
/// that agree that far are cut alike.
pub proof fn lemma_cut_local(p: ChunkParams, s: Seq<u8>, t: Seq<u8>, m: int)
    requires
        p.valid(),
        s.len() > p.min,
        t.len() > p.min,
        0 <= m <= s.len(),
        m <= t.len(),
        s.take(m) == t.take(m),
        raw_cut(p, s) + p.snap <= m,
        raw_cut(p, s) < s.len() || s.len() >= p.max,
    ensures
        cut_len(p, t) == cut_len(p, s),
        raw_cut(p, t) == raw_cut(p, s),
{
    let b = raw_cut(p, s);
    let ls = min_int(s.len() as int, p.max as int);
    let lt = min_int(t.len() as int, p.max as int);
    lemma_first_cut_bounds(p, s, p.min as int, ls);
    assert(s.take(b) =~= s.take(m).take(b));
    assert(t.take(b) =~= t.take(m).take(b));
    lemma_first_cut_local(p, s, t, p.min as int, ls, lt, b);
    let e = b + p.snap;
    assert(s.take(e) =~= s.take(m).take(e));
    assert(t.take(e) =~= t.take(m).take(e));
    lemma_first_newline_local(s, t, b, e);
}

/// A cut decided on `max + snap` bytes is the cut of the whole rest of the document.
pub proof fn law_cut_incremental(p: ChunkParams, s: Seq<u8>, m: int)
    requires
        p.valid(),
        p.max + p.snap <= m <= s.len(),
        m > p.min,
    ensures
        cut_len(p, s.take(m)) == cut_len(p, s),
{
    let ls = min_int(s.len() as int, p.max as int);
    lemma_first_cut_bounds(p, s, p.min as int, ls);
    assert(s.take(m).take(m) =~= s.take(m));
    lemma_cut_local(p, s, s.take(m), m);
}

/// Decide the length of the chunk starting at `buf[0]`.
///
/// Returns `None` when the decision cannot be final yet: `eof` is false and fewer than
/// `params.lookahead()` bytes are available. When `eof` is true the whole buffer is
/// the tail of the document and a decision is always returned (possibly `buf.len()`).
pub fn cut(params: &ChunkParams, buf: &[u8], eof: bool) -> (r: Option<usize>)
    requires
        params.valid(),
    ensures
        r == if !eof && (buf@.len() < params.max + params.snap || buf@.len() <= params.min) {
            None
        } else {
            Some(cut_len(*params, buf@) as usize)
        },
        r matches Some(n) ==> n == cut_len(*params, buf@) && n <= buf@.len() && (buf@.len() > 0
            ==> n > 0),
{
    let n: usize = buf.len();
    proof {
        if n > 0 {
            law_cut_bounds(*params, buf@);
        }
    }
    if !eof && n < params.lookahead() {
        return None;
    }
    if n <= params.min {
        return if eof {
            Some(n)
        } else {
            None
        };
    }
    let limit: usize = if n <= params.max {
        n
    } else {
        params.max
    };
    let mask_s: u64 = params.mask_s();
    let mask_l: u64 = params.mask_l();
    let mut h: u64 = 0;
    let mut i: usize = params.min;
    while i < limit
        invariant
            params.valid(),
            params.min < n,
            n == buf@.len(),
            eof || n >= params.max + params.snap,
            limit == min_int(n as int, params.max as int),
            params.min <= i,
            i <= limit || i == params.min,
            mask_s == mask_of(params.mask_bits() + 1),
            mask_l == mask_of(params.mask_bits() - 1),
            h == gear_hash(buf@, params.min as int, i as int),
            raw_cut(*params, buf@) == first_cut(*params, buf@, i as int, limit as int),
        decreases limit - i,
    {
        h = (h << 1).wrapping_add(gear(buf[i]));
        let mask: u64 = if i < params.avg {
            mask_s
        } else {
            mask_l
        };
        if h & mask == 0 {
            return Some(snap(params, buf, i + 1));
        }
        i += 1;
    }
    if limit == n && eof {
        // Reached the end of the document before max: the rest is one chunk.
        return Some(n);
    }
    Some(snap(params, buf, limit))
}

/// The gear value of one byte.
pub fn gear(b: u8) -> (r: u64)
    ensures
        r == gear_of(b),
{
    proof {
        reveal(gear_of);
    }
    splitmix64(0x7465787464622d67 ^ (b as u64))
}

/// Move a boundary forward to just after the next `\n` if one occurs within `snap` bytes.
fn snap(params: &ChunkParams, buf: &[u8], boundary: usize) -> (r: usize)
    requires
        boundary <= buf@.len(),
        boundary + params.snap <= usize::MAX,
    ensures
        r == snapped(*params, buf@, boundary as int),
        boundary <= r <= buf@.len(),
{
    let end: usize = if boundary + params.snap <= buf.len() {
        boundary + params.snap
    } else {
        buf.len()
    };
    let mut i: usize = boundary;
    while i < end
        invariant
            boundary <= i <= end <= buf@.len(),
            first_newline(buf@, boundary as int, end as int) == first_newline(
                buf@,
                i as int,
                end as int,
            ),
            end == min_int(boundary + params.snap, buf@.len() as int),
        decreases end - i,
    {
        if buf[i] == 10 {
            return i + 1;
        }
        i += 1;
    }
    boundary
}

/// Chunk a complete buffer into `(start, len)` pairs.
pub fn chunk_all(params: &ChunkParams, bytes: &[u8]) -> (out: Vec<(usize, usize)>)
    requires
        params.valid(),
    ensures
        out@.len() == chunks_of(*params, bytes@).len(),
        spans_cover(out@, bytes@.len() as int),
        forall|i: int|
            0 <= i < out@.len() ==> bytes@.subrange(
                (#[trigger] out@[i]).0 as int,
                out@[i].0 + out@[i].1,
            ) == chunks_of(*params, bytes@)[i],
{
    let mut out: Vec<(usize, usize)> = Vec::new();
    let mut pos: usize = 0;
    let ghost all = chunks_of(*params, bytes@);
    assert(bytes@.skip(0) =~= bytes@);
    while pos < bytes.len()
        invariant
            params.valid(),
            pos <= bytes@.len(),
            all == chunks_of(*params, bytes@),
            spans_cover(out@, pos as int),
            all.len() == out@.len() + chunks_of(*params, bytes@.skip(pos as int)).len(),
            all.skip(out@.len() as int) == chunks_of(*params, bytes@.skip(pos as int)),
            forall|i: int|
                0 <= i < out@.len() ==> bytes@.subrange(
                    (#[trigger] out@[i]).0 as int,
                    out@[i].0 + out@[i].1,
                ) == all[i],
        decreases bytes@.len() - pos,
    {
        let ghost rest = bytes@.skip(pos as int);
        let tail = vstd::slice::slice_subrange(bytes, pos, bytes.len());
        assert(tail@ =~= rest);
        let len: usize = cut(params, tail, true).unwrap();
        proof {
            let c = len as int;
            assert(rest.skip(c) =~= bytes@.skip(pos + c));
            let first = if c >= rest.len() {
                rest
            } else {
                rest.take(c)
            };
            assert(first =~= bytes@.subrange(pos as int, pos + c));
            assert(all[out@.len() as int] == all.skip(out@.len() as int)[0]);
            assert(all[out@.len() as int] == first);
            assert(all.skip(out@.len() as int + 1) =~= all.skip(out@.len() as int).skip(1));
            if c >= rest.len() {
                assert(all.skip(out@.len() as int + 1) =~= chunks_of(*params, rest.skip(c)));
            } else {
                assert(all.skip(out@.len() as int + 1) =~= chunks_of(*params, rest.skip(c)));
            }
        }
        out.push((pos, len));
        pos += len;
    }
    out
}

/// The spans follow one another from 0 to `len`, none of them empty.
pub open spec fn spans_cover(spans: Seq<(usize, usize)>, len: int) -> bool {
    &&& spans.len() == 0 ==> len == 0
    &&& spans.len() > 0 ==> spans[0].0 == 0 && spans.last().0 + spans.last().1 == len
    &&& forall|i: int| 0 <= i < spans.len() ==> (#[trigger] spans[i]).1 > 0 && spans[i].0 + spans[i].1 <= len
    &&& forall|i: int, j: int| 0 <= i && j == i + 1 && j < spans.len() ==> #[trigger] spans[i].0 + spans[i].1 == (#[trigger] spans[j]).0
}

/// Number of newlines in `s`.
pub open spec fn newlines(s: Seq<u8>) -> nat
    decreases s.len(),
{
    if s.len() == 0 {
        0
    } else {
        newlines(s.drop_last()) + if s.last() == 10 {
            1nat
        } else {
            0nat
        }
    }
}

pub proof fn lemma_newlines_concat(a: Seq<u8>, b: Seq<u8>)
    ensures
        newlines(a + b) == newlines(a) + newlines(b),
    decreases b.len(),
{
    if b.len() == 0 {
        assert(a + b =~= a);
    } else {
        lemma_newlines_concat(a, b.drop_last());
        assert((a + b).drop_last() =~= a + b.drop_last());
    }
}

pub proof fn lemma_newlines_bound(s: Seq<u8>)
    ensures
        newlines(s) <= s.len(),
    decreases s.len(),
{
    if s.len() > 0 {
        lemma_newlines_bound(s.drop_last());
    }
}

pub fn count_newlines(bytes: &[u8]) -> (r: u64)
    ensures
        r == newlines(bytes@),
{
    let mut n: u64 = 0;
    let mut i: usize = 0;
    while i < bytes.len()
        invariant
            i <= bytes@.len(),
            n == newlines(bytes@.take(i as int)),
            n <= i,
        decreases bytes@.len() - i,
    {
        proof {
            assert(bytes@.take(i + 1).drop_last() =~= bytes@.take(i as int));
        }
        if bytes[i] == 10 {
            n += 1;
        }
        i += 1;
    }
    assert(bytes@.take(i as int) =~= bytes@);
    n
}

/// The bytes of a sequence of chunks, one after the other.
pub open spec fn joined(chunks: Seq<Seq<u8>>) -> Seq<u8>
    decreases chunks.len(),
{
    if chunks.len() == 0 {
        Seq::empty()
    } else {
        chunks[0] + joined(chunks.skip(1))
    }
}

/// The chunks of a document put together are the document, and none of them is empty.
pub proof fn law_chunks_cover(p: ChunkParams, s: Seq<u8>)
    requires
        p.valid(),
    ensures
        joined(chunks_of(p, s)) == s,
        forall|i: int| 0 <= i < chunks_of(p, s).len() ==> (#[trigger] chunks_of(p, s)[i]).len() > 0,
    decreases s.len(),
{
    if s.len() > 0 {
        law_cut_bounds(p, s);
        let c = cut_len(p, s);
        if c >= s.len() {
            assert(seq![s].skip(1) =~= Seq::empty());
            reveal_with_fuel(joined, 2);
            assert(joined(seq![s]) =~= s);
        } else {
            law_chunks_cover(p, s.skip(c));
            let rest = chunks_of(p, s.skip(c));
            assert((seq![s.take(c)] + rest).skip(1) =~= rest);
            assert(s.take(c) + s.skip(c) =~= s);
            assert forall|i: int| 0 <= i < chunks_of(p, s).len() implies (#[trigger] chunks_of(p, s)[i]).len() > 0 by {
                if i > 0 {
                    assert(chunks_of(p, s)[i] == rest[i - 1]);
                }
            }
        }
    }
}

pub proof fn lemma_joined_push(cs: Seq<Seq<u8>>, c: Seq<u8>)
    ensures
        joined(cs.push(c)) == joined(cs) + c,
    decreases cs.len(),
{
    if cs.len() == 0 {
        reveal_with_fuel(joined, 2);
        assert(cs.push(c).skip(1) =~= Seq::empty());
        assert(joined(cs.push(c)) =~= c);
        assert(joined(cs) + c =~= c);
    } else {
        lemma_joined_push(cs.skip(1), c);
        assert(cs.push(c).skip(1) =~= cs.skip(1).push(c));
        assert(joined(cs.push(c)) =~= joined(cs) + c);
    }
}

/// Where the chunk with index `j` begins.
pub open spec fn chunk_start(chunks: Seq<Seq<u8>>, j: int) -> int {
    joined(chunks.take(j)).len() as int
}

pub proof fn lemma_joined_concat(a: Seq<Seq<u8>>, b: Seq<Seq<u8>>)
    ensures
        joined(a + b) == joined(a) + joined(b),
    decreases a.len(),
{
    if a.len() == 0 {
        assert(a + b =~= b);
        assert(joined(a) + joined(b) =~= joined(b));
    } else {
        lemma_joined_concat(a.skip(1), b);
        assert((a + b).skip(1) =~= a.skip(1) + b);
        assert(joined(a + b) =~= joined(a) + joined(b));
    }
}

/// From one of its boundaries on, a document is chunked as if it began there.
pub proof fn lemma_chunks_suffix(p: ChunkParams, s: Seq<u8>, j: int)
    requires
        p.valid(),
        0 <= j <= chunks_of(p, s).len(),
    ensures
        0 <= chunk_start(chunks_of(p, s), j) <= s.len(),
        chunks_of(p, s.skip(chunk_start(chunks_of(p, s), j))) == chunks_of(p, s).skip(j),
        j < chunks_of(p, s).len() ==> chunk_start(chunks_of(p, s), j) < s.len(),
    decreases j,
{
    let cs = chunks_of(p, s);
    law_chunks_cover(p, s);
    if j == 0 {
        assert(cs.take(0) =~= Seq::empty());
        assert(s.skip(0) =~= s);
        assert(cs.skip(0) =~= cs);
    } else {
        law_cut_bounds(p, s);
        let c = cut_len(p, s);
        let rest = s.skip(c);
        if c >= s.len() {
            assert(cs.take(j) =~= cs);
            assert(s.skip(s.len() as int) =~= Seq::empty());
            assert(cs.skip(j) =~= Seq::empty());
        } else {
            let ds = chunks_of(p, rest);
            lemma_chunks_suffix(p, rest, j - 1);
            assert(cs.take(j).skip(1) =~= ds.take(j - 1));
            assert(cs.take(j)[0] == s.take(c));
            assert(chunk_start(cs, j) == c + chunk_start(ds, j - 1));
            assert(s.skip(chunk_start(cs, j)) =~= rest.skip(chunk_start(ds, j - 1)));
            assert(cs.skip(j) =~= ds.skip(j - 1));
        }
    }
}

/// Chunks that end at least `snap` bytes before the first difference of two documents are
/// the same in both.
pub proof fn lemma_chunks_prefix(p: ChunkParams, s: Seq<u8>, t: Seq<u8>, m: int, i: int)
    requires
        p.valid(),
        p.min < p.max,
        0 <= m <= s.len(),
        m <= t.len(),
        s.take(m) == t.take(m),
        0 <= i < chunks_of(p, s).len(),
        i > 0 ==> chunk_start(chunks_of(p, s), i) + p.snap <= m,
    ensures
        0 <= chunk_start(chunks_of(p, s), i) <= t.len(),
        chunks_of(p, t) == chunks_of(p, s).take(i) + chunks_of(p, t.skip(chunk_start(chunks_of(p, s), i))),
    decreases i,
{
    let cs = chunks_of(p, s);
    if i == 0 {
        assert(cs.take(0) =~= Seq::empty());
        assert(t.skip(0) =~= t);
        assert(cs.take(0) + chunks_of(p, t) =~= chunks_of(p, t));
    } else {
        lemma_chunks_suffix(p, s, i);
        law_cut_bounds(p, s);
        let c = cut_len(p, s);
        assert(c < s.len());
        let rest = s.skip(c);
        let ds = chunks_of(p, rest);
        assert(cs.take(i).skip(1) =~= ds.take(i - 1));
        assert(cs.take(i)[0] == s.take(c));
        assert(chunk_start(cs, i) == c + chunk_start(ds, i - 1));
        let b = raw_cut(p, s);
        let limit = min_int(s.len() as int, p.max as int);
        lemma_first_cut_bounds(p, s, p.min as int, limit);
        lemma_first_newline_bounds(s, b, min_int(b + p.snap, s.len() as int));
        assert(b <= c);
        lemma_cut_local(p, s, t, m);
        assert(rest.take(m - c) =~= s.take(m).skip(c));
        assert(t.skip(c).take(m - c) =~= t.take(m).skip(c));
        lemma_chunks_prefix(p, rest, t.skip(c), m - c, i - 1);
        assert(t.skip(c).skip(chunk_start(ds, i - 1)) =~= t.skip(chunk_start(cs, i)));
        assert(t.take(c) =~= t.take(m).take(c));
        assert(s.take(c) =~= s.take(m).take(c));
        let tail = chunks_of(p, t.skip(chunk_start(cs, i)));
        if c >= t.len() {
            assert(t.skip(c) =~= Seq::empty());
            assert(ds.take(i - 1) + tail =~= Seq::empty());
            assert(t.take(c) =~= t);
        }
        assert(chunks_of(p, t) =~= seq![t.take(c)] + chunks_of(p, t.skip(c)));
        assert(cs.take(i) =~= seq![s.take(c)] + ds.take(i - 1));
        assert(seq![s.take(c)] + (ds.take(i - 1) + tail) =~= cs.take(i) + tail);
    }
}

} // verus!

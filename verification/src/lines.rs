//! Lines of a byte string, and numbers that stand for equal lines.

use std::collections::HashMap;
use vstd::prelude::*;
use crate::chunker::{first_newline, joined};
use crate::text::same_bytes;

verus! {

/// Length of the first line, its newline included.
pub open spec fn line_len(s: Seq<u8>) -> int {
    match first_newline(s, 0, s.len() as int) {
        Some(i) => i + 1,
        None => s.len() as int,
    }
}

/// The lines of `s`, each with its trailing newline if it has one.
pub open spec fn lines_of(s: Seq<u8>) -> Seq<Seq<u8>>
    decreases s.len(),
{
    let n = line_len(s);
    if s.len() == 0 {
        Seq::empty()
    } else if n < 1 || n >= s.len() {
        seq![s]
    } else {
        seq![s.take(n)] + lines_of(s.skip(n))
    }
}

/// The bytes of some slices.
pub open spec fn slice_views(v: Seq<&[u8]>) -> Seq<Seq<u8>> {
    Seq::new(v.len(), |i: int| v[i]@)
}

proof fn lemma_line_len(s: Seq<u8>, i: int)
    ensures
        first_newline(s, i, s.len() as int) matches Some(j) ==> i <= j < s.len() && s[j] == 10 && forall|k: int|
            i <= k < j ==> s[k] != 10,
        first_newline(s, i, s.len() as int) is None ==> forall|k: int| i <= k < s.len() ==> s[k] != 10,
    decreases s.len() - i,
{
    if i < s.len() && s[i] != 10 {
        lemma_line_len(s, i + 1);
    }
}

/// The first line of a text that is not empty.
pub proof fn lemma_first_line(s: Seq<u8>)
    requires
        s.len() > 0,
    ensures
        0 < line_len(s) <= s.len(),
        forall|k: int| 0 <= k < line_len(s) - 1 ==> s[k] != 10,
        line_len(s) < s.len() ==> s[line_len(s) - 1] == 10,
        lines_of(s) == (if line_len(s) == s.len() {
            seq![s]
        } else {
            seq![s.take(line_len(s))] + lines_of(s.skip(line_len(s)))
        }),
{
    lemma_line_len(s, 0);
}

/// The lines put together are the text; every one but the last ends in a newline, and no
/// line holds another.
pub proof fn lemma_lines(s: Seq<u8>)
    ensures
        joined(lines_of(s)) == s,
        lines_of(s).len() <= s.len(),
        forall|i: int| 0 <= i < lines_of(s).len() ==> is_line(#[trigger] lines_of(s)[i]),
        forall|i: int| 0 <= i < lines_of(s).len() - 1 ==> (#[trigger] lines_of(s)[i]).last() == 10,
    decreases s.len(),
{
    if s.len() > 0 {
        lemma_line_len(s, 0);
        let n = line_len(s);
        if n >= s.len() {
            assert(s.take(n) =~= s);
            reveal_with_fuel(joined, 2);
            assert(seq![s].skip(1) =~= Seq::empty());
            assert(joined(seq![s]) =~= s);
        } else {
            let rest = s.skip(n);
            lemma_lines(rest);
            let all = lines_of(s);
            assert(all.skip(1) =~= lines_of(rest));
            assert(s.take(n) + rest =~= s);
            assert forall|i: int| 0 <= i < all.len() implies is_line(#[trigger] all[i]) by {
                if i > 0 {
                    assert(all[i] == lines_of(rest)[i - 1]);
                }
            }
            assert forall|i: int| 0 <= i < all.len() - 1 implies (#[trigger] all[i]).last() == 10 by {
                if i > 0 {
                    assert(all[i] == lines_of(rest)[i - 1]);
                }
            }
        }
    }
}

/// A line: not empty, with a newline nowhere but at its end.
pub open spec fn is_line(l: Seq<u8>) -> bool {
    l.len() > 0 && forall|k: int| 0 <= k < l.len() - 1 ==> l[k] != 10
}

/// Split bytes into lines, each including its trailing `\n` if present.
pub fn split_lines<'a>(bytes: &'a [u8]) -> (out: Vec<&'a [u8]>)
    ensures
        slice_views(out@) == lines_of(bytes@),
{
    let mut out: Vec<&'a [u8]> = Vec::new();
    let total: usize = bytes.len();
    let mut start: usize = 0;
    let mut i: usize = 0;
    let ghost all = lines_of(bytes@);
    assert(bytes@.skip(0) =~= bytes@);
    assert(slice_views(out@) + all =~= all);
    while i < total
        invariant
            start <= i <= total == bytes@.len(),
            all == lines_of(bytes@),
            slice_views(out@) + lines_of(bytes@.skip(start as int)) == all,
            forall|k: int| start <= k < i ==> bytes@[k] != 10,
        decreases total - i,
    {
        if bytes[i] == 10 {
            let line = vstd::slice::slice_subrange(bytes, start, i + 1);
            let ghost rest = bytes@.skip(start as int);
            let ghost before = out@;
            out.push(line);
            proof {
                lemma_line_len(rest, 0);
                let n = line_len(rest);
                assert(rest[i - start] == 10);
                assert(n == i + 1 - start);
                assert(line@ =~= rest.take(n));
                assert(rest.skip(n) =~= bytes@.skip(i + 1));
                assert(slice_views(out@) =~= slice_views(before).push(line@));
                if n >= rest.len() {
                    assert(rest.take(n) =~= rest);
                    assert(bytes@.skip(i + 1) =~= Seq::empty());
                }
                assert(lines_of(rest) =~= seq![line@] + lines_of(bytes@.skip(i + 1)));
                assert(slice_views(out@) + lines_of(bytes@.skip(i + 1)) =~= slice_views(before) + lines_of(rest));
            }
            start = i + 1;
        }
        i += 1;
    }
    if start < total {
        let line = vstd::slice::slice_subrange(bytes, start, total);
        let ghost rest = bytes@.skip(start as int);
        let ghost before = out@;
        out.push(line);
        proof {
            lemma_line_len(rest, 0);
            if let Some(j) = first_newline(rest, 0, rest.len() as int) {
                assert(bytes@[start + j] == 10);
            }
            assert(line@ =~= rest);
            assert(slice_views(out@) =~= slice_views(before).push(line@));
            assert(lines_of(rest) =~= seq![line@]);
            assert(slice_views(out@) =~= all);
        }
    } else {
        proof {
            assert(bytes@.skip(start as int) =~= Seq::empty());
            assert(slice_views(out@) =~= all);
        }
    }
    out
}

/// Items are equal exactly where their numbers are.
pub open spec fn numbered(ids: Seq<u64>, items: Seq<Seq<u8>>, reps: Seq<Seq<u8>>) -> bool {
    &&& ids.len() == items.len()
    &&& forall|i: int| 0 <= i < ids.len() ==> 0 <= #[trigger] ids[i] < reps.len() && reps[ids[i] as int] == items[i]
    &&& forall|i: int, j: int| 0 <= i < j < reps.len() ==> #[trigger] reps[i] != #[trigger] reps[j]
}

/// Numbers items by first occurrence.
struct Interner<'a> {
    reps: Vec<&'a [u8]>,
    index: HashMap<u64, Vec<usize>>,
}

/// A bucket number: FNV-1a over the bytes.
spec fn bucket_of(s: Seq<u8>) -> u64
    decreases s.len(),
{
    if s.len() == 0 {
        0xcbf29ce484222325
    } else {
        (bucket_of(s.drop_last()) ^ (s.last() as u64)).wrapping_mul(0x100000001b3)
    }
}

fn bucket(s: &[u8]) -> (h: u64)
    ensures
        h == bucket_of(s@),
{
    let mut h: u64 = 0xcbf29ce484222325;
    let mut i: usize = 0;
    assert(s@.take(0) =~= Seq::empty());
    while i < s.len()
        invariant
            i <= s@.len(),
            h == bucket_of(s@.take(i as int)),
        decreases s@.len() - i,
    {
        proof {
            assert(s@.take(i + 1).drop_last() =~= s@.take(i as int));
        }
        h = (h ^ (s[i] as u64)).wrapping_mul(0x100000001b3);
        i += 1;
    }
    assert(s@.take(i as int) =~= s@);
    h
}

spec fn bucketed(index: Map<u64, Vec<usize>>, k: u64, i: int) -> bool {
    index.contains_key(k) && exists|j: int| 0 <= j < index[k]@.len() && index[k]@[j] == i
}

impl<'a> Interner<'a> {
    spec fn ok(self) -> bool {
        let reps = slice_views(self.reps@);
        &&& forall|i: int, j: int| 0 <= i < j < reps.len() ==> #[trigger] reps[i] != #[trigger] reps[j]
        &&& forall|i: int| 0 <= i < reps.len() ==> #[trigger] bucketed(self.index@, bucket_of(reps[i]), i)
    }

    /// The number of an item, new if it was not seen before.
    fn number(&mut self, item: &'a [u8]) -> (id: u64)
        requires
            old(self).ok(),
        ensures
            final(self).ok(),
            id < final(self).reps@.len(),
            slice_views(final(self).reps@)[id as int] == item@,
            slice_views(old(self).reps@).is_prefix_of(slice_views(final(self).reps@)),
    {
        broadcast use vstd::std_specs::hash::group_hash_axioms;

        let ghost reps = slice_views(self.reps@);
        let ghost m0 = self.index@;
        let k: u64 = bucket(item);
        let mut list: Vec<usize> = match self.index.remove(&k) {
            Some(l) => l,
            None => Vec::new(),
        };
        let ghost l0 = list@;
        let mut j: usize = 0;
        while j < list.len()
            invariant
                j <= list@.len(),
                list@ == l0,
                reps == slice_views(self.reps@),
                self.index@ == m0.remove(k),
                m0.contains_key(k) ==> m0[k]@ == l0,
                !m0.contains_key(k) ==> l0.len() == 0,
                k == bucket_of(item@),
                old(self).ok(),
                old(self).index@ == m0,
                slice_views(old(self).reps@) == reps,
                forall|i: int| 0 <= i < j && list@[i] < reps.len() ==> reps[(#[trigger] list@[i]) as int] != item@,
            decreases list@.len() - j,
        {
            broadcast use vstd::std_specs::hash::group_hash_axioms;

            let at: usize = list[j];
            if at < self.reps.len() && same_bytes(self.reps[at], item) {
                self.index.insert(k, list);
                proof {
                    assert forall|i: int| 0 <= i < reps.len() implies #[trigger] bucketed(
                        self.index@,
                        bucket_of(reps[i]),
                        i,
                    ) by {
                        assert(bucketed(m0, bucket_of(reps[i]), i));
                        let ki = bucket_of(reps[i]);
                        let x = choose|x: int| 0 <= x < m0[ki]@.len() && m0[ki]@[x] == i;
                        assert(self.index@[ki]@[x] == i);
                    }
                }
                return at as u64;
            }
            j += 1;
        }
        let id: usize = self.reps.len();
        list.push(id);
        let ghost l1 = list@;
        self.index.insert(k, list);
        self.reps.push(item);
        proof {
            let reps1 = slice_views(self.reps@);
            assert(reps1 =~= reps.push(item@));
            assert forall|i: int| 0 <= i < reps.len() implies reps[i] != item@ by {
                if reps[i] == item@ {
                    assert(bucketed(m0, bucket_of(reps[i]), i));
                    let x = choose|x: int| 0 <= x < m0[k]@.len() && m0[k]@[x] == i;
                    assert(l0[x] == i);
                }
            }
            assert forall|i: int, y: int| 0 <= i < y < reps1.len() implies #[trigger] reps1[i] != #[trigger] reps1[y] by {
                if y < reps.len() {
                    assert(reps[i] != reps[y]);
                }
            }
            assert forall|i: int| 0 <= i < reps1.len() implies #[trigger] bucketed(self.index@, bucket_of(reps1[i]), i) by {
                let ki = bucket_of(reps1[i]);
                if i < reps.len() {
                    assert(reps1[i] == reps[i]);
                    assert(bucketed(m0, bucket_of(reps[i]), i));
                    let x = choose|x: int| 0 <= x < m0[ki]@.len() && m0[ki]@[x] == i;
                    assert(self.index@[ki]@[x] == i);
                } else {
                    assert(self.index@[k]@[l0.len() as int] == i);
                }
            }
        }
        id as u64
    }

    fn number_all(&mut self, items: &Vec<&'a [u8]>) -> (ids: Vec<u64>)
        requires
            old(self).ok(),
        ensures
            final(self).ok(),
            numbered(ids@, slice_views(items@), slice_views(final(self).reps@)),
            slice_views(old(self).reps@).is_prefix_of(slice_views(final(self).reps@)),
    {
        let mut ids: Vec<u64> = Vec::new();
        let mut i: usize = 0;
        let ghost views = slice_views(items@);
        while i < items.len()
            invariant
                i <= items@.len(),
                views == slice_views(items@),
                self.ok(),
                ids@.len() == i,
                slice_views(old(self).reps@).is_prefix_of(slice_views(self.reps@)),
                forall|k: int|
                    0 <= k < i ==> 0 <= #[trigger] ids@[k] < self.reps@.len() && slice_views(self.reps@)[ids@[k] as int]
                        == views[k],
            decreases items@.len() - i,
        {
            let ghost before = slice_views(self.reps@);
            let id: u64 = self.number(items[i]);
            ids.push(id);
            proof {
                let after = slice_views(self.reps@);
                assert forall|k: int| 0 <= k < i + 1 implies 0 <= #[trigger] ids@[k] < self.reps@.len() && after[ids@[k] as int]
                    == views[k] by {
                    if k < i {
                        assert(before[ids@[k] as int] == views[k]);
                        assert(after.take(before.len() as int)[ids@[k] as int] == before[ids@[k] as int]);
                    }
                }
            }
            i += 1;
        }
        ids
    }
}

/// Number the items of two sequences: an item of either equals one of the other, or of its
/// own, exactly where the numbers do.
pub fn number_items<'a>(a: &Vec<&'a [u8]>, b: &Vec<&'a [u8]>) -> (r: (Vec<u64>, Vec<u64>))
    ensures
        r.0@.len() == a@.len(),
        r.1@.len() == b@.len(),
        forall|i: int, j: int|
            0 <= i < a@.len() && 0 <= j < b@.len() ==> (#[trigger] r.0@[i] == #[trigger] r.1@[j] <==> slice_views(
                a@,
            )[i] == slice_views(b@)[j]),
{
    broadcast use vstd::std_specs::hash::group_hash_axioms;

    let mut t = Interner { reps: Vec::new(), index: HashMap::new() };
    let x = t.number_all(a);
    let ghost reps1 = slice_views(t.reps@);
    let y = t.number_all(b);
    proof {
        let reps2 = slice_views(t.reps@);
        let va = slice_views(a@);
        let vb = slice_views(b@);
        assert forall|i: int, j: int| 0 <= i < a@.len() && 0 <= j < b@.len() implies (#[trigger] x@[i]
            == #[trigger] y@[j] <==> va[i] == vb[j]) by {
            assert(reps1[x@[i] as int] == va[i]);
            assert(reps2.take(reps1.len() as int)[x@[i] as int] == reps1[x@[i] as int]);
            assert(reps2[y@[j] as int] == vb[j]);
            let p = x@[i] as int;
            let q = y@[j] as int;
            if p < q {
                assert(reps2[p] != reps2[q]);
            } else if q < p {
                assert(reps2[q] != reps2[p]);
            }
        }
    }
    (x, y)
}

} // verus!

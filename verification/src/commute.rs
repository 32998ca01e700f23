//! Edits of different lines can be committed in either order.

use vstd::prelude::*;
use crate::chunker::{
    chunk_start, chunks_of, cut_len, first_newline, joined, law_chunks_cover, law_cut_bounds, lemma_joined_concat,
    lemma_newlines_concat, min_int, raw_cut, ChunkParams,
};
use crate::commit::{commit_done, commit_owed, lemma_tree_kept, CommitKind, Committed};
use crate::diff::{
    all_refined, coarse_runs, edit_runs, law_runs_turn, lemma_coarse_joints, lemma_run_inside, lemma_same_leaf, refined,
    run_joined, runs_between, runs_turn, same_leaf,
};
use crate::edit::{leaf_start, lemma_starts_agree, Edit};
use crate::linelaw::{aligned, lemma_lines_between, lemma_lines_concat, lines_before};
use crate::lines::{is_line, lemma_first_line, lemma_lines, line_len, lines_of};
use crate::model::{doc, grows, law_documents_are_kept, sound, tree_ok, Store};
use crate::myers::{
    common_suffix_len, corner, law_no_diff, lemma_diff_behind, lemma_diff_of, lemma_diff_of_one, lemma_suffix,
    lemma_suffix_at_least, lemma_text_hunks, lemma_trimmed, lemma_turns_fit, shorter, text_hunks, trimmed, HunkView,
    MAX_LINE_EDITS,
};
use crate::node::sum_bytes;
use crate::patch::{edit_views, edits_between, forward, hunk_edits, lemma_edited_forward, EditView};
use crate::rebase::{
    hit, hit_span, law_rebase_commutes, lemma_carried, lemma_one_edit, lemma_with_both, meets, one_edit, rebase_result,
    shifted_edit, shifted_edits, with_both,
};
use crate::regions::line_end;
use crate::rootlaw::lemma_held_leaves;
use crate::storage::{root_of, version_of};
use crate::tree::{canonical, clip, doc_leaves, law_history_independent, leaf_entries, lemma_doc_sums, line_at};

verus! {

/// No line is longer than `n` bytes.
pub open spec fn short_lines(s: Seq<u8>, n: int) -> bool {
    forall|i: int| 0 <= i < lines_of(s).len() ==> (#[trigger] lines_of(s)[i]).len() <= n
}

/// No two lines are alike.
pub open spec fn distinct_lines(s: Seq<u8>) -> bool {
    forall|i: int, j: int|
        0 <= i < lines_of(s).len() && 0 <= j < lines_of(s).len() && lines_of(s)[i] == lines_of(s)[j] ==> i == j
}

/// One of the `n` bytes from `b` on is a newline.
spec fn newline_near(s: Seq<u8>, b: int, n: int) -> bool {
    exists|k: int| b <= k < b + n && k < s.len() && #[trigger] s[k] == 10
}

/// There is no newline from `b` to `e`.
spec fn no_newline(s: Seq<u8>, b: int, e: int) -> bool {
    forall|k: int| b <= k < e ==> #[trigger] s[k] != 10
}

/// Where a line goes on for `n` bytes, it ends there, and what ends in a newline ends within `n`
/// bytes.
spec fn short_bytes(s: Seq<u8>, n: int) -> bool {
    &&& forall|b: int| 0 <= b && b + n < s.len() ==> #[trigger] newline_near(s, b, n)
    &&& forall|b: int, k: int| 0 <= b <= k < s.len() && s[k] == 10 ==> #[trigger] newline_near(s, b, n) || !(#[trigger] s[k] == 10)
}

proof fn lemma_short_bytes(s: Seq<u8>, n: int)
    requires
        short_lines(s, n),
        n >= 0,
    ensures
        short_bytes(s, n),
    decreases s.len(),
{
    if s.len() > 0 {
        lemma_first_line(s);
        let m = line_len(s);
        let rest = s.skip(m);
        if m < s.len() {
            assert(lines_of(s)[0] == s.take(m));
            assert forall|i: int| 0 <= i < lines_of(rest).len() implies (#[trigger] lines_of(rest)[i]).len() <= n by {
                assert(lines_of(s)[i + 1] == lines_of(rest)[i]);
            }
            lemma_short_bytes(rest, n);
        } else {
            assert(lines_of(s)[0] == s);
        }
        assert forall|b: int| 0 <= b && b + n < s.len() implies #[trigger] newline_near(s, b, n) by {
            if b < m {
                assert(s[m - 1] == 10);
            } else {
                assert(newline_near(rest, b - m, n));
                let k = choose|k: int| b - m <= k < b - m + n && k < rest.len() && #[trigger] rest[k] == 10;
                assert(s[m + k] == rest[k]);
            }
        }
        assert forall|b: int, k: int| 0 <= b <= k < s.len() && s[k] == 10 implies #[trigger] newline_near(s, b, n) || !(
        #[trigger] s[k] == 10) by {
            if b < m {
                if m == s.len() {
                    assert(k == m - 1);
                }
                assert(s[m - 1] == 10);
            } else {
                assert(rest[k - m] == s[k]);
                assert(newline_near(rest, b - m, n) || !(rest[k - m] == 10));
                let j = choose|j: int| b - m <= j < b - m + n && j < rest.len() && #[trigger] rest[j] == 10;
                assert(s[m + j] == rest[j]);
            }
        }
    }
}

/// A line with its newline.
spec fn whole(s: Seq<u8>, c: int, d: int) -> bool {
    &&& 0 <= c < d <= s.len()
    &&& c == 0 || s[c - 1] == 10
    &&& s[d - 1] == 10
    &&& no_newline(s, c, d - 1)
}

/// Lines with their newlines are at different places only if they differ.
proof fn lemma_distinct(s: Seq<u8>, c: int, d: int, e: int, f: int)
    requires
        distinct_lines(s),
        whole(s, c, d),
        whole(s, e, f),
        s.subrange(c, d) == s.subrange(e, f),
    ensures
        c == e,
{
    lemma_whole(s, c, d);
    lemma_whole(s, e, f);
}

proof fn lemma_whole(s: Seq<u8>, c: int, d: int)
    requires
        whole(s, c, d),
    ensures
        0 <= lines_before(s, c) < lines_of(s).len(),
        lines_of(s)[lines_before(s, c)] == s.subrange(c, d),
        chunk_start(lines_of(s), lines_before(s, c)) == c,
{
    lemma_lines_between(s, c, d);
    lemma_lines_between(s, 0, c);
    let l = s.subrange(c, d);
    lemma_first_line(l);
    let m = line_len(l);
    if m < l.len() {
        assert(l[m - 1] == s[c + m - 1]);
    }
    assert(lines_of(l) == seq![l]);
    let i = lines_before(s, c);
    assert(lines_of(s).subrange(i, lines_before(s, d))[0] == lines_of(s)[i]);
    assert(s.subrange(0, c) =~= s.take(c));
    assert(s.take(0) =~= Seq::empty());
    lemma_lines(s.take(c));
    assert(lines_of(s).subrange(0, i) =~= lines_of(s).take(i));
}

/// Where a line ends.
proof fn lemma_end(s: Seq<u8>, x: int)
    requires
        0 <= x < s.len(),
    ensures
        x < line_end(s, x) <= s.len(),
        no_newline(s, x, line_end(s, x) - 1),
        s[line_end(s, x) - 1] == 10 || line_end(s, x) == s.len(),
    decreases s.len() - x,
{
    if s[x] != 10 && x + 1 < s.len() {
        lemma_end(s, x + 1);
    } else if s[x] != 10 {
        assert(line_end(s, x + 1) == s.len());
    }
}

proof fn lemma_end_near(s: Seq<u8>, x: int, n: int)
    requires
        0 <= x < s.len(),
        newline_near(s, x, n),
    ensures
        x < line_end(s, x) <= x + n,
        line_end(s, x) <= s.len(),
        s[line_end(s, x) - 1] == 10,
        no_newline(s, x, line_end(s, x) - 1),
{
    lemma_end(s, x);
    let k = choose|k: int| x <= k < x + n && k < s.len() && #[trigger] s[k] == 10;
    assert(s[k] == 10);
    if line_end(s, x) - 1 > k {
        assert(s[k] != 10);
    }
}

/// The second text has another line `[lo, end)` where the first has its line `[lo, hi)`.
pub open spec fn line_swapped(s: Seq<u8>, t: Seq<u8>, lo: int, hi: int, end: int) -> bool {
    &&& 0 <= lo < hi <= s.len()
    &&& lo <= end <= t.len()
    &&& s.take(lo) == t.take(lo)
    &&& s.skip(hi) == t.skip(end)
    &&& lo == 0 || s[lo - 1] == 10
    &&& forall|k: int| lo <= k < hi - 1 ==> #[trigger] s[k] != 10
    &&& forall|k: int| lo <= k < end - 1 ==> #[trigger] t[k] != 10
    &&& hi < s.len() ==> s[hi - 1] == 10
    &&& s[hi - 1] == 10 <==> end > lo && t[end - 1] == 10
    &&& s.subrange(lo, hi) != t.subrange(lo, end)
}

/// The line that is another in the second text ends the first, without a newline.
pub open spec fn open_end(s: Seq<u8>, hi: int) -> bool {
    hi == s.len() && s[hi - 1] != 10
}

spec fn from_head(s: Seq<u8>, lo: int, hi: int, x1: int, x2: int, y1: int) -> bool {
    x1 == y1 && (x2 <= lo || open_end(s, hi))
}

spec fn from_tail(s: Seq<u8>, t: Seq<u8>, lo: int, x: int, y: int) -> bool {
    s.len() - x == t.len() - y && lo <= x && lo <= y
}

/// A place where a chunk of the first text may begin: a line, or behind all newlines.
spec fn cut_place(s: Seq<u8>, x: int) -> bool {
    0 <= x <= s.len() && (x == 0 || s[x - 1] == 10 || no_newline(s, x, s.len() as int))
}

/// Bytes that the texts share and that are more than two lines: they stand as far from the
/// beginnings of the texts, or from the ends.
#[verifier::rlimit(60)]
proof fn lemma_long_pair(
    s: Seq<u8>,
    t: Seq<u8>,
    lo: int,
    hi: int,
    end: int,
    n: int,
    x1: int,
    x2: int,
    y1: int,
    y2: int,
)
    requires
        line_swapped(s, t, lo, hi, end),
        short_bytes(s, n),
        distinct_lines(s),
        0 <= x1 < x2 <= s.len(),
        0 <= y1 < y2 <= t.len(),
        s.subrange(x1, x2) == t.subrange(y1, y2),
        cut_place(s, x1),
        cut_place(s, x2),
        y1 < lo ==> y1 == 0 || t[y1 - 1] == 10,
        x2 - x1 > 2 * n,
    ensures
        from_head(s, lo, hi, x1, x2, y1) || from_tail(s, t, lo, x1, y1),
{
    let g = y1 - x1;
    assert(s.subrange(x1, x2).len() == x2 - x1);
    assert(t.subrange(y1, y2).len() == y2 - y1);
    assert forall|k: int| x1 <= k < x2 implies #[trigger] s[k] == t[k + g] by {
        assert(s.subrange(x1, x2)[k - x1] == s[k]);
        assert(t.subrange(y1, y2)[k - x1] == t[k + g]);
    }
    assert forall|k: int| y1 <= k < y2 implies #[trigger] t[k] == s[k - g] by {
        assert(s[k - g] == t[k - g + g]);
    }
    assert(newline_near(s, x1, n));
    lemma_end_near(s, x1, n);
    let c1 = line_end(s, x1);
    assert(newline_near(s, c1, n));
    lemma_end_near(s, c1, n);
    let c2 = line_end(s, c1);
    let w = c2 - c1;
    let u = c1 + g;
    assert(s[c1 - 1] == 10);
    assert(x1 == 0 || s[x1 - 1] == 10);
    assert(whole(s, x1, c1));
    assert(whole(s, c1, c2));
    assert(whole(t, u, u + w)) by {
        assert(t[u - 1] == s[c1 - 1]);
        assert(t[u + w - 1] == s[c2 - 1]);
        assert forall|k: int| u <= k < u + w - 1 implies #[trigger] t[k] != 10 by {
            assert(t[k] == s[k - g]);
        }
    }
    lemma_prefix_alike(s, t, lo);
    if u < lo {
        lemma_pair_head(s, t, lo, hi, end, x1, x2, g, c1, w);
    } else if u == lo {
        lemma_pair_middle(s, t, lo, hi, end, x1, x2, g, c1, w);
    } else {
        lemma_pair_tail(s, t, lo, hi, end, x1, x2, g, c1, w);
    }
}

proof fn lemma_prefix_alike(s: Seq<u8>, t: Seq<u8>, lo: int)
    requires
        0 <= lo <= s.len(),
        lo <= t.len(),
        s.take(lo) == t.take(lo),
    ensures
        forall|k: int| 0 <= k < lo ==> #[trigger] s[k] == t[k],
{
    assert forall|k: int| 0 <= k < lo implies #[trigger] s[k] == t[k] by {
        assert(s.take(lo)[k] == s[k]);
        assert(t.take(lo)[k] == t[k]);
    }
}

/// What is alike from place to place.
spec fn alike_at(s: Seq<u8>, t: Seq<u8>, x1: int, x2: int, g: int) -> bool {
    forall|k: int| x1 <= k < x2 ==> #[trigger] s[k] == t[k + g]
}

proof fn lemma_pair_head(s: Seq<u8>, t: Seq<u8>, lo: int, hi: int, end: int, x1: int, x2: int, g: int, c1: int, w: int)
    requires
        line_swapped(s, t, lo, hi, end),
        distinct_lines(s),
        0 <= x1 < c1 < c1 + w < x2 <= s.len(),
        x2 + g <= t.len(),
        alike_at(s, t, x1, x2, g),
        cut_place(s, x2),
        whole(s, c1, c1 + w),
        whole(t, c1 + g, c1 + g + w),
        c1 + g < lo,
    ensures
        g == 0,
        x2 <= lo || open_end(s, hi),
{
    lemma_prefix_alike(s, t, lo);
    let u = c1 + g;
    assert(t[lo - 1] == s[lo - 1]);
    assert(u + w <= lo);
    assert(whole(s, u, u + w)) by {
        assert forall|k: int| u <= k < u + w - 1 implies #[trigger] s[k] != 10 by {
            assert(s[k] == t[k]);
        }
        assert(s[u + w - 1] == t[u + w - 1]);
        if u > 0 {
            assert(s[u - 1] == t[u - 1]);
        }
    }
    assert(s.subrange(c1, c1 + w) =~= s.subrange(u, u + w)) by {
        assert forall|k: int| 0 <= k < w implies #[trigger] s.subrange(c1, c1 + w)[k] == s.subrange(u, u + w)[k] by {
            assert(s[c1 + k] == t[c1 + k + g]);
            assert(s[u + k] == t[u + k]);
        }
    }
    lemma_distinct(s, c1, c1 + w, u, u + w);
    if x2 > lo && !open_end(s, hi) {
        assert(s[hi - 1] == 10);
        assert(x2 >= hi) by {
            if x2 < hi {
                assert(s[x2 - 1] != 10);
                assert(no_newline(s, x2, s.len() as int));
            }
        }
        assert(t[hi - 1] == s[hi - 1]) by {
            assert(s[hi - 1] == t[hi - 1 + g]);
        }
        if hi < end {
            assert(t[hi - 1] != 10);
        }
        if end < hi {
            assert(s[end - 1] == t[end - 1 + g]);
            assert(s[end - 1] != 10);
        }
        assert(s.subrange(lo, hi) =~= t.subrange(lo, end)) by {
            assert forall|k: int| lo <= k < hi implies #[trigger] s[k] == t[k] by {
                assert(s[k] == t[k + g]);
            }
        }
    }
}

proof fn lemma_pair_middle(s: Seq<u8>, t: Seq<u8>, lo: int, hi: int, end: int, x1: int, x2: int, g: int, c1: int, w: int)
    requires
        line_swapped(s, t, lo, hi, end),
        distinct_lines(s),
        0 <= x1 < c1 < c1 + w < x2 <= s.len(),
        0 <= x1 + g,
        x2 + g <= t.len(),
        alike_at(s, t, x1, x2, g),
        whole(s, x1, c1),
        whole(s, c1, c1 + w),
        whole(t, c1 + g, c1 + g + w),
        x1 + g < lo ==> x1 + g == 0 || t[x1 + g - 1] == 10,
    ensures
        c1 + g != lo,
{
    if c1 + g == lo {
        lemma_pair_middle_at(s, t, lo, hi, end, x1, x2, g, c1, w);
    }
}

proof fn lemma_pair_middle_at(s: Seq<u8>, t: Seq<u8>, lo: int, hi: int, end: int, x1: int, x2: int, g: int, c1: int, w: int)
    requires
        line_swapped(s, t, lo, hi, end),
        distinct_lines(s),
        0 <= x1 < c1 < c1 + w < x2 <= s.len(),
        0 <= x1 + g,
        x2 + g <= t.len(),
        alike_at(s, t, x1, x2, g),
        whole(s, x1, c1),
        whole(s, c1, c1 + w),
        whole(t, c1 + g, c1 + g + w),
        c1 + g == lo,
        x1 + g == 0 || t[x1 + g - 1] == 10,
    ensures
        s.subrange(lo, hi) == t.subrange(lo, end),
{
    lemma_prefix_alike(s, t, lo);
    let y1 = x1 + g;
    assert(whole(s, y1, lo)) by {
        assert forall|k: int| y1 <= k < lo - 1 implies #[trigger] s[k] != 10 by {
            assert(s[k] == t[k]);
            assert(s[k - g] == t[k - g + g]);
        }
        assert(s[lo - 1] == t[lo - 1]);
        assert(s[c1 - 1] == t[c1 - 1 + g]);
        if y1 > 0 {
            assert(s[y1 - 1] == t[y1 - 1]);
        }
    }
    assert(s.subrange(x1, c1) =~= s.subrange(y1, lo)) by {
        assert forall|k: int| 0 <= k < c1 - x1 implies #[trigger] s.subrange(x1, c1)[k] == s.subrange(y1, lo)[k] by {
            assert(s[x1 + k] == t[x1 + k + g]);
            assert(s[y1 + k] == t[y1 + k]);
        }
    }
    lemma_distinct(s, x1, c1, y1, lo);
    assert(g == 0 && c1 == lo);
    let c2 = c1 + w;
    assert(s[c2 - 1] == 10);
    assert(c2 >= hi);
    assert(c2 == hi) by {
        if hi < c2 {
            assert(s[hi - 1] != 10);
        }
    }
    assert(t[c2 - 1] == 10);
    assert(c2 >= end);
    if end < c2 {
        assert(t[end - 1] != 10);
    }
    assert(s.subrange(lo, hi) =~= t.subrange(lo, end)) by {
        assert forall|k: int| lo <= k < hi implies #[trigger] s[k] == t[k] by {
            assert(s[k] == t[k + g]);
        }
    }
}

proof fn lemma_pair_tail(s: Seq<u8>, t: Seq<u8>, lo: int, hi: int, end: int, x1: int, x2: int, g: int, c1: int, w: int)
    requires
        line_swapped(s, t, lo, hi, end),
        distinct_lines(s),
        0 <= x1 < c1 < c1 + w < x2 <= s.len(),
        0 <= x1 + g,
        x2 + g <= t.len(),
        alike_at(s, t, x1, x2, g),
        whole(s, x1, c1),
        whole(s, c1, c1 + w),
        whole(t, c1 + g, c1 + g + w),
        c1 + g > lo,
    ensures
        from_tail(s, t, lo, x1, x1 + g),
{
    lemma_prefix_alike(s, t, lo);
    let u = c1 + g;
    assert(t[u - 1] == 10);
    assert(u >= end);
    let c = u - end + hi;
    assert(s.skip(hi).len() == t.skip(end).len());
    assert forall|k: int| end <= k < t.len() implies #[trigger] t[k] == s[k - end + hi] by {
        assert(s.skip(hi)[k - end] == t.skip(end)[k - end]);
    }
    assert(whole(s, c, c + w)) by {
        assert forall|k: int| c <= k < c + w - 1 implies #[trigger] s[k] != 10 by {
            assert(t[k - hi + end] == s[k]);
        }
        assert(t[u + w - 1] == s[c + w - 1]);
        if u > end {
            assert(t[u - 1] == s[c - 1]);
        } else {
            assert(hi < s.len());
        }
    }
    assert(s.subrange(c1, c1 + w) =~= s.subrange(c, c + w)) by {
        assert forall|k: int| 0 <= k < w implies #[trigger] s.subrange(c1, c1 + w)[k] == s.subrange(c, c + w)[k] by {
            assert(s[c1 + k] == t[c1 + k + g]);
            assert(t[u + k] == s[u + k - end + hi]);
        }
    }
    lemma_distinct(s, c1, c1 + w, c, c + w);
    assert(c1 == c);
    if x1 < lo {
        assert(s[lo - 1] == 10);
        assert(s[lo - 1] != 10);
    }
    if x1 + g < lo {
        assert(t[lo - 1] == s[lo - 1]);
        assert(s[lo - 1 - g] == t[lo - 1 - g + g]);
        assert(s[lo - 1 - g] != 10);
    }
}

/// The ends of the texts, where they are alike.
proof fn lemma_last_pair(s: Seq<u8>, t: Seq<u8>, lo: int, hi: int, end: int, x1: int, y1: int)
    requires
        line_swapped(s, t, lo, hi, end),
        0 <= x1 < s.len(),
        0 <= y1 < t.len(),
        s.skip(x1) == t.skip(y1),
    ensures
        from_tail(s, t, lo, x1, y1),
{
    lemma_prefix_alike(s, t, lo);
    let g = y1 - x1;
    assert(s.skip(x1).len() == s.len() - x1);
    assert(t.skip(y1).len() == t.len() - y1);
    assert(s.skip(hi).len() == s.len() - hi);
    assert(t.skip(end).len() == t.len() - end);
    assert(g == end - hi);
    assert forall|k: int| x1 <= k < s.len() implies #[trigger] s[k] == t[k + g] by {
        assert(s.skip(x1)[k - x1] == s[k]);
        assert(t.skip(y1)[k - x1] == t[k + g]);
    }
    if x1 < lo || y1 < lo {
        assert(lo > 0);
        assert(s[lo - 1] == 10 && t[lo - 1] == 10);
        if g > 0 {
            assert(x1 < lo);
            assert(s[lo - 1] == t[lo - 1 + g]);
            assert(t[lo - 1 + g] != 10);
        } else if g == 0 {
            assert(s.subrange(lo, hi) =~= t.subrange(lo, end)) by {
                assert forall|k: int| lo <= k < hi implies #[trigger] s[k] == t[k] by {
                    assert(s[k] == t[k + g]);
                }
            }
        } else {
            assert(y1 < lo);
            let q = lo - 1 - g;
            assert(s[q] == t[q + g]);
            if end > lo {
                assert(s[q] != 10);
            }
        }
    }
}

proof fn lemma_first_newline(s: Seq<u8>, i: int, end: int)
    ensures
        first_newline(s, i, end) matches Some(j) ==> i <= j < end && s[j] == 10,
        first_newline(s, i, end) is None ==> no_newline(s, i, end),
    decreases end - i,
{
    if i < end && s[i] != 10 {
        lemma_first_newline(s, i + 1, end);
    }
}

/// A place where a chunk may begin: a line, or where no newline is in sight.
spec fn chunk_place(p: ChunkParams, s: Seq<u8>, x: int) -> bool {
    &&& 0 <= x <= s.len()
    &&& x == 0 || x == s.len() || s[x - 1] == 10 || no_newline(s, x, min_int(x + p.snap, s.len() as int))
}

/// Where chunks begin, and how long each but the last is.
proof fn lemma_chunk_places(p: ChunkParams, s: Seq<u8>, j: int)
    requires
        p.valid(),
        p.min < p.max,
        0 <= j <= chunks_of(p, s).len(),
    ensures
        chunk_place(p, s, chunk_start(chunks_of(p, s), j)),
        j + 1 < chunks_of(p, s).len() ==> chunk_start(chunks_of(p, s), j + 1) - chunk_start(chunks_of(p, s), j) > p.min,
        j == chunks_of(p, s).len() ==> chunk_start(chunks_of(p, s), j) == s.len(),
    decreases s.len(),
{
    let cs = chunks_of(p, s);
    law_chunks_cover(p, s);
    assert(cs.take(cs.len() as int) =~= cs);
    assert(cs.take(0) =~= Seq::empty());
    if s.len() > 0 && cs.len() > 1 {
        law_cut_bounds(p, s);
        let c = cut_len(p, s);
        assert(c < s.len());
        let b = raw_cut(p, s);
        let end = min_int(b + p.snap, s.len() as int);
        lemma_first_newline(s, b, end);
        let rest = s.skip(c);
        let more = chunks_of(p, rest);
        let one = seq![s.take(c)];
        assert(cs == one + more);
        reveal_with_fuel(joined, 2);
        assert(one.skip(1) =~= Seq::empty());
        assert(joined(one) =~= s.take(c));
        if j > 0 {
            lemma_chunk_places(p, rest, j - 1);
            lemma_behind_one(one, more, j - 1);
            if j + 1 < cs.len() {
                lemma_behind_one(one, more, j);
            }
            let o = chunk_start(more, j - 1);
            if 0 < o && o < rest.len() {
                assert(rest[o - 1] == s[c + o - 1]);
                if no_newline(rest, o, min_int(o + p.snap, rest.len() as int)) {
                    assert forall|k: int| c + o <= k < min_int(c + o + p.snap, s.len() as int) implies #[trigger] s[k] != 10 by {
                        assert(s[k] == rest[k - c]);
                    }
                }
            }
        } else {
            lemma_behind_one(one, more, 0);
            assert(more.take(0) =~= Seq::empty());
        }
    }
}

proof fn lemma_behind_one(one: Seq<Seq<u8>>, more: Seq<Seq<u8>>, j: int)
    requires
        one.len() == 1,
        0 <= j <= more.len(),
    ensures
        chunk_start(one + more, j + 1) == joined(one).len() + chunk_start(more, j),
{
    assert((one + more).take(j + 1) =~= one + more.take(j));
    lemma_joined_concat(one, more.take(j));
}

/// A document of lines of at most `n` bytes, stored as its text determines. Two such lines fit the
/// smallest chunk, and the chunker finds the end of one from anywhere in it.
pub open spec fn short_document(st: Store, p: ChunkParams, root: Seq<u8>, n: int) -> bool {
    &&& st.nodes.contains_key(root)
    &&& canonical(st, p, root, doc(st, root))
    &&& short_lines(doc(st, root), n)
    &&& 0 <= n <= p.snap
    &&& 2 * n <= p.min < p.max
}

/// The leaves of a document are its chunks.
proof fn lemma_leaves(st: Store, p: ChunkParams, root: Seq<u8>, j: int)
    requires
        sound(st),
        p.valid(),
        p.min < p.max,
        st.nodes.contains_key(root),
        canonical(st, p, root, doc(st, root)),
        0 <= j <= doc_leaves(st, st.nodes[root]).len(),
    ensures
        ({
            let row = doc_leaves(st, st.nodes[root]);
            let s = doc(st, root);
            &&& chunk_place(p, s, leaf_start(row, j))
            &&& j + 1 < row.len() ==> leaf_start(row, j + 1) - leaf_start(row, j) > p.min
            &&& j == row.len() ==> leaf_start(row, j) == s.len()
        }),
{
    let s = doc(st, root);
    let es = leaf_entries(p, s);
    assert(tree_ok(st, st.nodes[root]));
    lemma_doc_sums(st, st.nodes[root]);
    lemma_held_leaves(st, es, root);
    lemma_starts_agree(p, s, j);
    if j < es.len() {
        lemma_starts_agree(p, s, j + 1);
    }
    lemma_chunk_places(p, s, j);
}

/// In a text of short lines, a chunk begins with a line or behind all newlines.
proof fn lemma_cut_place(p: ChunkParams, s: Seq<u8>, n: int, x: int)
    requires
        short_bytes(s, n),
        0 <= n <= p.snap,
        chunk_place(p, s, x),
    ensures
        cut_place(s, x),
{
    if 0 < x && x < s.len() && s[x - 1] != 10 {
        assert forall|k: int| x <= k < s.len() implies #[trigger] s[k] != 10 by {
            if s[k] == 10 {
                assert(newline_near(s, x, n) || !(s[k] == 10));
                let i = choose|i: int| x <= i < x + n && i < s.len() && #[trigger] s[i] == 10;
                assert(s[i] != 10);
            }
        }
    }
}

/// So does one of the other text, as far as the two are alike.
proof fn lemma_cut_before(p: ChunkParams, s: Seq<u8>, t: Seq<u8>, lo: int, hi: int, end: int, n: int, y: int)
    requires
        line_swapped(s, t, lo, hi, end),
        short_bytes(s, n),
        0 <= n <= p.snap,
        chunk_place(p, t, y),
        y < lo,
    ensures
        y == 0 || t[y - 1] == 10,
{
    lemma_prefix_alike(s, t, lo);
    if y > 0 && t[y - 1] != 10 {
        assert(s[lo - 1] == 10);
        assert(newline_near(s, y, n) || !(s[lo - 1] == 10));
        let i = choose|i: int| y <= i < y + n && i < s.len() && #[trigger] s[i] == 10;
        let k = if i < lo {
            i
        } else {
            lo - 1
        };
        assert(s[k] == t[k]);
        assert(t[k] != 10);
    }
}

/// A leaf that both documents have stands as far from the beginnings of the texts, or from the ends.
proof fn lemma_leaf_pair(
    st: Store,
    p: ChunkParams,
    a: Seq<u8>,
    b: Seq<u8>,
    n: int,
    lo: int,
    hi: int,
    end: int,
    u: int,
    v: int,
)
    requires
        sound(st),
        p.valid(),
        short_document(st, p, a, n),
        st.nodes.contains_key(b),
        canonical(st, p, b, doc(st, b)),
        distinct_lines(doc(st, a)),
        line_swapped(doc(st, a), doc(st, b), lo, hi, end),
        same_leaf(doc_leaves(st, st.nodes[a]), doc_leaves(st, st.nodes[b]), u, v),
    ensures
        ({
            let ra = doc_leaves(st, st.nodes[a]);
            let rb = doc_leaves(st, st.nodes[b]);
            let x1 = leaf_start(ra, u);
            let x2 = leaf_start(ra, u + 1);
            let y1 = leaf_start(rb, v);
            let y2 = leaf_start(rb, v + 1);
            &&& 0 <= x1 < x2 <= doc(st, a).len()
            &&& 0 <= y1 < y2 <= doc(st, b).len()
            &&& x2 - x1 == y2 - y1
            &&& from_head(doc(st, a), lo, hi, x1, x2, y1) || from_tail(doc(st, a), doc(st, b), lo, x1, y1)
        }),
{
    let s = doc(st, a);
    let t = doc(st, b);
    let ra = doc_leaves(st, st.nodes[a]);
    let rb = doc_leaves(st, st.nodes[b]);
    assert(tree_ok(st, st.nodes[a]));
    assert(tree_ok(st, st.nodes[b]));
    lemma_same_leaf(st, st.nodes[a], st.nodes[b], u, v);
    lemma_short_bytes(s, n);
    lemma_leaves(st, p, a, u);
    lemma_leaves(st, p, a, u + 1);
    lemma_leaves(st, p, b, v);
    lemma_leaves(st, p, b, v + 1);
    let x1 = leaf_start(ra, u);
    let x2 = leaf_start(ra, u + 1);
    let y1 = leaf_start(rb, v);
    let y2 = leaf_start(rb, v + 1);
    assert(s.subrange(x1, x2).len() == x2 - x1);
    assert(t.subrange(y1, y2).len() == y2 - y1);
    lemma_cut_place(p, s, n, x1);
    lemma_cut_place(p, s, n, x2);
    if y1 < lo {
        lemma_cut_before(p, s, t, lo, hi, end, n, y1);
    }
    if x2 - x1 > 2 * n {
        lemma_long_pair(s, t, lo, hi, end, n, x1, x2, y1, y2);
    } else {
        assert(u + 1 == ra.len());
        assert(v + 1 == rb.len());
        assert(s.skip(x1) =~= s.subrange(x1, x2));
        assert(t.skip(y1) =~= t.subrange(y1, y2));
        lemma_last_pair(s, t, lo, hi, end, x1, y1);
    }
}

/// Where the text of a line that ends at `hi` ends: before its newline, if it has one.
pub open spec fn text_stop(s: Seq<u8>, hi: int) -> int {
    if s[hi - 1] == 10 {
        hi - 1
    } else {
        hi
    }
}

/// A run that changes nothing, that lies on the line, or that reaches over it.
spec fn about_line(s: Seq<u8>, t: Seq<u8>, lo: int, hi: int, r: HunkView) -> bool {
    &&& 0 <= r.a_from <= r.a_to <= s.len()
    &&& 0 <= r.b_from <= r.b_to <= t.len()
    &&& {
        ||| s.subrange(r.a_from, r.a_to) == t.subrange(r.b_from, r.b_to)
        ||| open_end(s, hi) && lo <= r.a_from && r.a_to <= hi
        ||| r.a_from == r.b_from && r.a_from <= lo && lo <= r.a_to && lo <= r.b_to && (r.a_to < hi || open_end(s, hi)
            || s.len() - r.a_to == t.len() - r.b_to)
    }
}

proof fn lemma_about_line(
    st: Store,
    p: ChunkParams,
    a: Seq<u8>,
    b: Seq<u8>,
    n: int,
    lo: int,
    hi: int,
    end: int,
    r: HunkView,
)
    requires
        sound(st),
        p.valid(),
        short_document(st, p, a, n),
        st.nodes.contains_key(b),
        canonical(st, p, b, doc(st, b)),
        distinct_lines(doc(st, a)),
        line_swapped(doc(st, a), doc(st, b), lo, hi, end),
        run_joined(doc_leaves(st, st.nodes[a]), doc_leaves(st, st.nodes[b]), r),
        0 <= r.a_from <= r.a_to <= doc(st, a).len(),
        0 <= r.b_from <= r.b_to <= doc(st, b).len(),
    ensures
        about_line(doc(st, a), doc(st, b), lo, hi, r),
{
    let s = doc(st, a);
    let t = doc(st, b);
    let ra = doc_leaves(st, st.nodes[a]);
    let rb = doc_leaves(st, st.nodes[b]);
    lemma_short_bytes(s, n);
    lemma_leaves(st, p, a, ra.len() as int);
    lemma_leaves(st, p, b, rb.len() as int);
    assert(ra.take(ra.len() as int) =~= ra);
    assert(rb.take(rb.len() as int) =~= rb);
    // Where the run begins.
    let head = r.a_from == r.b_from && (r.a_from <= lo || open_end(s, hi));
    let tail = s.len() - r.a_from == t.len() - r.b_from && lo < r.a_from && cut_place(s, r.a_from);
    assert(head || tail) by {
        if !(r.a_from == 0 && r.b_from == 0) {
            let (u, v) = choose|u: int, v: int|
                #[trigger] same_leaf(ra, rb, u, v) && leaf_start(ra, u + 1) == r.a_from && leaf_start(rb, v + 1) == r.b_from;
            lemma_leaf_pair(st, p, a, b, n, lo, hi, end, u, v);
            lemma_leaves(st, p, a, u + 1);
            lemma_cut_place(p, s, n, r.a_from);
        }
    }
    // Where it ends.
    let early = r.a_to == r.b_to && (r.a_to <= lo || open_end(s, hi));
    let late = from_tail(s, t, lo, r.a_to, r.b_to);
    assert(early || late) by {
        if !(r.a_to == sum_bytes(ra) && r.b_to == sum_bytes(rb)) {
            let (u, v) = choose|u: int, v: int|
                #[trigger] same_leaf(ra, rb, u, v) && leaf_start(ra, u) == r.a_to && leaf_start(rb, v) == r.b_to;
            lemma_leaf_pair(st, p, a, b, n, lo, hi, end, u, v);
        }
    }
    lemma_run_place(s, t, lo, hi, end, r, head, tail, early, late);
}

proof fn lemma_run_place(
    s: Seq<u8>,
    t: Seq<u8>,
    lo: int,
    hi: int,
    end: int,
    r: HunkView,
    head: bool,
    tail: bool,
    early: bool,
    late: bool,
)
    requires
        line_swapped(s, t, lo, hi, end),
        0 <= r.a_from <= r.a_to <= s.len(),
        0 <= r.b_from <= r.b_to <= t.len(),
        head ==> r.a_from == r.b_from && (r.a_from <= lo || open_end(s, hi)),
        tail ==> s.len() - r.a_from == t.len() - r.b_from && lo < r.a_from && cut_place(s, r.a_from),
        head || tail,
        early ==> r.a_to == r.b_to && (r.a_to <= lo || open_end(s, hi)),
        late ==> from_tail(s, t, lo, r.a_to, r.b_to),
        early || late,
    ensures
        about_line(s, t, lo, hi, r),
{
    lemma_prefix_alike(s, t, lo);
    if head && r.a_from <= lo {
        if early && r.a_to <= lo {
            assert(s.subrange(r.a_from, r.a_to) =~= t.subrange(r.b_from, r.b_to));
        }
    } else if !open_end(s, hi) {
        assert(tail && !early);
        assert(s[hi - 1] == 10);
        assert(r.a_from >= hi) by {
            if r.a_from < hi {
                assert(s[r.a_from - 1] != 10);
                assert(s[hi - 1] != 10);
            }
        }
        assert(s.skip(hi).len() == s.len() - hi);
        assert(t.skip(end).len() == t.len() - end);
        assert(s.subrange(r.a_from, r.a_to) =~= t.subrange(r.b_from, r.b_to)) by {
            let x = s.skip(hi);
            let y = t.skip(end);
            assert(s.subrange(r.a_from, r.a_to) =~= x.subrange(r.a_from - hi, r.a_to - hi));
            assert(t.subrange(r.b_from, r.b_to) =~= y.subrange(r.b_from - end, r.b_to - end));
        }
    }
}

/// Where line `k` begins.
pub open spec fn line_offset(s: Seq<u8>, k: int) -> int {
    chunk_start(lines_of(s), k)
}

proof fn lemma_starts_order(ls: Seq<Seq<u8>>, j: int, k: int)
    requires
        0 <= j <= k <= ls.len(),
    ensures
        chunk_start(ls, k) == chunk_start(ls, j) + joined(ls.subrange(j, k)).len(),
{
    assert(ls.take(k) =~= ls.take(j) + ls.subrange(j, k));
    lemma_joined_concat(ls.take(j), ls.subrange(j, k));
}

/// The edits of hunks that lie between the lines `lo` and `hi` do so too.
proof fn lemma_hunk_edits_inside(al: Seq<Seq<u8>>, bl: Seq<Seq<u8>>, hs: Seq<HunkView>, lo: int, hi: int)
    requires
        0 <= lo <= hi <= al.len(),
        forall|i: int| 0 <= i < hs.len() ==> lo <= (#[trigger] hs[i]).a_from <= hs[i].a_to <= hi,
    ensures
        forall|i: int|
            0 <= i < hunk_edits(al, bl, hs).len() ==> chunk_start(al, lo) <= (#[trigger] hunk_edits(al, bl, hs)[i]).from
                && hunk_edits(al, bl, hs)[i].to <= chunk_start(al, hi),
    decreases hs.len(),
{
    if hs.len() > 0 {
        let front = hs.drop_last();
        assert forall|i: int| 0 <= i < front.len() implies lo <= (#[trigger] front[i]).a_from <= front[i].a_to <= hi by {
            assert(front[i] == hs[i]);
        }
        lemma_hunk_edits_inside(al, bl, front, lo, hi);
        let h = hs.last();
        assert(hs[hs.len() - 1] == h);
        lemma_starts_order(al, lo, h.a_from);
        lemma_starts_order(al, h.a_from, h.a_to);
        lemma_starts_order(al, h.a_to, hi);
        let x = joined(al.subrange(h.a_from, h.a_to));
        let y = joined(bl.subrange(h.b_from, h.b_to));
        lemma_trimmed(x, y);
        let all = hunk_edits(al, bl, hs);
        let before = hunk_edits(al, bl, front);
        assert forall|i: int| 0 <= i < all.len() implies chunk_start(al, lo) <= (#[trigger] all[i]).from && all[i].to
            <= chunk_start(al, hi) by {
            if i < before.len() {
                assert(all[i] == before[i]);
            }
        }
    }
}

proof fn lemma_edit_runs_inside(es: Seq<EditView>, a0: int, b0: int, lo: int, hi: int)
    requires
        forall|i: int| 0 <= i < es.len() ==> lo <= (#[trigger] es[i]).from && es[i].to <= hi,
    ensures
        forall|i: int|
            0 <= i < edit_runs(es, a0, b0).len() ==> a0 + lo <= (#[trigger] edit_runs(es, a0, b0)[i]).a_from
                && edit_runs(es, a0, b0)[i].a_to <= a0 + hi,
    decreases es.len(),
{
    if es.len() > 0 {
        let front = es.drop_last();
        assert forall|i: int| 0 <= i < front.len() implies lo <= (#[trigger] front[i]).from && front[i].to <= hi by {
            assert(front[i] == es[i]);
        }
        lemma_edit_runs_inside(front, a0, b0, lo, hi);
        assert(es[es.len() - 1] == es.last());
        let all = edit_runs(es, a0, b0);
        let before = edit_runs(front, a0, b0);
        assert forall|i: int| 0 <= i < all.len() implies a0 + lo <= (#[trigger] all[i]).a_from && all[i].a_to <= a0 + hi by {
            if i < before.len() {
                assert(all[i] == before[i]);
            }
        }
    }
}

/// The differences inside such a run lie on the line.
proof fn lemma_refined_on_line(s: Seq<u8>, t: Seq<u8>, lo: int, hi: int, end: int, r: HunkView)
    requires
        line_swapped(s, t, lo, hi, end),
        about_line(s, t, lo, hi, r),
    ensures
        forall|k: int|
            0 <= k < refined(s, t, r).len() ==> lo <= (#[trigger] refined(s, t, r)[k]).a_from && refined(s, t, r)[k].a_to
                <= text_stop(s, hi),
{
    let at = s.subrange(r.a_from, r.a_to);
    let bt = t.subrange(r.b_from, r.b_to);
    assert(clip(s, r.a_from, r.a_to) =~= at);
    assert(clip(t, r.b_from, r.b_to) =~= bt);
    let al = lines_of(at);
    let bl = lines_of(bt);
    let hs = text_hunks(at, bt);
    let es = edits_between(at, bt);
    lemma_diff_of(al, bl, MAX_LINE_EDITS as nat);
    lemma_text_hunks(at, bt);
    lemma_turns_fit(al, bl, hs, corner(al, bl));
    lemma_lines(at);
    assert(al.take(0) =~= Seq::empty());
    assert(al.take(al.len() as int) =~= al);
    if at == bt {
        law_no_diff(al, MAX_LINE_EDITS as nat, hs);
        assert(hs =~= Seq::empty());
        assert(es =~= Seq::empty());
    } else if open_end(s, hi) && lo <= r.a_from && r.a_to <= hi {
        lemma_hunk_edits_inside(al, bl, hs, 0, al.len() as int);
        lemma_edit_runs_inside(es, r.a_from, r.b_from, 0, at.len() as int);
    } else {
        lemma_reaching_over(s, t, lo, hi, end, r);
    }
}

/// The same, where the run begins before the line and ends on it or behind it.
proof fn lemma_reaching_over(s: Seq<u8>, t: Seq<u8>, lo: int, hi: int, end: int, r: HunkView)
    requires
        line_swapped(s, t, lo, hi, end),
        0 <= r.a_from <= lo,
        r.a_from == r.b_from,
        lo <= r.a_to <= s.len(),
        lo <= r.b_to <= t.len(),
        r.a_to < hi || open_end(s, hi) || s.len() - r.a_to == t.len() - r.b_to,
    ensures
        forall|k: int|
            0 <= k < refined(s, t, r).len() ==> lo <= (#[trigger] refined(s, t, r)[k]).a_from && refined(s, t, r)[k].a_to
                <= text_stop(s, hi),
{
    let at = s.subrange(r.a_from, r.a_to);
    let bt = t.subrange(r.b_from, r.b_to);
    assert(clip(s, r.a_from, r.a_to) =~= at);
    assert(clip(t, r.b_from, r.b_to) =~= bt);
    let al = lines_of(at);
    let bl = lines_of(bt);
    let hs = text_hunks(at, bt);
    let es = edits_between(at, bt);
    lemma_diff_of(al, bl, MAX_LINE_EDITS as nat);
    lemma_lines(at);
    assert(al.take(al.len() as int) =~= al);
    // The lines before the one that differs.
    lemma_prefix_alike(s, t, lo);
    let front = s.subrange(r.a_from, lo);
    let fl = lines_of(front);
    let k = fl.len() as int;
    assert(t.subrange(r.a_from, lo) =~= front);
    let ar = s.subrange(lo, r.a_to);
    let br = t.subrange(lo, r.b_to);
    assert(at =~= front + ar);
    assert(bt =~= front + br);
    if front.len() > 0 {
        assert(front.last() == s[lo - 1]);
    }
    lemma_lines_concat(front, ar);
    lemma_lines_concat(front, br);
    lemma_lines(front);
    assert(al.take(k) =~= fl);
    assert(bl.take(k) =~= fl);
    assert(chunk_start(al, k) == lo - r.a_from);
    if r.a_to < hi || open_end(s, hi) {
        lemma_diff_behind(al, bl, k, MAX_LINE_EDITS as nat, hs);
        lemma_hunk_edits_inside(al, bl, hs, k, al.len() as int);
        lemma_edit_runs_inside(es, r.a_from, r.b_from, lo - r.a_from, at.len() as int);
    } else {
        assert(s[hi - 1] == 10);
        assert(s.skip(hi).len() == s.len() - hi);
        assert(t.skip(end).len() == t.len() - end);
        assert(r.b_to >= end);
        let m = s.subrange(lo, hi);
        let m2 = t.subrange(lo, end);
        let back = s.subrange(hi, r.a_to);
        assert(t.subrange(end, r.b_to) =~= back) by {
            assert(back =~= s.skip(hi).take(r.a_to - hi));
            assert(t.subrange(end, r.b_to) =~= t.skip(end).take(r.b_to - end));
        }
        assert(ar =~= m + back);
        assert(br =~= m2 + back);
        assert(m.last() == 10 && m2.last() == 10);
        lemma_lines_concat(m, back);
        lemma_lines_concat(m2, back);
        lemma_one(m);
        lemma_one(m2);
        let bk = lines_of(back);
        assert(al =~= fl + seq![m] + bk);
        assert(bl =~= fl + seq![m2] + bk);
        assert forall|j: int| 0 <= j < al.len() && j != k implies al[j] == bl[j] by {}
        lemma_diff_of_one(al, bl, k, MAX_LINE_EDITS as nat, hs);
        assert(al[k] == m && bl[k] == m2);
        lemma_line_edits(al, bl, hs, k);
        lemma_starts_order(al, k, k + 1);
        reveal_with_fuel(joined, 2);
        assert(al.subrange(k, k + 1) =~= seq![m]);
        assert(seq![m].skip(1) =~= Seq::empty());
        assert(joined(seq![m]) =~= m);
        lemma_edit_runs_inside(es, r.a_from, r.b_from, lo - r.a_from, hi - 1 - r.a_from);
    }
}

/// The edits of a line that another takes the place of leave its newline.
proof fn lemma_line_edits(al: Seq<Seq<u8>>, bl: Seq<Seq<u8>>, hs: Seq<HunkView>, k: int)
    requires
        0 <= k < al.len(),
        k < bl.len(),
        forall|i: int|
            0 <= i < hs.len() ==> (#[trigger] hs[i]) == (HunkView { a_from: k, a_to: k + 1, b_from: k, b_to: k + 1 }),
        is_line(al[k]) && al[k].last() == 10,
        is_line(bl[k]) && bl[k].last() == 10,
        al[k] != bl[k],
    ensures
        forall|i: int|
            0 <= i < hunk_edits(al, bl, hs).len() ==> chunk_start(al, k) <= (#[trigger] hunk_edits(al, bl, hs)[i]).from
                && hunk_edits(al, bl, hs)[i].to <= chunk_start(al, k) + al[k].len() - 1,
    decreases hs.len(),
{
    if hs.len() > 0 {
        let front = hs.drop_last();
        assert forall|i: int| 0 <= i < front.len() implies (#[trigger] front[i]) == (HunkView {
            a_from: k,
            a_to: k + 1,
            b_from: k,
            b_to: k + 1,
        }) by {
            assert(front[i] == hs[i]);
        }
        lemma_line_edits(al, bl, front, k);
        assert(hs[hs.len() - 1] == hs.last());
        let x = al[k];
        let y = bl[k];
        reveal_with_fuel(joined, 2);
        assert(al.subrange(k, k + 1) =~= seq![x]);
        assert(bl.subrange(k, k + 1) =~= seq![y]);
        assert(seq![x].skip(1) =~= Seq::empty());
        assert(seq![y].skip(1) =~= Seq::empty());
        assert(joined(seq![x]) =~= x);
        assert(joined(seq![y]) =~= y);
        lemma_newline_shared(x, y);
        let all = hunk_edits(al, bl, hs);
        let before = hunk_edits(al, bl, front);
        assert forall|i: int| 0 <= i < all.len() implies chunk_start(al, k) <= (#[trigger] all[i]).from && all[i].to
            <= chunk_start(al, k) + x.len() - 1 by {
            if i < before.len() {
                assert(all[i] == before[i]);
            }
        }
    }
}

/// Two lines that end in a newline have it in common.
proof fn lemma_newline_shared(x: Seq<u8>, y: Seq<u8>)
    requires
        is_line(x) && x.last() == 10,
        is_line(y) && y.last() == 10,
        x != y,
    ensures
        0 <= trimmed(x, y).0,
        trimmed(x, y).0 + trimmed(x, y).1.len() <= x.len() - 1,
{
    lemma_trimmed(x, y);
    let (pre, a, b) = trimmed(x, y);
    assert(pre < x.len() && pre < y.len()) by {
        if pre >= x.len() || pre >= y.len() {
            let z = if x.len() <= y.len() {
                x.len()
            } else {
                y.len()
            };
            assert(pre == z);
            assert(x.take(pre)[z - 1] == x[z - 1]);
            assert(y.take(pre)[z - 1] == y[z - 1]);
            assert(x[z - 1] == 10 && y[z - 1] == 10);
            assert(x.len() == y.len());
            assert(x.take(pre) =~= x);
            assert(y.take(pre) =~= y);
        }
    }
    let most = shorter(x.len() - pre, y.len() - pre);
    assert(x.skip(x.len() - 1) =~= seq![10u8]);
    assert(y.skip(y.len() - 1) =~= seq![10u8]);
    lemma_suffix_at_least(x, y, most, 1);
    lemma_suffix(x, y, most);
    assert(a.len() == x.len() - common_suffix_len(x, y, most) - pre);
}

/// A line is one line.
proof fn lemma_one(l: Seq<u8>)
    requires
        l.len() > 0,
        forall|k: int| 0 <= k < l.len() - 1 ==> l[k] != 10,
    ensures
        lines_of(l) == seq![l],
{
    lemma_first_line(l);
    if line_len(l) < l.len() {
        assert(l[line_len(l) - 1] != 10);
    }
}

proof fn lemma_all_refined_on_line(s: Seq<u8>, t: Seq<u8>, lo: int, hi: int, end: int, runs: Seq<HunkView>)
    requires
        line_swapped(s, t, lo, hi, end),
        forall|k: int| 0 <= k < runs.len() ==> about_line(s, t, lo, hi, #[trigger] runs[k]),
    ensures
        forall|k: int|
            0 <= k < all_refined(s, t, runs).len() ==> lo <= (#[trigger] all_refined(s, t, runs)[k]).a_from && all_refined(
                s,
                t,
                runs,
            )[k].a_to <= text_stop(s, hi),
    decreases runs.len(),
{
    if runs.len() > 0 {
        let front = runs.drop_last();
        assert forall|k: int| 0 <= k < front.len() implies about_line(s, t, lo, hi, #[trigger] front[k]) by {
            assert(front[k] == runs[k]);
        }
        lemma_all_refined_on_line(s, t, lo, hi, end, front);
        assert(runs[runs.len() - 1] == runs.last());
        lemma_refined_on_line(s, t, lo, hi, end, runs.last());
        let all = all_refined(s, t, runs);
        let before = all_refined(s, t, front);
        assert forall|k: int| 0 <= k < all.len() implies lo <= (#[trigger] all[k]).a_from && all[k].a_to <= text_stop(s, hi) by {
            if k < before.len() {
                assert(all[k] == before[k]);
            } else {
                assert(all[k] == refined(s, t, runs.last())[k - before.len()]);
            }
        }
    }
}

/// Between a document of short and distinct lines and one in which one of its lines is another,
/// every changed run lies on the text of that line.
pub proof fn law_runs_stay_on_the_line(
    st: Store,
    p: ChunkParams,
    a: Seq<u8>,
    b: Seq<u8>,
    n: int,
    lo: int,
    hi: int,
    end: int,
)
    requires
        sound(st),
        p.valid(),
        short_document(st, p, a, n),
        st.nodes.contains_key(b),
        canonical(st, p, b, doc(st, b)),
        distinct_lines(doc(st, a)),
        line_swapped(doc(st, a), doc(st, b), lo, hi, end),
    ensures
        forall|k: int|
            0 <= k < runs_between(st, a, b).len() ==> lo <= (#[trigger] runs_between(st, a, b)[k]).a_from && runs_between(
                st,
                a,
                b,
            )[k].a_to <= text_stop(doc(st, a), hi),
{
    if a != b {
        let s = doc(st, a);
        let t = doc(st, b);
        assert(tree_ok(st, st.nodes[a]));
        assert(tree_ok(st, st.nodes[b]));
        lemma_coarse_joints(st, st.nodes[a], st.nodes[b]);
        let runs = coarse_runs(st, st.nodes[a], st.nodes[b]);
        assert forall|k: int| 0 <= k < runs.len() implies about_line(s, t, lo, hi, #[trigger] runs[k]) by {
            lemma_run_inside(s, t, runs, s.len() as int, t.len() as int, k);
            lemma_about_line(st, p, a, b, n, lo, hi, end, runs[k]);
        }
        lemma_all_refined_on_line(s, t, lo, hi, end, runs);
    }
}

/// An edit of the text of line `i` that puts no newline in, and changes the line.
pub open spec fn edits_line(s: Seq<u8>, i: int, e: EditView) -> bool {
    &&& 0 <= i < lines_of(s).len()
    &&& line_offset(s, i) <= e.from <= e.to <= text_stop(s, line_offset(s, i + 1))
    &&& forall|k: int| 0 <= k < e.text.len() ==> #[trigger] e.text[k] != 10
    &&& one_edit(s, e) != s
}

/// A text by the lines before one, that line, and the lines behind it.
proof fn lemma_around(ls: Seq<Seq<u8>>, i: int, l: Seq<u8>)
    requires
        0 <= i < ls.len(),
    ensures
        joined(ls.update(i, l)) == joined(ls.take(i)) + l + joined(ls.skip(i + 1)),
{
    let all = ls.update(i, l);
    assert(all =~= ls.take(i) + seq![l] + ls.skip(i + 1));
    lemma_joined_concat(ls.take(i) + seq![l], ls.skip(i + 1));
    lemma_joined_concat(ls.take(i), seq![l]);
    reveal_with_fuel(joined, 2);
    assert(seq![l].skip(1) =~= Seq::empty());
    assert(joined(seq![l]) =~= l);
}

/// Where a line stands in its text.
proof fn lemma_line_place(s: Seq<u8>, i: int)
    requires
        0 <= i < lines_of(s).len(),
    ensures
        ({
            let lo = line_offset(s, i);
            let hi = line_offset(s, i + 1);
            &&& 0 <= lo < hi <= s.len()
            &&& lo == 0 || s[lo - 1] == 10
            &&& hi < s.len() ==> s[hi - 1] == 10
            &&& forall|k: int| lo <= k < hi - 1 ==> #[trigger] s[k] != 10
            &&& aligned(s, lo)
        }),
{
    let ls = lines_of(s);
    let l = ls[i];
    lemma_lines(s);
    lemma_around(ls, i, l);
    assert(ls.update(i, l) =~= ls);
    lemma_starts_order(ls, i, i + 1);
    reveal_with_fuel(joined, 2);
    assert(ls.subrange(i, i + 1) =~= seq![l]);
    assert(seq![l].skip(1) =~= Seq::empty());
    assert(joined(seq![l]) =~= l);
    let x = joined(ls.take(i));
    let y = joined(ls.skip(i + 1));
    let lo = line_offset(s, i);
    let hi = line_offset(s, i + 1);
    assert(s == x + l + y);
    assert(is_line(l));
    assert forall|k: int| lo <= k < hi - 1 implies #[trigger] s[k] != 10 by {
        assert(s[k] == l[k - lo]);
    }
    if lo > 0 {
        assert(i > 0) by {
            if i == 0 {
                assert(ls.take(0) =~= Seq::empty());
            }
        }
        let before = ls[i - 1];
        assert(before.last() == 10);
        lemma_around(ls, i - 1, before);
        assert(ls.update(i - 1, before) =~= ls);
        assert(ls.take(i) =~= ls.take(i - 1) + seq![before]);
        lemma_joined_concat(ls.take(i - 1), seq![before]);
        assert(seq![before].skip(1) =~= Seq::empty());
        assert(joined(seq![before]) =~= before);
        assert(x.last() == before.last());
        assert(s[lo - 1] == x.last());
    }
    if hi < s.len() {
        assert(i < ls.len() - 1) by {
            if i == ls.len() - 1 {
                assert(ls.skip(i + 1) =~= Seq::empty());
            }
        }
        assert(l.last() == 10);
        assert(s[hi - 1] == l.last());
    }
}

/// What an edit leaves where.
proof fn lemma_edit_bytes(s: Seq<u8>, e: EditView)
    requires
        0 <= e.from <= e.to <= s.len(),
    ensures
        one_edit(s, e).len() == s.len() + e.text.len() - (e.to - e.from),
        forall|k: int| 0 <= k < e.from ==> #[trigger] one_edit(s, e)[k] == s[k],
        forall|k: int| e.from <= k < e.from + e.text.len() ==> #[trigger] one_edit(s, e)[k] == e.text[k - e.from],
        forall|k: int|
            e.from + e.text.len() <= k < one_edit(s, e).len() ==> #[trigger] one_edit(s, e)[k] == s[k - e.text.len() - e.from
                + e.to],
        one_edit(s, e).take(e.from) == s.take(e.from),
        one_edit(s, e).skip(e.from + e.text.len()) == s.skip(e.to),
{
    lemma_one_edit(s, e);
    assert(one_edit(s, e).take(e.from) =~= s.take(e.from));
    assert(one_edit(s, e).skip(e.from + e.text.len()) =~= s.skip(e.to));
}

/// An edit of the text of a line swaps the line for another.
#[verifier::rlimit(60)]
proof fn lemma_edit_swaps(s: Seq<u8>, i: int, e: EditView)
    requires
        edits_line(s, i, e),
    ensures
        0 <= e.from <= e.to <= s.len(),
        line_swapped(
            s,
            one_edit(s, e),
            line_offset(s, i),
            line_offset(s, i + 1),
            line_offset(s, i + 1) + e.text.len() - (e.to - e.from),
        ),
{
    lemma_line_place(s, i);
    lemma_edit_bytes(s, e);
    let lo = line_offset(s, i);
    let hi = line_offset(s, i + 1);
    let t = one_edit(s, e);
    let end = hi + e.text.len() - (e.to - e.from);
    assert(s.take(lo) =~= s.take(e.from).take(lo));
    assert(t.take(lo) =~= t.take(e.from).take(lo));
    assert(s.skip(hi) =~= s.skip(e.to).skip(hi - e.to));
    assert(t.skip(end) =~= t.skip(e.from + e.text.len()).skip(hi - e.to));
    lemma_swapped_newlines(s, lo, hi, e, t);
    if s.subrange(lo, hi) == t.subrange(lo, end) {
        assert(s =~= s.take(lo) + s.subrange(lo, hi) + s.skip(hi));
        assert(t =~= t.take(lo) + t.subrange(lo, end) + t.skip(end));
    }
}

proof fn lemma_swapped_newlines(s: Seq<u8>, lo: int, hi: int, e: EditView, t: Seq<u8>)
    requires
        0 <= lo <= e.from <= e.to <= hi <= s.len(),
        lo < hi,
        s[hi - 1] == 10 ==> e.to < hi,
        t == one_edit(s, e),
        forall|k: int| lo <= k < hi - 1 ==> #[trigger] s[k] != 10,
        forall|k: int| 0 <= k < e.text.len() ==> #[trigger] e.text[k] != 10,
    ensures
        ({
            let end = hi + e.text.len() - (e.to - e.from);
            &&& lo <= end <= t.len()
            &&& forall|k: int| lo <= k < end - 1 ==> #[trigger] t[k] != 10
            &&& s[hi - 1] == 10 <==> end > lo && t[end - 1] == 10
        }),
{
    lemma_edit_bytes(s, e);
    let end = hi + e.text.len() - (e.to - e.from);
    assert forall|k: int| lo <= k < end - 1 implies #[trigger] t[k] != 10 by {
        if e.from <= k < e.from + e.text.len() {
            assert(t[k] == e.text[k - e.from]);
        } else if k >= e.from {
            assert(t[k] == s[k - e.text.len() - e.from + e.to]);
        }
    }
    if end > lo {
        let k = end - 1;
        if e.to < hi {
            assert(t[k] == s[hi - 1]);
        } else if e.text.len() > 0 {
            assert(t[k] == e.text[k - e.from]);
        } else {
            assert(t[k] == s[k]);
        }
    }
}

pub(crate) proof fn lemma_line_at_order(s: Seq<u8>, x: int, y: int)
    requires
        0 <= x <= y <= s.len(),
    ensures
        line_at(s, x) <= line_at(s, y),
        x < y && s[y - 1] == 10 ==> line_at(s, x) < line_at(s, y),
{
    assert(s.take(y) =~= s.take(x) + s.subrange(x, y));
    lemma_newlines_concat(s.take(x), s.subrange(x, y));
    if x < y && s[y - 1] == 10 {
        assert(s.subrange(x, y).last() == 10);
    }
}

/// An edit of one line meets no run on the text of another.
proof fn lemma_no_hit(s: Seq<u8>, i: int, j: int, e: EditView, runs: Seq<HunkView>)
    requires
        0 <= i < lines_of(s).len(),
        0 <= j < lines_of(s).len(),
        i != j,
        edits_line(s, i, e),
        forall|k: int|
            0 <= k < runs.len() ==> line_offset(s, j) <= (#[trigger] runs[k]).a_from <= runs[k].a_to <= text_stop(
                s,
                line_offset(s, j + 1),
            ),
    ensures
        !hit(s, e, runs),
{
    let ls = lines_of(s);
    lemma_line_place(s, i);
    lemma_line_place(s, j);
    let (first, second) = if i < j {
        (i, j)
    } else {
        (j, i)
    };
    // The text of the earlier line ends before its newline, and the later one begins behind it.
    lemma_starts_order(ls, first + 1, second);
    let stop = text_stop(s, line_offset(s, first + 1));
    let begin = line_offset(s, second);
    assert(line_offset(s, first + 1) <= begin);
    assert(begin < s.len());
    assert(s[line_offset(s, first + 1) - 1] == 10);
    assert(stop == line_offset(s, first + 1) - 1);
    lemma_line_at_order(s, stop, begin);
    assert(s[begin - 1] == 10);
    assert forall|k: int| 0 <= k < runs.len() implies !meets(s, e, #[trigger] runs[k]) by {
        let r = runs[k];
        if i < j {
            lemma_line_at_order(s, begin, r.a_from);
            lemma_line_at_order(s, e.from, stop);
            if e.to > e.from {
                lemma_line_at_order(s, e.to - 1, stop);
            }
        } else {
            lemma_line_at_order(s, begin, e.from);
            lemma_line_at_order(s, r.a_from, stop);
            if r.a_to > r.a_from {
                lemma_line_at_order(s, r.a_to - 1, stop);
            }
        }
    }
}

/// A second commit against the base that a first one has moved away from, on another line.
#[verifier::rlimit(50)]
proof fn lemma_second(
    p: ChunkParams,
    file_id: u64,
    path: Seq<char>,
    base: Seq<u8>,
    st: Store,
    n: int,
    es: Seq<Edit>,
    i: int,
    mid: Store,
    c: Committed,
    fs: Seq<Edit>,
    j: int,
    fin: Store,
    d: Committed,
)
    requires
        p.valid(),
        sound(st),
        current_at(st, file_id, base),
        short_document(st, p, base, n),
        distinct_lines(doc(st, base)),
        edit_views(es).len() == 1,
        edit_views(fs).len() == 1,
        edits_line(doc(st, base), i, edit_views(es)[0]),
        edits_line(doc(st, base), j, edit_views(fs)[0]),
        i != j,
        commit_done(st, mid, p, file_id, path, base, es, c),
        commit_done(mid, fin, p, file_id, path, base, fs, d),
    ensures
        ({
            let s = doc(st, base);
            let e = edit_views(es)[0];
            let f = edit_views(fs)[0];
            let runs = runs_between(mid, base, c.root@);
            &&& runs_turn(s, one_edit(s, e), runs)
            &&& !hit(s, f, runs)
            &&& forall|k: int|
                0 <= k < runs.len() ==> line_offset(s, i) <= (#[trigger] runs[k]).a_from && runs[k].a_to <= text_stop(
                    s,
                    line_offset(s, i + 1),
                )
            &&& doc(mid, c.root@) == one_edit(s, e)
            &&& one_edit(s, e).len() <= u64::MAX
            &&& doc(fin, d.root@) == one_edit(one_edit(s, e), shifted_edit(f, runs))
            &&& canonical(fin, p, d.root@, doc(fin, d.root@))
            &&& d.root@ == c.root@ ==> d.kind == CommitKind::NoOp && doc(fin, d.root@) == one_edit(s, e)
            &&& d.root@ != c.root@ ==> d.kind == CommitKind::Rebased && d.version == version_of(st, file_id) + 2 && fin.roots[file_id]
                == (d.root@, d.version) && fin.roots.contains_key(file_id)
        }),
{
    reveal(commit_done);
    let s = doc(st, base);
    let e = edit_views(es)[0];
    let f = edit_views(fs)[0];
    lemma_edit_swaps(s, i, e);
    lemma_line_place(s, i);
    lemma_edit_swaps(s, j, f);
    lemma_line_place(s, j);
    let t = one_edit(s, e);
    law_documents_are_kept(st, mid, base);
    lemma_edited_forward(s, es);
    assert(edit_views(es) =~= seq![e]);
    assert(edit_views(fs) =~= seq![f]);
    assert(doc(mid, c.root@) == t);
    assert(tree_ok(mid, mid.nodes[c.root@]));
    lemma_doc_sums(mid, mid.nodes[c.root@]);
    assert(c.root@ != base);
    law_documents_are_kept(mid, fin, c.root@);
    lemma_plain_kept(st, mid, p, base, n);
    law_runs_stay_on_the_line(
        mid,
        p,
        base,
        c.root@,
        n,
        line_offset(s, i),
        line_offset(s, i + 1),
        line_offset(s, i + 1) + e.text.len() - (e.to - e.from),
    );
    law_runs_turn(mid, base, c.root@);
    let runs = runs_between(mid, base, c.root@);
    assert forall|k: int| 0 <= k < runs.len() implies line_offset(s, i) <= (#[trigger] runs[k]).a_from <= runs[k].a_to
        <= text_stop(s, line_offset(s, i + 1)) by {
        lemma_run_inside(s, t, runs, s.len() as int, t.len() as int, k);
    }
    lemma_no_hit(s, j, i, f, runs);
    assert(hit_span(s, seq![f], runs) is None) by {
        reveal_with_fuel(hit_span, 2);
        assert(seq![f].last() == f);
        assert(seq![f].drop_last() =~= Seq::empty());
    }
    assert(shifted_edits(seq![f], runs) =~= seq![shifted_edit(f, runs)]);
    assert(mid.roots[file_id].0 == c.root@);
    let kind = choose|kind: CommitKind|
        #[trigger] rebase_result(mid, fin, base, c.root@, fs, d.root@, kind) && (d.kind == kind || d.kind == CommitKind::NoOp);
    assert(rebase_result(mid, fin, base, c.root@, fs, d.root@, kind));
}

/// The second of two such commits is owed success: it neither conflicts nor is refused.
#[verifier::rlimit(50)]
pub proof fn law_second_commit_is_owed(
    p: ChunkParams,
    file_id: u64,
    path: Seq<char>,
    base: Seq<u8>,
    st: Store,
    n: int,
    es: Seq<Edit>,
    i: int,
    mid: Store,
    c: Committed,
    fs: Seq<Edit>,
    j: int,
)
    requires
        p.valid(),
        p.min < p.max,
        sound(st),
        current_at(st, file_id, base),
        version_of(st, file_id) + 2 <= u64::MAX,
        short_document(st, p, base, n),
        distinct_lines(doc(st, base)),
        edit_views(es).len() == 1,
        edit_views(fs).len() == 1,
        edits_line(doc(st, base), i, edit_views(es)[0]),
        edits_line(doc(st, base), j, edit_views(fs)[0]),
        i != j,
        doc(mid, c.root@).len() + edit_views(fs)[0].text.len() <= usize::MAX,
        commit_done(st, mid, p, file_id, path, base, es, c),
    ensures
        commit_owed(mid, p, file_id, base, fs),
{
    reveal(commit_done);
    let s = doc(st, base);
    let e = edit_views(es)[0];
    let f = edit_views(fs)[0];
    lemma_edit_swaps(s, i, e);
    lemma_line_place(s, i);
    lemma_edit_swaps(s, j, f);
    lemma_line_place(s, j);
    let t = one_edit(s, e);
    law_documents_are_kept(st, mid, base);
    lemma_edited_forward(s, es);
    assert(edit_views(es) =~= seq![e]);
    assert(edit_views(fs) =~= seq![f]);
    assert(doc(mid, c.root@) == t);
    assert(c.root@ != base);
    lemma_plain_kept(st, mid, p, base, n);
    law_runs_stay_on_the_line(
        mid,
        p,
        base,
        c.root@,
        n,
        line_offset(s, i),
        line_offset(s, i + 1),
        line_offset(s, i + 1) + e.text.len() - (e.to - e.from),
    );
    law_runs_turn(mid, base, c.root@);
    let runs = runs_between(mid, base, c.root@);
    assert forall|k: int| 0 <= k < runs.len() implies line_offset(s, i) <= (#[trigger] runs[k]).a_from <= runs[k].a_to
        <= text_stop(s, line_offset(s, i + 1)) by {
        lemma_run_inside(s, t, runs, s.len() as int, t.len() as int, k);
    }
    lemma_no_hit(s, j, i, f, runs);
    if i < j {
        lemma_starts_order(lines_of(s), i + 1, j);
    } else {
        lemma_starts_order(lines_of(s), j + 1, i);
    }
    lemma_carried(s, t, runs, f);
    assert(mid.roots[file_id].0 == c.root@);
}

/// The file is at this root.
pub open spec fn current_at(st: Store, file_id: u64, root: Seq<u8>) -> bool {
    &&& st.roots.contains_key(file_id)
    &&& st.roots[file_id].0 == root
}

proof fn lemma_plain_kept(a: Store, b: Store, p: ChunkParams, root: Seq<u8>, n: int)
    requires
        sound(a),
        grows(a, b),
        short_document(a, p, root, n),
    ensures
        short_document(b, p, root, n),
{
    law_documents_are_kept(a, b, root);
    lemma_tree_kept(a, b, p, root);
}

/// Two edits of the texts of different lines can be committed in either order, both against one
/// base: the second is rebased onto the first, the text has both edits, and the
/// root is the same. No two lines of the base are alike, and none is longer than `n` bytes, of which
/// the chunker sees as many ahead and has two in every chunk; the edits may put in any text without
/// a newline. Here `a` and `b` are the storage after the first commit, and `x` and `y` after the
/// second.
#[verifier::rlimit(50)]
pub proof fn law_commits_commute(
    p: ChunkParams,
    file_id: u64,
    path: Seq<char>,
    base: Seq<u8>,
    st: Store,
    n: int,
    es: Seq<Edit>,
    i: int,
    fs: Seq<Edit>,
    j: int,
    a: Store,
    ca: Committed,
    x: Store,
    cx: Committed,
    b: Store,
    cb: Committed,
    y: Store,
    cy: Committed,
)
    requires
        p.valid(),
        sound(st),
        current_at(st, file_id, base),
        short_document(st, p, base, n),
        distinct_lines(doc(st, base)),
        edit_views(es).len() == 1,
        edit_views(fs).len() == 1,
        edits_line(doc(st, base), i, edit_views(es)[0]),
        edits_line(doc(st, base), j, edit_views(fs)[0]),
        i < j,
        commit_done(st, a, p, file_id, path, base, es, ca),
        commit_done(a, x, p, file_id, path, base, fs, cx),
        commit_done(st, b, p, file_id, path, base, fs, cb),
        commit_done(b, y, p, file_id, path, base, es, cy),
    ensures
        cx.kind == CommitKind::Rebased,
        cy.kind == CommitKind::Rebased,
        cx.root@ == cy.root@,
        doc(x, cx.root@) == forward(doc(st, base), edit_views(es) + edit_views(fs), doc(st, base).len() as int),
        root_of(x, file_id) == Some(cx.root@),
        version_of(x, file_id) == version_of(st, file_id) + 2,
        cx.version == version_of(st, file_id) + 2,
        cy.version == version_of(st, file_id) + 2,
{
    let s = doc(st, base);
    let e = edit_views(es)[0];
    let f = edit_views(fs)[0];
    lemma_second(p, file_id, path, base, st, n, es, i, a, ca, fs, j, x, cx);
    lemma_second(p, file_id, path, base, st, n, fs, j, b, cb, es, i, y, cy);
    lemma_either_order(s, i, e, j, f, runs_between(a, base, ca.root@), runs_between(b, base, cb.root@));
    assert(edit_views(es) + edit_views(fs) =~= seq![e, f]);
    assert(cx.root@ != ca.root@);
    assert(cy.root@ != cb.root@);
    law_history_independent(x, y, p, cx.root@, cy.root@, doc(x, cx.root@));
}

/// Whichever of two such edits comes first, carrying the other over gives the text with both.
proof fn lemma_either_order(
    s: Seq<u8>,
    i: int,
    e: EditView,
    j: int,
    f: EditView,
    re: Seq<HunkView>,
    rf: Seq<HunkView>,
)
    requires
        edits_line(s, i, e),
        edits_line(s, j, f),
        i < j,
        one_edit(s, e).len() <= u64::MAX,
        one_edit(s, f).len() <= u64::MAX,
        runs_turn(s, one_edit(s, e), re),
        runs_turn(s, one_edit(s, f), rf),
        !hit(s, f, re),
        !hit(s, e, rf),
        forall|k: int|
            0 <= k < re.len() ==> line_offset(s, i) <= (#[trigger] re[k]).a_from && re[k].a_to <= text_stop(s, line_offset(s, i + 1)),
        forall|k: int|
            0 <= k < rf.len() ==> line_offset(s, j) <= (#[trigger] rf[k]).a_from && rf[k].a_to <= text_stop(s, line_offset(s, j + 1)),
    ensures
        one_edit(one_edit(s, e), shifted_edit(f, re)) == forward(s, seq![e, f], s.len() as int),
        one_edit(one_edit(s, f), shifted_edit(e, rf)) == forward(s, seq![e, f], s.len() as int),
        forward(s, seq![e, f], s.len() as int) != one_edit(s, e),
        forward(s, seq![e, f], s.len() as int) != one_edit(s, f),
{
    lemma_edit_swaps(s, i, e);
    lemma_line_place(s, i);
    lemma_edit_swaps(s, j, f);
    lemma_line_place(s, j);
    lemma_starts_order(lines_of(s), i + 1, j);
    law_rebase_commutes(s, e, f, re, rf);
    lemma_with_both(s, e, f);
    lemma_both_differ(s, e, f);
}

/// A text with both edits is not the one with either, where neither edit leaves the text as it is.
proof fn lemma_both_differ(s: Seq<u8>, e: EditView, f: EditView)
    requires
        0 <= e.from <= e.to <= f.from <= f.to <= s.len(),
        one_edit(s, e) != s,
        one_edit(s, f) != s,
    ensures
        with_both(s, e, f) != one_edit(s, e),
        with_both(s, e, f) != one_edit(s, f),
{
    let both = with_both(s, e, f);
    lemma_one_edit(s, e);
    lemma_one_edit(s, f);
    let n = e.from + e.text.len() + (f.from - e.to);
    if both == one_edit(s, e) {
        assert(both.skip(n) =~= f.text + s.skip(f.to));
        assert(one_edit(s, e).skip(n) =~= s.skip(f.from));
        assert(one_edit(s, f) =~= s.take(f.from) + s.skip(f.from));
        assert(s =~= s.take(f.from) + s.skip(f.from));
    }
    if both == one_edit(s, f) {
        let m = both.len() - (f.text.len() + s.len() - f.to);
        let k = f.from;
        assert(m == n);
        assert(both.take(n) =~= s.take(e.from) + e.text + s.subrange(e.to, f.from));
        assert(one_edit(s, f).len() == f.from + f.text.len() + (s.len() - f.to));
        assert(n == k);
        assert(one_edit(s, f).take(k) =~= s.take(k));
        assert(s.take(k) =~= s.take(e.from) + e.text + s.subrange(e.to, f.from));
        assert(s =~= s.take(k) + s.skip(k));
        assert(one_edit(s, e) =~= s.take(e.from) + e.text + s.subrange(e.to, f.from) + s.skip(k));
    }
}

} // verus!

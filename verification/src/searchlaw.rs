//! What a search finds and shows.

use vstd::prelude::*;
use vstd::string::*;
use crate::chars::{alphanumeric, ascii_lowered, find_from, occurs, stands_at, white_space};
use crate::fold::folded;
use crate::pg::search::{
    by_rank, closed_term, holders, in_others, listed, rank_place, read_query, terms_of, without_and, Ranked, Reading,
};
use crate::pg::store::lacks;
use crate::snippet::{best_line, line_score, match_place, words_held};
use crate::terms::{any_held, earlier, first_place, held, hit_lines, index_words, met_at, want_of, word_len, word_list, Want};

verus! {

proof fn lemma_find(s: Seq<char>, p: Seq<char>, i: int)
    requires
        0 <= i,
    ensures
        find_from(s, p, i) matches Some(k) ==> i <= k && stands_at(s, p, k) && forall|j: int|
            i <= j < k ==> !stands_at(s, p, j),
        find_from(s, p, i) is None ==> forall|j: int| i <= j ==> !stands_at(s, p, j),
    decreases s.len() + 1 - i,
{
    if i + p.len() <= s.len() && !stands_at(s, p, i) {
        lemma_find(s, p, i + 1);
    }
}

/// A text occurs in another exactly if it stands somewhere in it.
pub proof fn law_occurs(s: Seq<char>, p: Seq<char>)
    ensures
        occurs(s, p) <==> exists|i: int| stands_at(s, p, i),
{
    lemma_find(s, p, 0);
    if exists|i: int| stands_at(s, p, i) {
        let i = choose|i: int| stands_at(s, p, i);
        assert(0 <= i);
    }
}

/// The first place of any of some words.
proof fn lemma_first_place(line: Seq<char>, ws: Seq<Seq<char>>)
    ensures
        first_place(line, ws) matches Some(p) ==> (exists|k: int| 0 <= k < ws.len() && stands_at(line, #[trigger] ws[k], p))
            && forall|k: int, j: int| 0 <= k < ws.len() && j < p ==> !#[trigger] stands_at(line, ws[k], j),
        first_place(line, ws) is None ==> forall|k: int, j: int| 0 <= k < ws.len() ==> !#[trigger] stands_at(line, ws[k], j),
    decreases ws.len(),
{
    if ws.len() > 0 {
        let front = ws.drop_last();
        let w = ws.last();
        lemma_first_place(line, front);
        lemma_find(line, w, 0);
        assert(ws[ws.len() - 1] == w);
        assert(forall|k: int| 0 <= k < front.len() ==> #[trigger] front[k] == ws[k]);
        let a = first_place(line, front);
        let b = find_from(line, w, 0);
        let e = earlier(a, b);
        if e is Some {
            let p = e->0;
            if b == Some(p) && (a is None || p < a->0) {
                assert(stands_at(line, ws[ws.len() - 1], p));
            } else {
                let k = choose|k: int| 0 <= k < front.len() && stands_at(line, #[trigger] front[k], p);
                assert(stands_at(line, ws[k], p));
            }
            assert forall|k: int, j: int| 0 <= k < ws.len() && j < p implies !#[trigger] stands_at(line, ws[k], j) by {
                if k < front.len() {
                    assert(ws[k] == front[k]);
                    assert(!stands_at(line, front[k], j));
                }
            }
        } else {
            assert forall|k: int, j: int| 0 <= k < ws.len() implies !#[trigger] stands_at(line, ws[k], j) by {
                if k < front.len() {
                    assert(ws[k] == front[k]);
                    assert(!stands_at(line, front[k], j));
                }
            }
        }
    }
}

/// A snippet is placed at the first of all wanted words in its line.
#[verifier::rlimit(60)]
pub proof fn law_match_is_first_word(line: Seq<char>, wanted: Seq<Seq<Seq<char>>>)
    ensures
        match_place(line, wanted) matches Some(p) ==> (exists|i: int, k: int|
            0 <= i < wanted.len() && 0 <= k < wanted[i].len() && #[trigger] stands_at(line, wanted[i][k], p)) && forall|
            i: int,
            k: int,
            j: int,
        | 0 <= i < wanted.len() && 0 <= k < wanted[i].len() && j < p ==> !#[trigger] stands_at(line, wanted[i][k], j),
        match_place(line, wanted) is None ==> forall|i: int, k: int, j: int|
            0 <= i < wanted.len() && 0 <= k < wanted[i].len() ==> !#[trigger] stands_at(line, wanted[i][k], j),
    decreases wanted.len(),
{
    if wanted.len() > 0 {
        let front = wanted.drop_last();
        let ws = wanted.last();
        law_match_is_first_word(line, front);
        lemma_first_place(line, ws);
        let n = wanted.len() - 1;
        assert(wanted[n] == ws);
        let a = match_place(line, front);
        let b = first_place(line, ws);
        let e = earlier(a, b);
        if e is Some {
            let p = e->0;
            if b == Some(p) && (a is None || p < a->0) {
                let k = choose|k: int| 0 <= k < ws.len() && stands_at(line, #[trigger] ws[k], p);
                assert(stands_at(line, wanted[n][k], p));
            } else {
                let (i, k) = choose|i: int, k: int|
                    0 <= i < front.len() && 0 <= k < front[i].len() && #[trigger] stands_at(line, front[i][k], p);
                assert(stands_at(line, wanted[i][k], p));
            }
        }
        assert forall|i: int, k: int, j: int|
            0 <= i < wanted.len() && 0 <= k < wanted[i].len() && (e is None || j < e->0) implies !#[trigger] stands_at(
            line,
            wanted[i][k],
            j,
        ) by {
            if i < n {
                assert(wanted[i] == front[i]);
                assert(!stands_at(line, front[i][k], j));
            } else {
                assert(!stands_at(line, ws[k], j));
            }
        }
    }
}

proof fn lemma_words_held(line: Seq<char>, ws: Seq<Seq<char>>)
    ensures
        words_held(line, ws) <= ws.len(),
        words_held(line, ws) == ws.len() <==> forall|k: int| 0 <= k < ws.len() ==> occurs(line, #[trigger] ws[k]),
        words_held(line, ws) == 0 <==> forall|k: int| 0 <= k < ws.len() ==> !occurs(line, #[trigger] ws[k]),
    decreases ws.len(),
{
    if ws.len() > 0 {
        let front = ws.drop_last();
        lemma_words_held(line, front);
        assert(ws[ws.len() - 1] == ws.last());
        assert(forall|k: int| 0 <= k < front.len() ==> #[trigger] front[k] == ws[k]);
        if words_held(line, ws) == ws.len() {
            assert forall|k: int| 0 <= k < ws.len() implies occurs(line, #[trigger] ws[k]) by {
                if k < front.len() {
                    assert(front[k] == ws[k]);
                }
            }
        }
        if forall|k: int| 0 <= k < ws.len() ==> occurs(line, #[trigger] ws[k]) {
            assert forall|k: int| 0 <= k < front.len() implies occurs(line, #[trigger] front[k]) by {
                assert(front[k] == ws[k]);
            }
        }
        if words_held(line, ws) == 0 {
            assert forall|k: int| 0 <= k < ws.len() implies !occurs(line, #[trigger] ws[k]) by {
                if k < front.len() {
                    assert(front[k] == ws[k]);
                }
            }
        }
        if forall|k: int| 0 <= k < ws.len() ==> !occurs(line, #[trigger] ws[k]) {
            assert forall|k: int| 0 <= k < front.len() implies !occurs(line, #[trigger] front[k]) by {
                assert(front[k] == ws[k]);
            }
        }
    }
}

/// A line satisfies as many terms as are wanted exactly if every word of every term occurs in it, and
/// one that satisfies no term and holds no word has none of them.
#[verifier::rlimit(60)]
pub proof fn law_score_counts_terms(line: Seq<char>, wanted: Seq<Seq<Seq<char>>>)
    ensures
        line_score(line, wanted).0 <= wanted.len(),
        line_score(line, wanted).0 == wanted.len() <==> forall|i: int, k: int|
            0 <= i < wanted.len() && 0 <= k < wanted[i].len() ==> #[trigger] occurs(line, wanted[i][k]),
        line_score(line, wanted).1 == 0 <==> forall|i: int, k: int|
            0 <= i < wanted.len() && 0 <= k < wanted[i].len() ==> !#[trigger] occurs(line, wanted[i][k]),
    decreases wanted.len(),
{
    if wanted.len() > 0 {
        let front = wanted.drop_last();
        let ws = wanted.last();
        let n = wanted.len() - 1;
        assert(wanted[n] == ws);
        law_score_counts_terms(line, front);
        lemma_words_held(line, ws);
        assert(forall|i: int| 0 <= i < n ==> #[trigger] front[i] == wanted[i]);
        if line_score(line, wanted).0 == wanted.len() {
            assert forall|i: int, k: int| 0 <= i < wanted.len() && 0 <= k < wanted[i].len() implies #[trigger] occurs(
                line,
                wanted[i][k],
            ) by {
                if i < n {
                    assert(occurs(line, front[i][k]));
                } else {
                    assert(occurs(line, ws[k]));
                }
            }
        }
        if forall|i: int, k: int|
            0 <= i < wanted.len() && 0 <= k < wanted[i].len() ==> #[trigger] occurs(line, wanted[i][k]) {
            assert forall|i: int, k: int| 0 <= i < front.len() && 0 <= k < front[i].len() implies #[trigger] occurs(
                line,
                front[i][k],
            ) by {
                assert(occurs(line, wanted[i][k]));
            }
            assert forall|k: int| 0 <= k < ws.len() implies occurs(line, #[trigger] ws[k]) by {
                assert(occurs(line, wanted[n][k]));
            }
        }
        if line_score(line, wanted).1 == 0 {
            assert forall|i: int, k: int| 0 <= i < wanted.len() && 0 <= k < wanted[i].len() implies !#[trigger] occurs(
                line,
                wanted[i][k],
            ) by {
                if i < n {
                    assert(!occurs(line, front[i][k]));
                } else {
                    assert(!occurs(line, ws[k]));
                }
            }
        }
        if forall|i: int, k: int|
            0 <= i < wanted.len() && 0 <= k < wanted[i].len() ==> !#[trigger] occurs(line, wanted[i][k]) {
            assert forall|i: int, k: int| 0 <= i < front.len() && 0 <= k < front[i].len() implies !#[trigger] occurs(
                line,
                front[i][k],
            ) by {
                assert(!occurs(line, wanted[i][k]));
            }
            assert forall|k: int| 0 <= k < ws.len() implies !occurs(line, #[trigger] ws[k]) by {
                assert(!occurs(line, wanted[n][k]));
            }
        }
    }
}

/// The line that a snippet shows is the best: no line satisfies more terms, none that satisfies as
/// many holds more words, and none before it does as well.
pub proof fn law_snippet_shows_best_line(lines: Seq<Seq<char>>, wanted: Seq<Seq<Seq<char>>>, n: int)
    requires
        1 <= n <= lines.len(),
    ensures
        ({
            let b = best_line(lines, wanted, n);
            let best = line_score(folded(lines[b.line]), wanted);
            &&& 0 <= b.line < n
            &&& forall|k: int|
                0 <= k < n ==> {
                    let s = line_score(folded(#[trigger] lines[k]), wanted);
                    s.0 <= best.0 && (s.0 == best.0 ==> s.1 <= best.1)
                }
            &&& forall|k: int| 0 <= k < b.line ==> line_score(folded(#[trigger] lines[k]), wanted) != best
        }),
    decreases n,
{
    lemma_best_line(lines, wanted, n);
}

proof fn lemma_best_line(lines: Seq<Seq<char>>, wanted: Seq<Seq<Seq<char>>>, n: int)
    requires
        0 <= n <= lines.len(),
    ensures
        ({
            let b = best_line(lines, wanted, n);
            &&& n > 0 ==> 0 <= b.line < n && b.score == line_score(folded(lines[b.line]), wanted)
            &&& n == 0 ==> b.score == (0nat, 0nat) && b.line == 0
            &&& forall|k: int|
                0 <= k < n ==> {
                    let s = line_score(folded(#[trigger] lines[k]), wanted);
                    s.0 <= b.score.0 && (s.0 == b.score.0 ==> s.1 <= b.score.1)
                }
            &&& forall|k: int| 0 <= k < b.line ==> line_score(folded(#[trigger] lines[k]), wanted) != b.score
        }),
    decreases n,
{
    if n > 0 {
        lemma_best_line(lines, wanted, n - 1);
        let b = best_line(lines, wanted, n - 1);
        let s = line_score(folded(lines[n - 1]), wanted);
        if n == 1 {
            assert(s.0 == 0 && s.1 == 0 ==> s == (0nat, 0nat));
        }
    }
}

/// The lines that a search lists are exactly those that hold one of its terms, in their order.
pub proof fn law_hits_hold_terms(ts: Seq<Want>, lines: Seq<Seq<char>>, n: int)
    requires
        0 <= n <= lines.len(),
    ensures
        forall|i: int| #[trigger] hit_lines(ts, lines, n).contains(i) <==> 0 <= i < n && exists|k: int|
            0 <= k < ts.len() && held(#[trigger] ts[k], index_words(lines[i])),
        forall|x: int, y: int|
            0 <= x < y < hit_lines(ts, lines, n).len() ==> hit_lines(ts, lines, n)[x] < hit_lines(ts, lines, n)[y],
    decreases n,
{
    let out = hit_lines(ts, lines, n);
    if n > 0 {
        law_hits_hold_terms(ts, lines, n - 1);
        let front = hit_lines(ts, lines, n - 1);
        assert forall|i: int| #[trigger] out.contains(i) <==> 0 <= i < n && exists|k: int|
            0 <= k < ts.len() && held(#[trigger] ts[k], index_words(lines[i])) by {
            assert(front.contains(i) <==> 0 <= i < n - 1 && any_held(ts, lines[i]));
            if front.contains(i) {
                let x = choose|x: int| 0 <= x < front.len() && front[x] == i;
                assert(out[x] == i);
            }
            if out.contains(i) {
                let x = choose|x: int| 0 <= x < out.len() && out[x] == i;
                if x < front.len() {
                    assert(front[x] == i);
                }
            }
            if i == n - 1 && any_held(ts, lines[i]) {
                assert(out[front.len() as int] == i);
            }
        }
        assert forall|x: int, y: int| 0 <= x < y < out.len() implies out[x] < out[y] by {
            if y < front.len() {
                assert(front[x] < front[y]);
            } else {
                assert(front.contains(front[x]));
            }
        }
    }
}

/// A file is among some rows.
pub open spec fn among(rows: Seq<Ranked>, id: i64) -> bool {
    exists|i: int| 0 <= i < rows.len() && (#[trigger] rows[i]).file_id == id
}

#[verifier::rlimit(60)]
proof fn lemma_holders(per_term: Seq<Vec<Ranked>>, n: int)
    requires
        per_term.len() > 0,
        0 <= n <= per_term[0]@.len(),
    ensures
        forall|id: i64| #[trigger] among(holders(per_term, n), id) <==> listed(per_term[0]@, n, id) && in_others(per_term, id),
        forall|x: int, y: int|
            0 <= x < y < holders(per_term, n).len() ==> (#[trigger] holders(per_term, n)[x]).file_id != (
            #[trigger] holders(per_term, n)[y]).file_id,
    decreases n,
{
    let rows = per_term[0]@;
    let out = holders(per_term, n);
    if n > 0 {
        lemma_holders(per_term, n - 1);
        let before = holders(per_term, n - 1);
        let r = rows[n - 1];
        assert forall|id: i64| #[trigger] among(out, id) <==> listed(rows, n, id) && in_others(per_term, id) by {
            assert(among(before, id) <==> listed(rows, n - 1, id) && in_others(per_term, id));
            if among(before, id) {
                let i = choose|i: int| 0 <= i < before.len() && (#[trigger] before[i]).file_id == id;
                assert(out[i].file_id == id);
            }
            if among(out, id) {
                let i = choose|i: int| 0 <= i < out.len() && (#[trigger] out[i]).file_id == id;
                if i < before.len() {
                    assert(before[i].file_id == id);
                }
            }
            if listed(rows, n, id) {
                let i = choose|i: int| 0 <= i < n && (#[trigger] rows[i]).file_id == id;
                if i < n - 1 {
                    assert(listed(rows, n - 1, id));
                } else if !listed(rows, n - 1, id) && in_others(per_term, id) {
                    assert(out[before.len() as int].file_id == id);
                }
            }
            if listed(rows, n - 1, id) {
                let i = choose|i: int| 0 <= i < n - 1 && (#[trigger] rows[i]).file_id == id;
                assert(rows[i].file_id == id);
            }
            if r.file_id == id {
                assert(rows[n - 1].file_id == id);
                assert(listed(rows, n, id));
            }
        }
        assert forall|x: int, y: int| 0 <= x < y < out.len() implies (#[trigger] out[x]).file_id != (#[trigger] out[y]).file_id by {
            if y < before.len() {
                assert(before[x].file_id != before[y].file_id);
            } else {
                assert(among(before, before[x].file_id));
                assert(before[x].file_id != r.file_id);
            }
        }
    }
}

proof fn lemma_rank_place(rows: Seq<Ranked>, rank: u32)
    requires
        forall|x: int, y: int| 0 <= x < y < rows.len() ==> (#[trigger] rows[x]).rank >= (#[trigger] rows[y]).rank,
    ensures
        0 <= rank_place(rows, rank) <= rows.len(),
        forall|x: int| 0 <= x < rank_place(rows, rank) ==> (#[trigger] rows[x]).rank >= rank,
        forall|x: int| rank_place(rows, rank) <= x < rows.len() ==> (#[trigger] rows[x]).rank < rank,
    decreases rows.len(),
{
    if rows.len() > 0 {
        let front = rows.drop_last();
        assert forall|x: int, y: int| 0 <= x < y < front.len() implies (#[trigger] front[x]).rank >= (#[trigger] front[y]).rank by {
            assert(front[x] == rows[x] && front[y] == rows[y]);
        }
        lemma_rank_place(front, rank);
        assert(rows[rows.len() - 1] == rows.last());
        assert(forall|x: int| 0 <= x < front.len() ==> #[trigger] front[x] == rows[x]);
        let k = rank_place(rows, rank);
        if rows.last().rank >= rank {
            assert forall|x: int| 0 <= x < k implies (#[trigger] rows[x]).rank >= rank by {
                if x < rows.len() - 1 {
                    assert(rows[x].rank >= rows[rows.len() - 1].rank);
                }
            }
        } else {
            assert forall|x: int| 0 <= x < k implies (#[trigger] rows[x]).rank >= rank by {
                assert(front[x] == rows[x]);
            }
            assert forall|x: int| k <= x < rows.len() implies (#[trigger] rows[x]).rank < rank by {
                if x < front.len() {
                    assert(front[x] == rows[x]);
                }
            }
        }
    }
}

spec fn best_first(rows: Seq<Ranked>) -> bool {
    forall|x: int, y: int| 0 <= x < y < rows.len() ==> (#[trigger] rows[x]).rank >= (#[trigger] rows[y]).rank
}

spec fn each_once(rows: Seq<Ranked>) -> bool {
    forall|x: int, y: int| 0 <= x < y < rows.len() ==> (#[trigger] rows[x]).file_id != (#[trigger] rows[y]).file_id
}

/// A row put behind all that rank at least as high.
proof fn lemma_rank_insert(before: Seq<Ranked>, r: Ranked)
    requires
        best_first(before),
        each_once(before),
        forall|i: int| 0 <= i < before.len() ==> (#[trigger] before[i]).file_id != r.file_id,
    ensures
        best_first(before.insert(rank_place(before, r.rank), r)),
        each_once(before.insert(rank_place(before, r.rank), r)),
{
    lemma_rank_place(before, r.rank);
    let k = rank_place(before, r.rank);
    let out = before.insert(k, r);
    assert forall|x: int, y: int| 0 <= x < y < out.len() implies (#[trigger] out[x]).rank >= (#[trigger] out[y]).rank
        && out[x].file_id != out[y].file_id by {
        let i = if x < k {
            x
        } else {
            x - 1
        };
        let j = if y < k {
            y
        } else {
            y - 1
        };
        if x == k {
            assert(out[y] == before[j]);
        } else if y == k {
            assert(out[x] == before[i]);
        } else {
            assert(out[x] == before[i] && out[y] == before[j]);
        }
    }
}

proof fn lemma_insert_contains(before: Seq<Ranked>, k: int, r: Ranked, q: Ranked)
    requires
        0 <= k <= before.len(),
    ensures
        before.insert(k, r).contains(q) <==> before.contains(q) || q == r,
{
    let out = before.insert(k, r);
    if out.contains(q) {
        let x = choose|x: int| 0 <= x < out.len() && out[x] == q;
        if x < k {
            assert(before[x] == q);
        } else if x > k {
            assert(before[x - 1] == q);
        }
    }
    if before.contains(q) {
        let x = choose|x: int| 0 <= x < before.len() && before[x] == q;
        if x < k {
            assert(out[x] == q);
        } else {
            assert(out[x + 1] == q);
        }
    }
    if q == r {
        assert(out[k] == q);
    }
}

/// The first `n` rows have one more.
proof fn lemma_take_contains(rows: Seq<Ranked>, n: int, q: Ranked)
    requires
        1 <= n <= rows.len(),
    ensures
        rows.take(n).contains(q) <==> rows.take(n - 1).contains(q) || q == rows[n - 1],
{
    let t = rows.take(n - 1);
    let u = rows.take(n);
    if t.contains(q) {
        let j = choose|j: int| 0 <= j < t.len() && t[j] == q;
        assert(u[j] == q);
    }
    if u.contains(q) {
        let j = choose|j: int| 0 <= j < u.len() && u[j] == q;
        if j < n - 1 {
            assert(t[j] == q);
        }
    }
    assert(u[n - 1] == rows[n - 1]);
}

/// The ranked rows are the rows.
proof fn lemma_by_rank_same(rows: Seq<Ranked>, n: int, q: Ranked)
    requires
        0 <= n <= rows.len(),
        each_once(rows),
        forall|m: int| 0 <= m < n ==> best_first(#[trigger] by_rank(rows, m)),
    ensures
        by_rank(rows, n).contains(q) <==> rows.take(n).contains(q),
    decreases n,
{
    if n > 0 {
        lemma_by_rank_same(rows, n - 1, q);
        let before = by_rank(rows, n - 1);
        lemma_rank_place(before, rows[n - 1].rank);
        lemma_insert_contains(before, rank_place(before, rows[n - 1].rank), rows[n - 1], q);
        lemma_take_contains(rows, n, q);
    } else {
        assert(rows.take(0) =~= Seq::empty());
    }
}

#[verifier::rlimit(60)]
proof fn lemma_by_rank(rows: Seq<Ranked>, n: int)
    requires
        0 <= n <= rows.len(),
        each_once(rows),
    ensures
        forall|m: int| 0 <= m <= n ==> best_first(#[trigger] by_rank(rows, m)),
        each_once(by_rank(rows, n)),
    decreases n,
{
    if n > 0 {
        lemma_by_rank(rows, n - 1);
        let before = by_rank(rows, n - 1);
        let r = rows[n - 1];
        assert forall|i: int| 0 <= i < before.len() implies (#[trigger] before[i]).file_id != r.file_id by {
            let q = before[i];
            assert(before.contains(q));
            lemma_by_rank_same(rows, n - 1, q);
            let t = rows.take(n - 1);
            let j = choose|j: int| 0 <= j < t.len() && t[j] == q;
            assert(rows[j] == q);
            assert(rows[j].file_id != rows[n - 1].file_id);
        }
        lemma_rank_insert(before, r);
        assert(by_rank(rows, n) == before.insert(rank_place(before, r.rank), r));
    }
}

/// A search finds exactly the files that every term was found in, each once, the best first.
#[verifier::rlimit(60)]
pub proof fn law_files_hold_every_term(per_term: Seq<Vec<Ranked>>)
    requires
        per_term.len() > 0,
    ensures
        ({
            let all = holders(per_term, per_term[0]@.len() as int);
            let out = by_rank(all, all.len() as int);
            &&& forall|id: i64| #[trigger] among(out, id) <==> forall|k: int|
                0 <= k < per_term.len() ==> among((#[trigger] per_term[k])@, id)
            &&& forall|x: int, y: int| 0 <= x < y < out.len() ==> (#[trigger] out[x]).file_id != (#[trigger] out[y]).file_id
            &&& forall|x: int, y: int| 0 <= x < y < out.len() ==> (#[trigger] out[x]).rank >= (#[trigger] out[y]).rank
        }),
{
    let n = per_term[0]@.len() as int;
    let all = holders(per_term, n);
    lemma_holders(per_term, n);
    lemma_by_rank(all, all.len() as int);
    let out = by_rank(all, all.len() as int);
    assert(all.take(all.len() as int) =~= all);
    assert forall|id: i64| #[trigger] among(out, id) <==> forall|k: int|
        0 <= k < per_term.len() ==> among((#[trigger] per_term[k])@, id) by {
        if among(out, id) {
            let i = choose|i: int| 0 <= i < out.len() && (#[trigger] out[i]).file_id == id;
            assert(out.contains(out[i]));
            lemma_by_rank_same(all, all.len() as int, out[i]);
            assert(all.contains(out[i]));
            let j = choose|j: int| 0 <= j < all.len() && all[j] == out[i];
            assert(all[j].file_id == id);
            assert(among(all, id));
            assert forall|k: int| 0 <= k < per_term.len() implies among((#[trigger] per_term[k])@, id) by {
                if k > 0 {
                    assert(listed(per_term[k]@, per_term[k]@.len() as int, id));
                } else {
                    assert(listed(per_term[0]@, n, id));
                }
            }
        }
        if forall|k: int| 0 <= k < per_term.len() ==> among((#[trigger] per_term[k])@, id) {
            assert(among(per_term[0]@, id));
            assert(listed(per_term[0]@, n, id));
            assert forall|k: int| 1 <= k < per_term.len() implies listed((#[trigger] per_term[k])@, per_term[k]@.len() as int, id) by {
                assert(among(per_term[k]@, id));
            }
            assert(among(all, id));
            let j = choose|j: int| 0 <= j < all.len() && (#[trigger] all[j]).file_id == id;
            assert(all.contains(all[j]));
            lemma_by_rank_same(all, all.len() as int, all[j]);
            assert(out.contains(all[j]));
            let i = choose|i: int| 0 <= i < out.len() && out[i] == all[j];
            assert(out[i].file_id == id);
        }
    }
}

/// Has a term white space in it, so that it is typed in quotes?
pub open spec fn is_phrase(t: Seq<char>) -> bool {
    exists|i: int| 0 <= i < t.len() && white_space(#[trigger] t[i])
}

/// A term that can be asked for. The word `and` is not one.
pub open spec fn askable(t: Seq<char>) -> bool {
    t.len() > 0 && lacks(t, '"') && ascii_lowered(t) != "and"@
}

/// A term as it is typed.
pub open spec fn typed_term(t: Seq<char>) -> Seq<char> {
    if is_phrase(t) {
        seq!['"'] + t + seq!['"']
    } else {
        t
    }
}

/// Terms as they are typed, a blank between them.
pub open spec fn typed(ts: Seq<Seq<char>>) -> Seq<char>
    decreases ts.len(),
{
    if ts.len() == 0 {
        Seq::empty()
    } else if ts.len() == 1 {
        typed_term(ts[0])
    } else {
        typed(ts.drop_last()) + seq![' '] + typed_term(ts.last())
    }
}

/// What is read of a text does not depend on what follows.
proof fn lemma_read_prefix(q: Seq<char>, x: Seq<char>, n: int)
    requires
        0 <= n <= x.len() <= q.len(),
        forall|i: int| 0 <= i < x.len() ==> q[i] == x[i],
    ensures
        read_query(q, n) == read_query(x, n),
    decreases n,
{
    if n > 0 {
        lemma_read_prefix(q, x, n - 1);
    }
}

/// Characters that end no term are read into the one before them.
proof fn lemma_read_run(q: Seq<char>, n: int, m: int)
    requires
        0 <= n <= m <= q.len(),
        forall|i: int| n <= i < m ==> q[i] != '"' && (read_query(q, n).quoted || !white_space(#[trigger] q[i])),
    ensures
        ({
            let r = read_query(q, n);
            read_query(q, m) == (Reading { terms: r.terms, current: r.current + q.subrange(n, m), quoted: r.quoted })
        }),
    decreases m - n,
{
    let r = read_query(q, n);
    if n == m {
        assert(r.current + q.subrange(n, m) =~= r.current);
    } else {
        lemma_read_run(q, n, m - 1);
        assert((r.current + q.subrange(n, m - 1)).push(q[m - 1]) =~= r.current + q.subrange(n, m));
    }
}

/// A term is read where nothing is being read.
proof fn lemma_read_term(q: Seq<char>, n: int, t: Seq<char>)
    requires
        askable(t),
        0 <= n,
        n + typed_term(t).len() <= q.len(),
        q.subrange(n, n + typed_term(t).len()) == typed_term(t),
        read_query(q, n).current.len() == 0,
        !read_query(q, n).quoted,
    ensures
        ({
            let r = read_query(q, n + typed_term(t).len());
            &&& !r.quoted
            &&& closed_term(r).terms == read_query(q, n).terms.push(t)
            &&& closed_term(r).current.len() == 0
        }),
{
    let w = typed_term(t);
    let m = n + w.len();
    let r0 = read_query(q, n);
    let none = Seq::<char>::empty();
    assert(r0.current =~= none);
    assert(forall|i: int| 0 <= i < w.len() ==> #[trigger] q.subrange(n, m)[i] == q[n + i]);
    if is_phrase(t) {
        assert(w[0] == '"');
        assert(q[n + 0] == w[0]);
        let r1 = read_query(q, n + 1);
        assert(r1 == (Reading { quoted: true, ..r0 }));
        assert(q.subrange(n + 1, m - 1) =~= t) by {
            assert forall|i: int| 0 <= i < t.len() implies q.subrange(n + 1, m - 1)[i] == t[i] by {
                assert(q.subrange(n, m)[i + 1] == q[n + (i + 1)]);
                assert(w[i + 1] == t[i]);
            }
        }
        assert forall|i: int| n + 1 <= i < m - 1 implies q[i] != '"' && (r1.quoted || !white_space(#[trigger] q[i])) by {
            assert(q.subrange(n + 1, m - 1)[i - n - 1] == q[i]);
        }
        lemma_read_run(q, n + 1, m - 1);
        assert(none + t =~= t);
        assert(w[w.len() - 1] == '"');
        assert(q[n + (w.len() - 1)] == '"');
    } else {
        assert forall|i: int| n <= i < m implies q[i] != '"' && (r0.quoted || !white_space(#[trigger] q[i])) by {
            assert(q.subrange(n, m)[i - n] == q[n + (i - n)]);
            assert(t[i - n] == q[i]);
        }
        lemma_read_run(q, n, m);
        assert(none + t =~= t);
    }
}

proof fn lemma_typed_read(ts: Seq<Seq<char>>)
    requires
        forall|i: int| 0 <= i < ts.len() ==> askable(#[trigger] ts[i]),
    ensures
        ({
            let r = read_query(typed(ts), typed(ts).len() as int);
            &&& !r.quoted
            &&& closed_term(r).terms == ts
            &&& closed_term(r).current.len() == 0
        }),
    decreases ts.len(),
{
    let q = typed(ts);
    if ts.len() == 0 {
        assert(ts =~= Seq::empty());
    } else if ts.len() == 1 {
        assert(q.subrange(0, q.len() as int) =~= q);
        lemma_read_term(q, 0, ts[0]);
        assert(Seq::<Seq<char>>::empty().push(ts[0]) =~= ts);
    } else {
        let front = ts.drop_last();
        let t = ts.last();
        let x = typed(front);
        assert forall|i: int| 0 <= i < front.len() implies askable(#[trigger] front[i]) by {
            assert(front[i] == ts[i]);
        }
        lemma_typed_read(front);
        let n = x.len() as int;
        assert(forall|i: int| 0 <= i < n ==> q[i] == x[i]);
        lemma_read_prefix(q, x, n);
        assert(q[n] == ' ');
        assert(white_space(' '));
        assert(askable(ts[ts.len() - 1]));
        assert(q.subrange(n + 1, n + 1 + typed_term(t).len()) =~= typed_term(t));
        lemma_read_term(q, n + 1, t);
        assert(front.push(t) =~= ts);
    }
}

proof fn lemma_without_and(ts: Seq<Seq<char>>, n: int)
    requires
        0 <= n <= ts.len(),
        forall|i: int| 0 <= i < ts.len() ==> askable(#[trigger] ts[i]),
    ensures
        without_and(ts, n) == ts.take(n),
    decreases n,
{
    if n > 0 {
        lemma_without_and(ts, n - 1);
        assert(askable(ts[n - 1]));
        assert(ts.take(n - 1).push(ts[n - 1]) =~= ts.take(n));
    } else {
        assert(ts.take(0) =~= Seq::empty());
    }
}

/// A search that is typed is read as its terms: words between blanks, and phrases in quotes whole.
pub proof fn law_search_reads_back(ts: Seq<Seq<char>>)
    requires
        forall|i: int| 0 <= i < ts.len() ==> askable(#[trigger] ts[i]),
    ensures
        terms_of(typed(ts)) == ts,
{
    lemma_typed_read(ts);
    let n = ts.len() as int;
    lemma_without_and(ts, n);
    assert(ts.take(n) =~= ts);
}

/// A line holds a word if it is one of the line's words, a beginning if one of them begins with it, and
/// a phrase if its words stand in the line one behind the other.
pub proof fn law_held_means(w: Seq<char>, ws: Seq<Seq<char>>, line: Seq<Seq<char>>)
    requires
        ws.len() > 0,
    ensures
        held(Want::Word(w), line) <==> line.contains(w),
        held(Want::Prefix(w), line) <==> exists|i: int| 0 <= i < line.len() && crate::chars::begins(#[trigger] line[i], w),
        held(Want::Phrase(ws), line) <==> exists|i: int|
            0 <= i && i + ws.len() <= line.len() && #[trigger] line.subrange(i, i + ws.len()) == ws,
{
    if line.contains(w) {
        let i = choose|i: int| 0 <= i < line.len() && line[i] == w;
        assert(met_at(Want::Word(w), line, i));
    }
    if held(Want::Word(w), line) {
        let i = choose|i: int| 0 <= i < line.len() && #[trigger] met_at(Want::Word(w), line, i);
        assert(line[i] == w);
    }
    if exists|i: int| 0 <= i < line.len() && crate::chars::begins(#[trigger] line[i], w) {
        let i = choose|i: int| 0 <= i < line.len() && crate::chars::begins(#[trigger] line[i], w);
        assert(met_at(Want::Prefix(w), line, i));
    }
    if held(Want::Prefix(w), line) {
        let i = choose|i: int| 0 <= i < line.len() && #[trigger] met_at(Want::Prefix(w), line, i);
        assert(crate::chars::begins(line[i], w));
    }
    if exists|i: int| 0 <= i && i + ws.len() <= line.len() && #[trigger] line.subrange(i, i + ws.len()) == ws {
        let i = choose|i: int| 0 <= i && i + ws.len() <= line.len() && #[trigger] line.subrange(i, i + ws.len()) == ws;
        assert(met_at(Want::Phrase(ws), line, i));
    }
    if held(Want::Phrase(ws), line) {
        let i = choose|i: int| 0 <= i < line.len() && #[trigger] met_at(Want::Phrase(ws), line, i);
        assert(line.subrange(i, i + ws.len()) == ws);
    }
}

/// A word of the index: letters and digits only.
pub open spec fn solid(w: Seq<char>) -> bool {
    w.len() > 0 && forall|i: int| 0 <= i < w.len() ==> alphanumeric(#[trigger] w[i])
}

proof fn lemma_word_len_solid(w: Seq<char>, rest: Seq<char>)
    requires
        forall|i: int| 0 <= i < w.len() ==> alphanumeric(#[trigger] w[i]),
        rest.len() == 0 || !alphanumeric(rest[0]),
    ensures
        word_len(w + rest) == w.len(),
    decreases w.len(),
{
    let s = w + rest;
    if w.len() == 0 {
        assert(s =~= rest);
    } else {
        assert(s[0] == w[0]);
        assert(alphanumeric(w[0]));
        let v = w.skip(1);
        assert forall|i: int| 0 <= i < v.len() implies alphanumeric(#[trigger] v[i]) by {
            assert(v[i] == w[i + 1]);
        }
        lemma_word_len_solid(v, rest);
        assert(s.skip(1) =~= v + rest);
    }
}

/// Words put together with something between them that is neither a letter nor a digit.
pub open spec fn spread(ws: Seq<Seq<char>>, c: char) -> Seq<char>
    decreases ws.len(),
{
    if ws.len() == 0 {
        Seq::empty()
    } else if ws.len() == 1 {
        ws[0]
    } else {
        ws[0].push(c) + spread(ws.skip(1), c)
    }
}

/// The words of a text are its runs of letters and digits, whole and in order.
pub proof fn law_words_read_back(ws: Seq<Seq<char>>, c: char)
    requires
        forall|i: int| 0 <= i < ws.len() ==> solid(#[trigger] ws[i]),
        !alphanumeric(c),
    ensures
        word_list(spread(ws, c)) == ws,
    decreases ws.len(),
{
    let s = spread(ws, c);
    if ws.len() == 0 {
        assert(ws =~= Seq::empty());
    } else {
        let w = ws[0];
        assert(solid(w));
        assert(alphanumeric(w[0]));
        let n = w.len() as int;
        let rest = ws.skip(1);
        assert forall|i: int| 0 <= i < rest.len() implies solid(#[trigger] rest[i]) by {
            assert(rest[i] == ws[i + 1]);
        }
        law_words_read_back(rest, c);
        assert(s[0] == w[0]);
        if ws.len() == 1 {
            let none = Seq::<char>::empty();
            lemma_word_len_solid(w, none);
            assert(w + none =~= s);
            assert(s.take(n) =~= w);
            assert(s.skip(n) =~= none);
            assert(word_list(none) =~= Seq::empty());
            assert(seq![w] + Seq::<Seq<char>>::empty() =~= ws);
        } else {
            let tail = seq![c] + spread(rest, c);
            assert(s =~= w + tail);
            lemma_word_len_solid(w, tail);
            assert(s.take(n) =~= w);
            assert(s.skip(n) =~= tail);
            assert(tail.skip(1) =~= spread(rest, c));
            assert(word_list(tail) == word_list(spread(rest, c)));
            assert(seq![w] + rest =~= ws);
        }
    }
}

/// A search term of one word asks for the word, with a star behind it for what begins with it, and a
/// term of several words for the phrase.
pub proof fn law_term_asks(t: Seq<char>)
    requires
        t.len() > 0,
        t.last() != '*',
    ensures
        index_words(t).len() == 0 ==> want_of(t) is None && want_of(t.push('*')) is None,
        index_words(t).len() == 1 ==> want_of(t) == Some(Want::Word(index_words(t)[0])) && want_of(t.push('*')) == Some(
            Want::Prefix(index_words(t)[0]),
        ),
        index_words(t).len() > 1 ==> want_of(t) == Some(Want::Phrase(index_words(t))) && want_of(t.push('*')) == Some(
            Want::Phrase(index_words(t)),
        ),
{
    assert(t.push('*').drop_last() =~= t);
}

/// A hit is shown under the last heading whose lines it is on, and under none exactly if it is on the
/// lines of none.
pub proof fn law_hit_names_its_section(spans: Seq<crate::pg::search::Span>, n: int, line: int)
    requires
        0 <= n <= spans.len(),
    ensures
        crate::pg::search::section_of(spans, n, line) is None <==> forall|k: int|
            0 <= k < n ==> !((#[trigger] spans[k]).0 <= line <= spans[k].1),
        crate::pg::search::section_of(spans, n, line) matches Some(h) ==> exists|k: int|
            0 <= k < n && (#[trigger] spans[k]).0 <= line <= spans[k].1 && spans[k].2@ == h && forall|j: int|
                k < j < n ==> !((#[trigger] spans[j]).0 <= line <= spans[j].1),
    decreases n,
{
    if n > 0 {
        if spans[n - 1].0 <= line <= spans[n - 1].1 {
            let h = crate::pg::search::section_of(spans, n, line)->0;
            assert(spans[n - 1].2@ == h);
        } else {
            law_hit_names_its_section(spans, n - 1, line);
            if crate::pg::search::section_of(spans, n, line) is Some {
                let h = crate::pg::search::section_of(spans, n - 1, line)->0;
                let k = choose|k: int|
                    0 <= k < n - 1 && (#[trigger] spans[k]).0 <= line <= spans[k].1 && spans[k].2@ == h && forall|j: int|
                        k < j < n - 1 ==> !((#[trigger] spans[j]).0 <= line <= spans[j].1);
                assert(spans[k].2@ == h);
            }
        }
    }
}

} // verus!

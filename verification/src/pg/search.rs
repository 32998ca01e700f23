//! Full-text search: the terms of a query, how they are asked, and the lines that are shown.

use vstd::prelude::*;
use vstd::slice::slice_subrange;
use vstd::string::*;
use crate::chars::{
    ascii_lowered, has_char, is_white, joined_with, push_chars, same_chars, texts, to_ascii_lowered, white_space,
};
use crate::model::{doc, sound, Store};
use crate::storage::{Result, Storage};
use crate::terms::{held_before, hit_lines, matching_lines, show, shown, text_lines, wants, well_formed, Term, Want};
use crate::text::{chars_of, lossy_text, string_of, utf8_lossy};
use crate::tree::materialize;

verus! {

/// A query read up to some character: the terms that are complete, the one that is not, and
/// whether a quote is open.
#[verifier::ext_equal]
pub struct Reading {
    pub terms: Seq<Seq<char>>,
    pub current: Seq<char>,
    pub quoted: bool,
}

/// The term being read is complete, if it has a character.
pub open spec fn closed_term(r: Reading) -> Reading {
    if r.current.len() == 0 {
        r
    } else {
        Reading { terms: r.terms.push(r.current), current: Seq::empty(), ..r }
    }
}

/// A query read up to character `n`: white space outside quotes ends a term, and so does a quote
/// that closes.
pub open spec fn read_query(q: Seq<char>, n: int) -> Reading
    decreases n,
{
    if n <= 0 {
        Reading { terms: Seq::empty(), current: Seq::empty(), quoted: false }
    } else {
        let r = read_query(q, n - 1);
        let c = q[n - 1];
        if c == '"' {
            if r.quoted {
                closed_term(Reading { quoted: false, ..r })
            } else {
                Reading { quoted: true, ..r }
            }
        } else if white_space(c) && !r.quoted {
            closed_term(r)
        } else {
            Reading { current: r.current.push(c), ..r }
        }
    }
}

/// The first `n` terms without the word `and`, in any case.
pub open spec fn without_and(ts: Seq<Seq<char>>, n: int) -> Seq<Seq<char>>
    decreases n,
{
    if n <= 0 {
        Seq::empty()
    } else if ascii_lowered(ts[n - 1]) == "and"@ {
        without_and(ts, n - 1)
    } else {
        without_and(ts, n - 1).push(ts[n - 1])
    }
}

/// The terms of a query.
pub open spec fn terms_of(q: Seq<char>) -> Seq<Seq<char>> {
    let r = closed_term(read_query(q, q.len() as int));
    without_and(r.terms, r.terms.len() as int)
}

/// Put the term being read behind the others, if it has a character.
fn close_term(out: &mut Vec<String>, cur: &mut Vec<char>)
    ensures
        ({
            let r = closed_term(Reading { terms: texts(old(out)@), current: old(cur)@, quoted: false });
            texts(final(out)@) == r.terms && final(cur)@ == r.current
        }),
{
    if cur.len() > 0 {
        let ghost before = out@;
        let t = string_of(cur.as_slice());
        out.push(t);
        proof {
            assert(texts(out@) =~= texts(before).push(cur@));
        }
        cur.clear();
        proof {
            assert(cur@ =~= Seq::<char>::empty());
        }
    }
}

/// The terms of a query: words, `"quoted phrases"` and `prefix*`; `AND` between them is left out.
pub fn query_terms(q: &str) -> (r: Vec<String>)
    ensures
        texts(r@) == terms_of(q@),
{
    let cs: Vec<char> = chars_of(q);
    let mut out: Vec<String> = Vec::new();
    let mut cur: Vec<char> = Vec::new();
    let mut quoted: bool = false;
    let mut i: usize = 0;
    proof {
        assert(texts(out@) =~= Seq::<Seq<char>>::empty());
        assert(cur@ =~= Seq::<char>::empty());
    }
    while i < cs.len()
        invariant
            i <= cs@.len(),
            cs@ == q@,
            (Reading { terms: texts(out@), current: cur@, quoted }) == read_query(q@, i as int),
        decreases cs@.len() - i,
    {
        let c: char = cs[i];
        if c == '"' {
            if quoted {
                close_term(&mut out, &mut cur);
            }
            quoted = !quoted;
        } else if is_white(c) && !quoted {
            close_term(&mut out, &mut cur);
        } else {
            cur.push(c);
        }
        i += 1;
    }
    close_term(&mut out, &mut cur);
    let and: Vec<char> = chars_of("and");
    let ghost all = texts(out@);
    let mut kept: Vec<String> = Vec::new();
    let mut n: usize = 0;
    proof {
        assert(texts(kept@) =~= Seq::<Seq<char>>::empty());
    }
    while n < out.len()
        invariant
            n <= out@.len(),
            all == texts(out@),
            and@ == "and"@,
            texts(kept@) == without_and(all, n as int),
        decreases out@.len() - n,
    {
        let t: Vec<char> = chars_of(out[n].as_str());
        proof {
            assert(all[n as int] == out@[n as int]@);
        }
        if !same_chars(to_ascii_lowered(t.as_slice()).as_slice(), and.as_slice()) {
            let ghost before = kept@;
            kept.push(out[n].clone());
            proof {
                assert(texts(kept@) =~= texts(before).push(all[n as int]));
            }
        }
        n += 1;
    }
    kept
}

/// Every quote doubled.
pub open spec fn doubled(s: Seq<char>) -> Seq<char>
    decreases s.len(),
{
    if s.len() == 0 {
        Seq::empty()
    } else if s.last() == '\'' {
        doubled(s.drop_last()).push('\'').push('\'')
    } else {
        doubled(s.drop_last()).push(s.last())
    }
}

/// A word as `to_tsquery` takes it.
pub open spec fn lexeme(s: Seq<char>) -> Seq<char> {
    "'"@ + doubled(s) + "'"@
}

fn quote_lexeme(s: &[char]) -> (out: Vec<char>)
    ensures
        out@ == lexeme(s@),
{
    let mut out: Vec<char> = chars_of("'");
    let mut i: usize = 0;
    proof {
        assert(out@ =~= "'"@ + doubled(s@.take(0)));
    }
    while i < s.len()
        invariant
            i <= s@.len(),
            out@ == "'"@ + doubled(s@.take(i as int)),
        decreases s@.len() - i,
    {
        proof {
            assert(s@.take(i + 1).drop_last() =~= s@.take(i as int));
            assert(s@.take(i + 1).last() == s@[i as int]);
        }
        let ghost before = doubled(s@.take(i as int));
        if s[i] == '\'' {
            out.push('\'');
        }
        out.push(s[i]);
        proof {
            assert(out@ =~= "'"@ + doubled(s@.take(i + 1)));
        }
        i += 1;
    }
    proof {
        assert(s@.take(i as int) =~= s@);
        reveal_strlit("'");
    }
    out.push('\'');
    proof {
        assert(out@ =~= lexeme(s@));
    }
    out
}

/// The first place from `i` on that is white space, or is not; the length if there is none.
pub open spec fn run_end(s: Seq<char>, white: bool, i: int) -> int
    decreases s.len() - i,
{
    if i >= s.len() {
        s.len() as int
    } else if white_space(s[i]) != white {
        i
    } else {
        run_end(s, white, i + 1)
    }
}

/// The words of a text from place `i` on, as white space parts them.
pub open spec fn white_words(s: Seq<char>, i: int) -> Seq<Seq<char>>
    decreases s.len() - i,
{
    let from = run_end(s, true, i);
    let to = run_end(s, false, from);
    if i < 0 || from < i || from >= s.len() || to <= from || to > s.len() {
        Seq::empty()
    } else {
        seq![s.subrange(from, to)] + white_words(s, to)
    }
}

proof fn lemma_run_end(s: Seq<char>, white: bool, i: int)
    requires
        0 <= i <= s.len(),
    ensures
        i <= run_end(s, white, i) <= s.len(),
        i < s.len() && white_space(s[i]) == white ==> run_end(s, white, i) > i,
    decreases s.len() - i,
{
    if i < s.len() && white_space(s[i]) == white {
        lemma_run_end(s, white, i + 1);
    }
}

fn find_run_end(s: &[char], white: bool, i: usize) -> (r: usize)
    requires
        i <= s@.len(),
    ensures
        r == run_end(s@, white, i as int),
        i <= r <= s@.len(),
{
    let mut j: usize = i;
    while j < s.len() && is_white(s[j]) == white
        invariant
            i <= j <= s@.len(),
            run_end(s@, white, i as int) == run_end(s@, white, j as int),
        decreases s@.len() - j,
    {
        j += 1;
    }
    j
}

/// The words of a phrase, each as `to_tsquery` takes it, one behind the other.
pub open spec fn lexemes(ws: Seq<Seq<char>>) -> Seq<Seq<char>> {
    Seq::new(ws.len(), |i: int| lexeme(ws[i]))
}

/// A term as `to_tsquery` takes it: a prefix, a phrase, or a word.
pub open spec fn tsquery(t: Seq<char>) -> Seq<char> {
    if t.len() > 0 && t.last() == '*' {
        lexeme(t.drop_last()) + ":*"@
    } else if t.contains(' ') {
        joined_with(lexemes(white_words(t, 0)), " <-> "@)
    } else {
        lexeme(t)
    }
}

fn phrase_query(t: &[char]) -> (out: Vec<char>)
    ensures
        out@ == joined_with(lexemes(white_words(t@, 0)), " <-> "@),
{
    let arrow: Vec<char> = chars_of(" <-> ");
    let mut out: Vec<char> = Vec::new();
    let mut any: bool = false;
    let mut i: usize = 0;
    let ghost mut done: Seq<Seq<char>> = Seq::empty();
    proof {
        assert(done + white_words(t@, 0) =~= white_words(t@, 0));
        assert(out@ =~= joined_with(lexemes(done), " <-> "@));
    }
    while i < t.len()
        invariant
            i <= t@.len(),
            arrow@ == " <-> "@,
            any == (done.len() > 0),
            done + white_words(t@, i as int) == white_words(t@, 0),
            out@ == joined_with(lexemes(done), " <-> "@),
        decreases t@.len() - i,
    {
        let from: usize = find_run_end(t, true, i);
        let to: usize = find_run_end(t, false, from);
        if from >= t.len() {
            i = t.len();
            proof {
                assert(white_words(t@, i as int) =~= Seq::<Seq<char>>::empty());
            }
        } else {
            proof {
                lemma_run_end(t@, true, i as int);
                lemma_stops(t@, true, i as int);
                lemma_run_end(t@, false, from as int);
            }
            let word = slice_subrange(t, from, to);
            let l: Vec<char> = quote_lexeme(word);
            let ghost out0 = out@;
            if any {
                push_chars(&mut out, arrow.as_slice());
            }
            push_chars(&mut out, l.as_slice());
            proof {
                let now = done.push(word@);
                assert(lexemes(now).drop_last() =~= lexemes(done));
                assert(lexemes(now).last() == lexeme(word@));
                if done.len() == 0 {
                    assert(lexemes(now)[0] == lexeme(word@));
                    assert(out@ =~= lexeme(word@));
                } else {
                    assert(out@ =~= out0 + " <-> "@ + lexeme(word@));
                }
                assert(done + (seq![word@] + white_words(t@, to as int)) =~= now + white_words(t@, to as int));
                done = now;
            }
            any = true;
            i = to;
        }
    }
    proof {
        assert(white_words(t@, i as int) =~= Seq::<Seq<char>>::empty());
        assert(done + Seq::<Seq<char>>::empty() =~= done);
    }
    out
}

proof fn lemma_stops(s: Seq<char>, white: bool, i: int)
    requires
        0 <= i <= s.len(),
    ensures
        run_end(s, white, i) < s.len() ==> white_space(s[run_end(s, white, i)]) != white,
    decreases s.len() - i,
{
    if i < s.len() && white_space(s[i]) == white {
        lemma_stops(s, white, i + 1);
    }
}

/// A term as `to_tsquery` takes it: `'stem':*` for a prefix, words in a row for a phrase.
pub fn tsquery_term(t: &str) -> (r: String)
    ensures
        r@ == tsquery(t@),
{
    let cs: Vec<char> = chars_of(t);
    let n: usize = cs.len();
    if n > 0 && cs[n - 1] == '*' {
        let stem = slice_subrange(cs.as_slice(), 0, n - 1);
        proof {
            assert(stem@ =~= t@.drop_last());
        }
        let mut out: Vec<char> = quote_lexeme(stem);
        push_chars(&mut out, chars_of(":*").as_slice());
        return string_of(out.as_slice());
    }
    if has_char(cs.as_slice(), ' ') {
        return string_of(phrase_query(cs.as_slice()).as_slice());
    }
    string_of(quote_lexeme(cs.as_slice()).as_slice())
}

/// A file that a term was found in. The ranks order as the numbers that stand for them.
#[derive(Clone, Copy, Debug, PartialEq, Eq, Structural)]
pub struct Ranked {
    pub file_id: i64,
    pub rank: u32,
}

/// A file is among the first `n` rows.
pub open spec fn listed(rows: Seq<Ranked>, n: int, id: i64) -> bool {
    exists|i: int| 0 <= i < n && (#[trigger] rows[i]).file_id == id
}

/// A file is among the rows of every term but the first.
pub open spec fn in_others(per_term: Seq<Vec<Ranked>>, id: i64) -> bool {
    forall|k: int| 1 <= k < per_term.len() ==> listed((#[trigger] per_term[k])@, per_term[k]@.len() as int, id)
}

/// The files that hold every term, each with its first rank for the first term.
pub open spec fn holders(per_term: Seq<Vec<Ranked>>, n: int) -> Seq<Ranked>
    decreases n,
{
    if n <= 0 {
        Seq::empty()
    } else {
        let before = holders(per_term, n - 1);
        let r = per_term[0]@[n - 1];
        if !listed(per_term[0]@, n - 1, r.file_id) && in_others(per_term, r.file_id) {
            before.push(r)
        } else {
            before
        }
    }
}

/// The place behind all rows that rank at least as high.
pub open spec fn rank_place(rows: Seq<Ranked>, rank: u32) -> int
    decreases rows.len(),
{
    if rows.len() == 0 || rows.last().rank >= rank {
        rows.len() as int
    } else {
        rank_place(rows.drop_last(), rank)
    }
}

/// The first `n` rows, best first; those that rank alike stay in order.
pub open spec fn by_rank(rows: Seq<Ranked>, n: int) -> Seq<Ranked>
    decreases n,
{
    if n <= 0 {
        Seq::empty()
    } else {
        let before = by_rank(rows, n - 1);
        before.insert(rank_place(before, rows[n - 1].rank), rows[n - 1])
    }
}

fn is_listed(rows: &Vec<Ranked>, n: usize, id: i64) -> (r: bool)
    requires
        n <= rows@.len(),
    ensures
        r == listed(rows@, n as int, id),
{
    let mut i: usize = 0;
    while i < n
        invariant
            i <= n <= rows@.len(),
            forall|k: int| 0 <= k < i ==> (#[trigger] rows@[k]).file_id != id,
        decreases n - i,
    {
        if rows[i].file_id == id {
            return true;
        }
        i += 1;
    }
    false
}

fn holds_rest(per_term: &Vec<Vec<Ranked>>, id: i64) -> (r: bool)
    requires
        per_term@.len() > 0,
    ensures
        r == in_others(per_term@, id),
{
    let mut k: usize = 1;
    while k < per_term.len()
        invariant
            1 <= k <= per_term@.len(),
            forall|j: int| 1 <= j < k ==> listed((#[trigger] per_term@[j])@, per_term@[j]@.len() as int, id),
        decreases per_term@.len() - k,
    {
        if !is_listed(&per_term[k], per_term[k].len(), id) {
            proof {
                assert(!listed(per_term@[k as int]@, per_term@[k as int]@.len() as int, id));
            }
            return false;
        }
        k += 1;
    }
    true
}

/// The files that hold every term, best first.
pub fn candidates(per_term: &Vec<Vec<Ranked>>) -> (out: Vec<Ranked>)
    requires
        per_term@.len() > 0,
    ensures
        ({
            let all = holders(per_term@, per_term@[0]@.len() as int);
            out@ == by_rank(all, all.len() as int)
        }),
{
    let rows = &per_term[0];
    let mut all: Vec<Ranked> = Vec::new();
    let mut n: usize = 0;
    while n < rows.len()
        invariant
            n <= rows@.len(),
            per_term@.len() > 0,
            rows == per_term@[0],
            all@ == holders(per_term@, n as int),
        decreases rows@.len() - n,
    {
        let r: Ranked = rows[n];
        if !is_listed(rows, n, r.file_id) && holds_rest(per_term, r.file_id) {
            all.push(r);
        }
        n += 1;
    }
    sort_by_rank(&all)
}

fn sort_by_rank(all: &Vec<Ranked>) -> (out: Vec<Ranked>)
    ensures
        out@ == by_rank(all@, all@.len() as int),
{
    let mut out: Vec<Ranked> = Vec::new();
    let mut n: usize = 0;
    while n < all.len()
        invariant
            n <= all@.len(),
            out@ == by_rank(all@, n as int),
        decreases all@.len() - n,
    {
        let r: Ranked = all[n];
        let ghost sorted = out@;
        let mut i: usize = out.len();
        proof {
            assert(sorted.take(i as int) =~= sorted);
        }
        while i > 0 && out[i - 1].rank < r.rank
            invariant
                i <= out@.len(),
                out@ == sorted,
                rank_place(sorted, r.rank) == rank_place(sorted.take(i as int), r.rank),
            decreases i,
        {
            proof {
                assert(sorted.take(i as int).last() == out@[i - 1]);
                assert(sorted.take(i as int).drop_last() =~= sorted.take(i - 1));
            }
            i -= 1;
        }
        proof {
            if i > 0 {
                assert(sorted.take(i as int).last() == out@[i - 1]);
            }
        }
        out.insert(i, r);
        n += 1;
    }
    out
}

/// A heading span: its first and last line, and its heading path.
pub type Span = (i64, i64, String);

/// The deepest of the first `n` heading spans that contain a line; spans nest, so the last match
/// is the most specific, which is the one a reader means.
pub open spec fn section_of(spans: Seq<Span>, n: int, line: int) -> Option<Seq<char>>
    decreases n,
{
    if n <= 0 {
        None
    } else if spans[n - 1].0 <= line <= spans[n - 1].1 {
        Some(spans[n - 1].2@)
    } else {
        section_of(spans, n - 1, line)
    }
}

/// The deepest heading span containing a line.
pub fn section_at(spans: &Vec<Span>, line: usize) -> (r: Option<String>)
    ensures
        match r {
            Some(h) => section_of(spans@, spans@.len() as int, line as int) == Some(h@),
            None => section_of(spans@, spans@.len() as int, line as int) is None,
        },
{
    let mut n: usize = spans.len();
    while n > 0
        invariant
            n <= spans@.len(),
            section_of(spans@, spans@.len() as int, line as int) == section_of(spans@, n as int, line as int),
        decreases n,
    {
        let s = &spans[n - 1];
        let begun: bool = s.0 < 0 || s.0 as u64 <= line as u64;
        let open: bool = s.1 >= 0 && line as u64 <= s.1 as u64;
        if begun && open {
            return Some(s.2.clone());
        }
        n -= 1;
    }
    None
}

/// A document to search.
#[derive(Debug)]
pub struct SearchDoc {
    pub path: String,
    pub version: i64,
    pub root: crate::hash::Hash,
    pub rank: u32,
    pub spans: Vec<Span>,
}

/// A line that is found.
#[derive(Debug, PartialEq, Eq)]
pub struct Hit {
    pub path: String,
    pub version: i64,
    /// Counted from one.
    pub line: usize,
    pub text: String,
    pub section: Option<String>,
    pub rank: u32,
    /// How many lines of the document match beyond those shown.
    pub more: usize,
}

/// A found line as a mathematical value.
#[verifier::ext_equal]
pub struct Shown {
    pub path: Seq<char>,
    pub version: i64,
    pub line: int,
    pub text: Seq<char>,
    pub section: Option<Seq<char>>,
    pub rank: u32,
    pub more: int,
}

impl View for Hit {
    type V = Shown;

    open spec fn view(&self) -> Shown {
        Shown {
            path: self.path@,
            version: self.version,
            line: self.line as int,
            text: self.text@,
            section: match self.section {
                Some(s) => Some(s@),
                None => None,
            },
            rank: self.rank,
            more: self.more as int,
        }
    }
}

pub open spec fn shown_hits(v: Seq<Hit>) -> Seq<Shown> {
    Seq::new(v.len(), |i: int| v[i]@)
}

/// The lines of a document that hold any term; none if some term is on no line at all.
pub open spec fn found_lines(ts: Seq<Want>, lines: Seq<Seq<char>>) -> Seq<int> {
    if forall|k: int| 0 <= k < ts.len() ==> held_before(#[trigger] ts[k], lines, lines.len() as int) {
        hit_lines(ts, lines, lines.len() as int)
    } else {
        Seq::empty()
    }
}

/// The smaller of two numbers.
pub open spec fn least(a: int, b: int) -> int {
    if a < b {
        a
    } else {
        b
    }
}

/// What is shown of a document, at most `per_file` lines.
pub open spec fn doc_hits(d: SearchDoc, text: Seq<u8>, ts: Seq<Want>, per_file: int) -> Seq<Shown> {
    let lines = text_lines(utf8_lossy(text));
    let at = found_lines(ts, lines);
    Seq::new(
        least(at.len() as int, per_file) as nat,
        |i: int|
            Shown {
                path: d.path@,
                version: d.version,
                line: at[i] + 1,
                text: shown(lines[at[i]], ts),
                section: section_of(d.spans@, d.spans@.len() as int, at[i] + 1),
                rank: d.rank,
                more: if at.len() > per_file {
                    at.len() - per_file
                } else {
                    0
                },
            },
    )
}

/// What is shown of the first `n` documents.
pub open spec fn all_hits(st: Store, docs: Seq<SearchDoc>, n: int, ts: Seq<Want>, per_file: int) -> Seq<Shown>
    decreases n,
{
    if n <= 0 {
        Seq::empty()
    } else {
        all_hits(st, docs, n - 1, ts, per_file) + doc_hits(docs[n - 1], doc(st, docs[n - 1].root@), ts, per_file)
    }
}

/// At most `limit` of some items.
pub open spec fn at_most<T>(s: Seq<T>, limit: int) -> Seq<T> {
    if s.len() > limit {
        s.take(limit)
    } else {
        s
    }
}

/// Put what is shown of one document behind the hits, as far as there is room.
fn add_hits(d: &SearchDoc, body: &[u8], terms: &Vec<Term>, limit: usize, per_file: usize, hits: &mut Vec<Hit>)
    requires
        forall|k: int| 0 <= k < terms@.len() ==> well_formed(#[trigger] wants(terms@)[k]),
        old(hits)@.len() <= limit,
    ensures
        shown_hits(final(hits)@) == at_most(
            shown_hits(old(hits)@) + doc_hits(*d, body@, wants(terms@), per_file as int),
            limit as int,
        ),
        final(hits)@.len() <= limit,
{
    let text = lossy_text(body);
    let ghost ts = wants(terms@);
    let ghost lines = text_lines(utf8_lossy(body@));
    let ghost at = found_lines(ts, lines);
    let ghost new = doc_hits(*d, body@, ts, per_file as int);
    let ghost before = shown_hits(hits@);
    match matching_lines(terms.as_slice(), text.as_str()) {
        Some(found) => {
            proof {
                assert(at == hit_lines(ts, lines, lines.len() as int));
                assert(found@.len() == at.len());
            }
            let more: usize = if found.len() > per_file {
                found.len() - per_file
            } else {
                0
            };
            let mut i: usize = 0;
            proof {
                assert(before + new.take(0) =~= before);
            }
            while i < found.len() && i < per_file && hits.len() < limit
                invariant
                    i <= found@.len(),
                    i <= per_file,
                    ts == wants(terms@),
                    forall|k: int| 0 <= k < terms@.len() ==> well_formed(#[trigger] wants(terms@)[k]),
                    found@.len() == at.len(),
                    crate::terms::lines_listed(lines, at, found@),
                    new == doc_hits(*d, body@, ts, per_file as int),
                    lines == text_lines(utf8_lossy(body@)),
                    at == found_lines(ts, lines),
                    more == (if at.len() > per_file { at.len() - per_file } else { 0 }),
                    shown_hits(hits@) == before + new.take(i as int),
                    hits@.len() == before.len() + i,
                    hits@.len() <= limit,
                decreases found@.len() - i,
            {
                let (n, line): (usize, &str) = found[i];
                let ghost hits0 = hits@;
                let hit = Hit {
                    path: d.path.clone(),
                    version: d.version,
                    line: n,
                    text: show(line, terms.as_slice()),
                    section: section_at(&d.spans, n),
                    rank: d.rank,
                    more,
                };
                proof {
                    assert(found@[i as int].0 == at[i as int] + 1);
                    assert(hit@ =~= new[i as int]);
                }
                hits.push(hit);
                proof {
                    assert(shown_hits(hits@) =~= shown_hits(hits0).push(new[i as int]));
                    assert(new.take(i + 1) =~= new.take(i as int).push(new[i as int]));
                    assert(before + new.take(i + 1) =~= (before + new.take(i as int)).push(new[i as int]));
                }
                i += 1;
            }
            proof {
                assert(hits@.len() == shown_hits(hits@).len());
                if i < new.len() {
                    assert(hits@.len() == limit);
                    assert((before + new).take(limit as int) =~= before + new.take(i as int));
                } else {
                    assert(new.take(i as int) =~= new);
                }
                assert(shown_hits(hits@) =~= at_most(before + new, limit as int));
            }
        },
        None => {
            proof {
                assert(new =~= Seq::<Shown>::empty());
                assert(before + new =~= before);
                assert(hits@.len() == before.len());
            }
        },
    }
}

proof fn lemma_hits_prefix(st: Store, docs: Seq<SearchDoc>, n: int, m: int, ts: Seq<Want>, per_file: int, limit: int)
    requires
        0 <= n <= m,
        0 <= limit,
        all_hits(st, docs, n, ts, per_file).len() >= limit,
    ensures
        at_most(all_hits(st, docs, n, ts, per_file), limit) == at_most(all_hits(st, docs, m, ts, per_file), limit),
    decreases m - n,
{
    if n < m {
        let a = all_hits(st, docs, m - 1, ts, per_file);
        lemma_hits_prefix(st, docs, n, m - 1, ts, per_file, limit);
        let b = all_hits(st, docs, m, ts, per_file);
        lemma_hits_len(st, docs, n, m - 1, ts, per_file);
        assert(b.take(limit) =~= a.take(limit));
        if a.len() == limit {
            assert(a.take(limit) =~= a);
        }
        if b.len() == limit {
            assert(b.take(limit) =~= b);
        }
    }
}

proof fn lemma_hits_len(st: Store, docs: Seq<SearchDoc>, n: int, m: int, ts: Seq<Want>, per_file: int)
    requires
        0 <= n <= m,
    ensures
        all_hits(st, docs, n, ts, per_file).len() <= all_hits(st, docs, m, ts, per_file).len(),
    decreases m - n,
{
    if n < m {
        lemma_hits_len(st, docs, n, m - 1, ts, per_file);
    }
}

/// The lines that hold the terms, document by document: at most `per_file` of each and `limit` in
/// all.
pub fn search<S: Storage + ?Sized>(storage: &S, terms: &Vec<Term>, docs: &Vec<SearchDoc>, limit: usize, per_file: usize) -> (r:
    Result<Vec<Hit>>)
    requires
        sound(storage.store()),
        forall|k: int| 0 <= k < terms@.len() ==> well_formed(#[trigger] wants(terms@)[k]),
    ensures
        storage.local() && (forall|i: int|
            0 <= i < docs@.len() ==> storage.store().nodes.contains_key((#[trigger] docs@[i]).root@)) ==> r is Ok,
        r matches Ok(v) ==> shown_hits(v@) == at_most(
            all_hits(storage.store(), docs@, docs@.len() as int, wants(terms@), per_file as int),
            limit as int,
        ),
{
    let ghost st = storage.store();
    let ghost ts = wants(terms@);
    let mut hits: Vec<Hit> = Vec::new();
    let mut n: usize = 0;
    proof {
        assert(shown_hits(hits@) =~= Seq::<Shown>::empty());
    }
    while n < docs.len() && hits.len() < limit
        invariant
            n <= docs@.len(),
            sound(storage.store()),
            st == storage.store(),
            ts == wants(terms@),
            forall|k: int| 0 <= k < terms@.len() ==> well_formed(#[trigger] wants(terms@)[k]),
            hits@.len() <= limit,
            shown_hits(hits@) == at_most(all_hits(st, docs@, n as int, ts, per_file as int), limit as int),
        decreases docs@.len() - n,
    {
        let d = &docs[n];
        let ghost all0 = all_hits(st, docs@, n as int, ts, per_file as int);
        proof {
            assert(hits@.len() == shown_hits(hits@).len());
            assert(shown_hits(hits@) == all0);
        }
        let body: Vec<u8> = match materialize(storage, &d.root) {
            Ok(b) => b,
            Err(e) => {
                proof {
                    assert(!storage.local() || !st.nodes.contains_key(docs@[n as int].root@));
                }
                return Err(e);
            },
        };
        add_hits(d, body.as_slice(), terms, limit, per_file, &mut hits);
        n += 1;
    }
    proof {
        assert(hits@.len() == shown_hits(hits@).len());
        if n < docs@.len() {
            lemma_hits_prefix(st, docs@, n as int, docs@.len() as int, ts, per_file as int, limit as int);
        }
    }
    Ok(hits)
}

} // verus!

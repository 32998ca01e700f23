//! Choosing what to show for a search hit: which line matched, and a window of it.
//!
//! One implementation for both bindings: a search that finds the right document and shows the
//! wrong line reads as broken.

use vstd::prelude::*;
use vstd::slice::slice_subrange;
use vstd::string::*;
use crate::chars::{find_text, is_white, occurs, push_chars, texts, trim_end, trim_end_char, white_space};
use crate::fold::{fold_chars, folded};
use crate::terms::{cuts, earlier, earlier_of, find_words, first_place, line_spans, or_start, place_view, text_lines};
use crate::text::{chars_of, lossy_text, string_of, utf8_lossy};

verus! {

/// At most the first `n` characters.
pub open spec fn head_of(s: Seq<char>, n: int) -> Seq<char> {
    if s.len() <= n {
        s
    } else {
        s.take(n)
    }
}

pub(crate) fn head(s: &[char], n: usize) -> (r: String)
    ensures
        r@ == head_of(s@, n as int),
{
    if s.len() <= n {
        string_of(s)
    } else {
        let h = slice_subrange(s, 0, n);
        assert(h@ =~= s@.take(n as int));
        string_of(h)
    }
}

/// Where a window of `width` characters begins that has `lead` of them before place `at`, as far
/// as the text has so many.
pub open spec fn window_from(total: int, at: int, width: int, lead: int) -> int {
    let from = if at < lead { 0 } else { at - lead };
    let last = if total < width { 0 } else { total - width };
    if from < last {
        from
    } else {
        last
    }
}

/// A window of a line around place `at`, elided at whichever end was cut.
pub open spec fn windowed(line: Seq<char>, at: int, width: int, lead: int) -> Seq<char> {
    let from = window_from(line.len() as int, at, width, lead);
    let body = head_of(line.skip(from), width);
    (if from > 0 { seq!['…'] } else { Seq::empty() }) + body + (if from + width < line.len() {
        seq!['…']
    } else {
        Seq::empty()
    })
}

/// A window of `width` characters of `line`, with `lead` of them before character `at`, elided
/// at whichever end was cut.
pub fn window(line: &str, at: usize, width: usize, lead: usize) -> (r: String)
    ensures
        r@ == windowed(line@, at as int, width as int, lead as int),
{
    let c = chars_of(line);
    let total: usize = c.len();
    let from: usize = if at < lead {
        0
    } else {
        at - lead
    };
    let last: usize = if total < width {
        0
    } else {
        total - width
    };
    let from: usize = if from < last {
        from
    } else {
        last
    };
    let rest = slice_subrange(c.as_slice(), from, total);
    assert(rest@ =~= c@.skip(from as int));
    let body = head(rest, width);
    let mut out: Vec<char> = Vec::new();
    if from > 0 {
        out.push('…');
    }
    push_chars(&mut out, chars_of(body.as_str()).as_slice());
    if width < total - from {
        out.push('…');
    }
    assert(out@ =~= windowed(line@, at as int, width as int, lead as int));
    string_of(out.as_slice())
}

/// How far a text goes without white space.
pub open spec fn dark_len(s: Seq<char>) -> int
    decreases s.len(),
{
    if s.len() > 0 && !white_space(s[0]) {
        1 + dark_len(s.skip(1))
    } else {
        0
    }
}

/// The parts of a text between white space, folded and without stars at their end; none empty.
pub open spec fn needed_words(s: Seq<char>) -> Seq<Seq<char>>
    decreases s.len(),
{
    if s.len() == 0 {
        Seq::empty()
    } else if white_space(s[0]) {
        needed_words(s.skip(1))
    } else {
        let n = dark_len(s);
        if n < 1 || n > s.len() {
            Seq::empty()
        } else {
            let w = folded(trim_end(s.take(n), '*'));
            let rest = needed_words(s.skip(n));
            if w.len() == 0 {
                rest
            } else {
                seq![w] + rest
            }
        }
    }
}

/// The words each term needs; a phrase needs all of its own. Terms that need none are left out.
pub open spec fn needed(terms: Seq<Seq<char>>) -> Seq<Seq<Seq<char>>>
    decreases terms.len(),
{
    if terms.len() == 0 {
        Seq::empty()
    } else {
        let front = needed(terms.drop_last());
        let w = needed_words(terms.last());
        if w.len() == 0 {
            front
        } else {
            front.push(w)
        }
    }
}

/// How many of some words a line holds.
pub open spec fn words_held(line: Seq<char>, ws: Seq<Seq<char>>) -> nat
    decreases ws.len(),
{
    if ws.len() == 0 {
        0
    } else {
        words_held(line, ws.drop_last()) + if occurs(line, ws.last()) { 1nat } else { 0 }
    }
}

/// How many whole terms a line satisfies, and how many single words it holds.
pub open spec fn line_score(line: Seq<char>, wanted: Seq<Seq<Seq<char>>>) -> (nat, nat)
    decreases wanted.len(),
{
    if wanted.len() == 0 {
        (0, 0)
    } else {
        let front = line_score(line, wanted.drop_last());
        let n = words_held(line, wanted.last());
        (front.0 + if n == wanted.last().len() { 1nat } else { 0 }, front.1 + n)
    }
}

/// The earliest place in a line of any wanted word.
pub open spec fn match_place(line: Seq<char>, wanted: Seq<Seq<Seq<char>>>) -> Option<int>
    decreases wanted.len(),
{
    if wanted.len() == 0 {
        None
    } else {
        earlier(match_place(line, wanted.drop_last()), first_place(line, wanted.last()))
    }
}

/// Scores are compared by whole terms first, then by words.
pub open spec fn beats(a: (nat, nat), b: (nat, nat)) -> bool {
    a.0 > b.0 || a.0 == b.0 && a.1 > b.1
}

/// The best line so far: its score, its place, and where in it the match begins.
pub struct Best {
    pub score: (nat, nat),
    pub line: int,
    pub at: int,
}

/// The best of the first `n` lines, and the first of those with one score.
pub open spec fn best_line(lines: Seq<Seq<char>>, wanted: Seq<Seq<Seq<char>>>, n: int) -> Best
    decreases n,
{
    if n <= 0 {
        Best { score: (0, 0), line: 0, at: 0 }
    } else {
        let b = best_line(lines, wanted, n - 1);
        let f = folded(lines[n - 1]);
        let s = line_score(f, wanted);
        if beats(s, b.score) {
            Best { score: s, line: n - 1, at: or_start(match_place(f, wanted)) }
        } else {
            b
        }
    }
}

/// Characters shown. Enough to read, short enough for a list of results.
pub const WIDTH: usize = 200;

/// How much of the window sits before the match, so it reads with a little lead-in.
pub const SNIPPET_LEAD: usize = 60;

/// The line of a text that best matches, and what is shown of it.
pub open spec fn located(text: Seq<char>, terms: Seq<Seq<char>>) -> (int, Seq<char>) {
    let lines = text_lines(text);
    let wanted = needed(terms);
    if wanted.len() == 0 {
        (0, head_of(if lines.len() > 0 { lines[0] } else { Seq::empty() }, WIDTH as int))
    } else {
        let b = best_line(lines, wanted, lines.len() as int);
        let line = if lines.len() > 0 { lines[b.line] } else { Seq::empty() };
        (b.line, if line.len() <= WIDTH { line } else { windowed(line, b.at, WIDTH as int, SNIPPET_LEAD as int) })
    }
}

proof fn lemma_dark_len(s: Seq<char>)
    ensures
        0 <= dark_len(s) <= s.len(),
        s.len() > 0 && !white_space(s[0]) ==> dark_len(s) >= 1,
    decreases s.len(),
{
    if s.len() > 0 && !white_space(s[0]) {
        lemma_dark_len(s.skip(1));
    }
}

fn dark_end(s: &[char], from: usize) -> (r: usize)
    requires
        from <= s@.len(),
    ensures
        from <= r <= s@.len(),
        r - from == dark_len(s@.skip(from as int)),
{
    let mut i: usize = from;
    while i < s.len() && !is_white(s[i])
        invariant
            from <= i <= s@.len(),
            dark_len(s@.skip(from as int)) == i - from + dark_len(s@.skip(i as int)),
        decreases s@.len() - i,
    {
        assert(s@.skip(i as int).skip(1) =~= s@.skip(i + 1));
        i += 1;
    }
    i
}

/// The words a term needs.
fn term_needs(t: &str) -> (out: Vec<String>)
    ensures
        texts(out@) == needed_words(t@),
{
    let s = chars_of(t);
    let mut out: Vec<String> = Vec::new();
    let mut i: usize = 0;
    proof {
        assert(s@.skip(0) =~= s@);
        assert(texts(out@) + needed_words(s@.skip(0)) =~= needed_words(s@));
    }
    while i < s.len()
        invariant
            i <= s@.len(),
            needed_words(s@) == texts(out@) + needed_words(s@.skip(i as int)),
        decreases s@.len() - i,
    {
        let ghost rest = s@.skip(i as int);
        if is_white(s[i]) {
            assert(rest.skip(1) =~= s@.skip(i + 1));
            i += 1;
        } else {
            let e = dark_end(s.as_slice(), i);
            proof {
                assert(rest[0] == s@[i as int]);
                lemma_dark_len(rest);
                assert(rest.take(e - i) =~= s@.subrange(i as int, e as int));
                assert(rest.skip(e - i) =~= s@.skip(e as int));
            }
            let f = fold_chars(trim_end_char(slice_subrange(s.as_slice(), i, e), '*'));
            let ghost before = out@;
            if f.len() > 0 {
                let w = string_of(f.as_slice());
                out.push(w);
                proof {
                    assert(texts(out@) =~= texts(before).push(w@));
                    assert(texts(before) + (seq![w@] + needed_words(s@.skip(e as int))) =~= texts(out@) + needed_words(
                        s@.skip(e as int),
                    ));
                }
            }
            i = e;
        }
    }
    assert(texts(out@) + needed_words(s@.skip(i as int)) =~= texts(out@));
    out
}

spec fn word_lists(v: Seq<Vec<String>>) -> Seq<Seq<Seq<char>>> {
    Seq::new(v.len(), |i: int| texts(v[i]@))
}

fn all_needs(terms: &[String]) -> (out: Vec<Vec<String>>)
    ensures
        word_lists(out@) == needed(texts(terms@)),
{
    let ghost all = texts(terms@);
    let mut out: Vec<Vec<String>> = Vec::new();
    let mut i: usize = 0;
    assert(all.take(0) =~= Seq::empty());
    assert(word_lists(out@) =~= Seq::empty());
    while i < terms.len()
        invariant
            i <= terms@.len(),
            all == texts(terms@),
            word_lists(out@) == needed(all.take(i as int)),
        decreases terms@.len() - i,
    {
        let ghost before = out@;
        proof {
            assert(all.take(i + 1).drop_last() =~= all.take(i as int));
            assert(all.take(i + 1).last() == terms@[i as int]@);
        }
        let w = term_needs(terms[i].as_str());
        if w.len() > 0 {
            let ghost tw = texts(w@);
            out.push(w);
            assert(word_lists(out@) =~= word_lists(before).push(tw));
        }
        i += 1;
    }
    assert(all.take(i as int) =~= all);
    out
}

fn count_held(line: &[char], ws: &Vec<String>) -> (n: usize)
    ensures
        n == words_held(line@, texts(ws@)),
        n <= ws@.len(),
{
    let ghost all = texts(ws@);
    let mut n: usize = 0;
    let mut i: usize = 0;
    assert(all.take(0) =~= Seq::empty());
    while i < ws.len()
        invariant
            i <= ws@.len(),
            all == texts(ws@),
            n <= i,
            n == words_held(line@, all.take(i as int)),
        decreases ws@.len() - i,
    {
        proof {
            assert(all.take(i + 1).drop_last() =~= all.take(i as int));
            assert(all.take(i + 1).last() == ws@[i as int]@);
        }
        let w = chars_of(ws[i].as_str());
        if find_text(line, w.as_slice(), 0).is_some() {
            n = n + 1;
        }
        i += 1;
    }
    assert(all.take(i as int) =~= all);
    n
}

/// Whole terms and words that a line holds, and the earliest place of any of them.
fn score(line: &[char], wanted: &Vec<Vec<String>>) -> (r: (usize, u128, Option<usize>))
    ensures
        (r.0 as nat, r.1 as nat) == line_score(line@, word_lists(wanted@)),
        place_view(r.2) == match_place(line@, word_lists(wanted@)),
{
    let ghost all = word_lists(wanted@);
    let mut n: usize = 0;
    let mut words: u128 = 0;
    let mut at: Option<usize> = None;
    let mut i: usize = 0;
    assert(all.take(0) =~= Seq::empty());
    while i < wanted.len()
        invariant
            i <= wanted@.len(),
            all == word_lists(wanted@),
            n <= i,
            words <= i * (usize::MAX as int),
            (n as nat, words as nat) == line_score(line@, all.take(i as int)),
            place_view(at) == match_place(line@, all.take(i as int)),
        decreases wanted@.len() - i,
    {
        proof {
            assert(all.take(i + 1).drop_last() =~= all.take(i as int));
            assert(all.take(i + 1).last() == texts(wanted@[i as int]@));
            assert(i < wanted.len());
            assert(i * (usize::MAX as int) + usize::MAX == (i + 1) * (usize::MAX as int)) by (nonlinear_arith);
            assert((i + 1) * (usize::MAX as int) <= (usize::MAX as int) * (usize::MAX as int)) by (nonlinear_arith)
                requires
                    i + 1 <= usize::MAX,
            ;
            assert((usize::MAX as int) * (usize::MAX as int) <= u128::MAX) by (nonlinear_arith)
                requires
                    usize::MAX as int <= 0xffff_ffff_ffff_ffff,
            ;
        }
        let ws = &wanted[i];
        let h: usize = count_held(line, ws);
        if h == ws.len() {
            n = n + 1;
        }
        words = words + h as u128;
        let p = find_words(line, ws);
        at = earlier_of(at, p);
        i += 1;
    }
    assert(all.take(i as int) =~= all);
    (n, words, at)
}

/// The line of `bytes` that best matches `terms`, and a snippet window around the match.
///
/// Three things this has to get right:
///
/// * **Folding.** The index strips diacritics, so a chunk holding `façade` is indexed under
///   `facade`. Both sides go through [`crate::fold::fold`].
/// * **Phrases.** A quoted phrase is one term with the spaces in it. A term is matched word by
///   word, which is also what makes the document-level AND the rest of search uses consistent
///   with what it shows.
/// * **Where the window sits.** On a long line the snippet is a window around the match, elided
///   at whichever end was cut.
///
/// Lines are scored on two counts, in that order: how many whole terms the line satisfies, then
/// how many individual words it holds. The second is what keeps a phrase whose words fall on
/// different lines from scoring zero everywhere and landing on the top of the chunk.
pub fn locate_terms(bytes: &[u8], terms: &[String]) -> (r: (usize, String))
    ensures
        (r.0 as int, r.1@) == located(utf8_lossy(bytes@), texts(terms@)),
{
    let raw = lossy_text(bytes);
    let c = chars_of(raw.as_str());
    let spans = line_spans(c.as_slice());
    let ghost lines = text_lines(c@);
    let needs = all_needs(terms);
    let ghost wanted = word_lists(needs@);
    if needs.len() == 0 {
        if spans.len() == 0 {
            return (0, String::new());
        }
        let first = slice_subrange(c.as_slice(), spans[0].from, spans[0].to);
        return (0, head(first, WIDTH));
    }
    let mut best: (usize, u128) = (0, 0);
    let mut best_at: usize = 0;
    let mut line: usize = 0;
    let mut i: usize = 0;
    while i < spans.len()
        invariant
            i <= spans@.len(),
            lines == text_lines(c@),
            cuts(c@, spans@, lines),
            wanted == word_lists(needs@),
            line < spans@.len() || line == 0,
            best_line(lines, wanted, i as int) == (Best {
                score: (best.0 as nat, best.1 as nat),
                line: line as int,
                at: best_at as int,
            }),
        decreases spans@.len() - i,
    {
        let l = slice_subrange(c.as_slice(), spans[i].from, spans[i].to);
        assert(l@ == lines[i as int]);
        let f = fold_chars(l);
        let (n, words, at): (usize, u128, Option<usize>) = score(f.as_slice(), &needs);
        if n > best.0 || n == best.0 && words > best.1 {
            best = (n, words);
            line = i;
            best_at = match at {
                Some(p) => p,
                None => 0,
            };
        }
        i += 1;
    }
    if spans.len() == 0 {
        return (0, String::new());
    }
    let chosen = slice_subrange(c.as_slice(), spans[line].from, spans[line].to);
    assert(chosen@ == lines[line as int]);
    let shown = string_of(chosen);
    if chosen.len() <= WIDTH {
        (line, shown)
    } else {
        (line, window(shown.as_str(), best_at, WIDTH, SNIPPET_LEAD))
    }
}


/// A window is bounded, and shows the place it is for.
pub proof fn law_window_shows(line: Seq<char>, at: int, width: int, lead: int)
    requires
        0 <= at < line.len(),
        0 <= lead < width,
    ensures
        windowed(line, at, width, lead).len() <= width + 2,
        window_from(line.len() as int, at, width, lead) <= at < window_from(line.len() as int, at, width, lead) + width,
        windowed(line, at, width, lead).contains(line[at]),
{
    let from = window_from(line.len() as int, at, width, lead);
    let body = head_of(line.skip(from), width);
    let w = windowed(line, at, width, lead);
    let shift: int = if from > 0 {
        1
    } else {
        0
    };
    assert(body[at - from] == line[at]);
    assert(w[at - from + shift] == line[at]);
}

} // verus!

//! Reading a search query as terms, and finding the lines of a document that hold them.
//!
//! One implementation, used by the store to build hit rows and by the CLI to render them, so
//! `line` means the same thing on every surface.

use vstd::prelude::*;
use vstd::slice::slice_subrange;
use vstd::string::*;
use crate::chars::{alphanumeric, begins, begins_with, find_char, find_from, find_text, is_alnum, next_at, texts};
use crate::fold::{fold_chars, folded};
use crate::text::{chars_of, same_text, string_of};

verus! {

/// One term of a query.
#[derive(Debug, Clone, PartialEq, Eq)]
pub enum Term {
    Word(String),
    /// `prefix*` — matches a word that starts with it.
    Prefix(String),
    /// Several words that must appear next to each other, in order.
    Phrase(Vec<String>),
}

/// A term as a mathematical value.
pub enum Want {
    Word(Seq<char>),
    Prefix(Seq<char>),
    Phrase(Seq<Seq<char>>),
}

impl View for Term {
    type V = Want;

    open spec fn view(&self) -> Want {
        match self {
            Term::Word(w) => Want::Word(w@),
            Term::Prefix(w) => Want::Prefix(w@),
            Term::Phrase(ws) => Want::Phrase(texts(ws@)),
        }
    }
}

pub open spec fn wants(ts: Seq<Term>) -> Seq<Want> {
    Seq::new(ts.len(), |i: int| ts[i]@)
}

/// How many letters and digits a text begins with.
pub open spec fn word_len(s: Seq<char>) -> int
    decreases s.len(),
{
    if s.len() > 0 && alphanumeric(s[0]) {
        1 + word_len(s.skip(1))
    } else {
        0
    }
}

/// The runs of letters and digits of a text.
pub open spec fn word_list(s: Seq<char>) -> Seq<Seq<char>>
    decreases s.len(),
{
    if s.len() == 0 {
        Seq::empty()
    } else if !alphanumeric(s[0]) {
        word_list(s.skip(1))
    } else {
        let n = word_len(s);
        if n < 1 || n > s.len() {
            Seq::empty()
        } else {
            seq![s.take(n)] + word_list(s.skip(n))
        }
    }
}

/// The words of a text as the index sees them.
pub open spec fn index_words(s: Seq<char>) -> Seq<Seq<char>> {
    word_list(folded(s))
}

proof fn lemma_word_len(s: Seq<char>)
    ensures
        0 <= word_len(s) <= s.len(),
        s.len() > 0 && alphanumeric(s[0]) ==> word_len(s) >= 1,
    decreases s.len(),
{
    if s.len() > 0 && alphanumeric(s[0]) {
        lemma_word_len(s.skip(1));
    }
}

fn word_end(s: &[char], from: usize) -> (r: usize)
    requires
        from <= s@.len(),
    ensures
        from <= r <= s@.len(),
        r - from == word_len(s@.skip(from as int)),
{
    let mut i: usize = from;
    while i < s.len() && is_alnum(s[i])
        invariant
            from <= i <= s@.len(),
            word_len(s@.skip(from as int)) == i - from + word_len(s@.skip(i as int)),
        decreases s@.len() - i,
    {
        assert(s@.skip(i as int).skip(1) =~= s@.skip(i + 1));
        i += 1;
    }
    i
}

/// The words of some characters, folded the way the index folds them.
pub fn chars_words(s: &[char]) -> (out: Vec<String>)
    ensures
        texts(out@) == index_words(s@),
{
    let f = fold_chars(s);
    let mut out: Vec<String> = Vec::new();
    let mut i: usize = 0;
    proof {
        assert(f@.skip(0) =~= f@);
        assert(texts(out@) + word_list(f@.skip(0)) =~= word_list(f@));
    }
    while i < f.len()
        invariant
            i <= f@.len(),
            word_list(f@) == texts(out@) + word_list(f@.skip(i as int)),
        decreases f@.len() - i,
    {
        let ghost rest = f@.skip(i as int);
        if !is_alnum(f[i]) {
            assert(rest.skip(1) =~= f@.skip(i + 1));
            i += 1;
        } else {
            let e = word_end(f.as_slice(), i);
            proof {
                assert(rest[0] == f@[i as int]);
                lemma_word_len(rest);
                assert(rest.take(e - i) =~= f@.subrange(i as int, e as int));
                assert(rest.skip(e - i) =~= f@.skip(e as int));
            }
            let w = string_of(slice_subrange(f.as_slice(), i, e));
            let ghost before = out@;
            out.push(w);
            proof {
                assert(texts(out@) =~= texts(before).push(w@));
                assert(texts(before) + (seq![w@] + word_list(f@.skip(e as int))) =~= texts(out@) + word_list(
                    f@.skip(e as int),
                ));
            }
            i = e;
        }
    }
    assert(texts(out@) + word_list(f@.skip(i as int)) =~= texts(out@));
    out
}

/// The words of `s`, folded the way the index folds them: runs of letters and digits.
pub fn words(s: &str) -> (out: Vec<String>)
    ensures
        texts(out@) == index_words(s@),
{
    chars_words(chars_of(s).as_slice())
}

/// What one term of a query asks for; nothing if it has no words.
pub open spec fn want_of(t: Seq<char>) -> Option<Want> {
    let prefix = t.len() > 0 && t.last() == '*';
    let w = index_words(if prefix { t.drop_last() } else { t });
    if w.len() == 0 {
        None
    } else if w.len() == 1 {
        if prefix {
            Some(Want::Prefix(w[0]))
        } else {
            Some(Want::Word(w[0]))
        }
    } else {
        Some(Want::Phrase(w))
    }
}

/// What a query asks for.
pub open spec fn query_wants(raw: Seq<Seq<char>>) -> Seq<Want>
    decreases raw.len(),
{
    if raw.len() == 0 {
        Seq::empty()
    } else {
        match want_of(raw.last()) {
            Some(w) => query_wants(raw.drop_last()).push(w),
            None => query_wants(raw.drop_last()),
        }
    }
}

fn parse_term(t: &str) -> (r: Option<Term>)
    ensures
        match r {
            Some(x) => want_of(t@) == Some(x@),
            None => want_of(t@) is None,
        },
{
    let c = chars_of(t);
    let n: usize = c.len();
    let prefix: bool = n > 0 && c[n - 1] == '*';
    let stem: &[char] = if prefix {
        slice_subrange(c.as_slice(), 0, n - 1)
    } else {
        c.as_slice()
    };
    proof {
        if prefix {
            assert(stem@ =~= t@.drop_last());
        }
    }
    let mut w = chars_words(stem);
    let ghost all = texts(w@);
    if w.len() == 0 {
        None
    } else if w.len() == 1 {
        let ghost one = w@[0];
        assert(all[0] == one@);
        let x = w.pop().unwrap();
        if prefix {
            Some(Term::Prefix(x))
        } else {
            Some(Term::Word(x))
        }
    } else {
        Some(Term::Phrase(w))
    }
}

/// A query as terms: words ANDed, `"a phrase"`, `prefix*`.
///
/// A term that is several words once punctuation is dropped (`2026-02`) is a phrase, as it is
/// to the index. `raw` is the term list the binding's own parser produced, so the two agree on
/// quoting.
pub fn parse(raw: Vec<String>) -> (out: Vec<Term>)
    ensures
        wants(out@) == query_wants(texts(raw@)),
        forall|k: int| 0 <= k < out@.len() ==> well_formed(#[trigger] wants(out@)[k]),
{
    let ghost all = texts(raw@);
    let mut out: Vec<Term> = Vec::new();
    let mut i: usize = 0;
    assert(all.take(0) =~= Seq::empty());
    assert(wants(out@) =~= Seq::empty());
    while i < raw.len()
        invariant
            i <= raw@.len(),
            all == texts(raw@),
            wants(out@) == query_wants(all.take(i as int)),
            forall|k: int| 0 <= k < out@.len() ==> well_formed(#[trigger] wants(out@)[k]),
        decreases raw@.len() - i,
    {
        let ghost before = out@;
        proof {
            assert(all.take(i + 1).drop_last() =~= all.take(i as int));
            assert(all.take(i + 1).last() == raw@[i as int]@);
        }
        match parse_term(raw[i].as_str()) {
            Some(t) => {
                out.push(t);
                proof {
                    assert(wants(out@) =~= wants(before).push(t@));
                    assert forall|k: int| 0 <= k < out@.len() implies well_formed(#[trigger] wants(out@)[k]) by {
                        if k < before.len() {
                            assert(wants(out@)[k] == wants(before)[k]);
                        }
                    }
                }
            },
            None => {},
        }
        i += 1;
    }
    assert(all.take(i as int) =~= all);
    out
}

/// Do the words `ws` stand at place `i` of a line's words?
pub open spec fn words_at_place(ws: Seq<Seq<char>>, line: Seq<Seq<char>>, i: int) -> bool {
    0 <= i && i + ws.len() <= line.len() && line.subrange(i, i + ws.len()) == ws
}

/// Is a term met by the word, or the words, at place `i`?
pub open spec fn met_at(t: Want, line: Seq<Seq<char>>, i: int) -> bool {
    match t {
        Want::Word(w) => line[i] == w,
        Want::Prefix(p) => begins(line[i], p),
        Want::Phrase(ws) => words_at_place(ws, line, i),
    }
}

/// Does a line with these words hold a term?
pub open spec fn held(t: Want, line: Seq<Seq<char>>) -> bool {
    exists|i: int| 0 <= i < line.len() && #[trigger] met_at(t, line, i)
}

/// How often a term is met by the words before place `n`.
pub open spec fn times_met(t: Want, line: Seq<Seq<char>>, n: int) -> nat
    decreases n,
{
    if n <= 0 {
        0
    } else {
        times_met(t, line, n - 1) + if met_at(t, line, n - 1) { 1nat } else { 0 }
    }
}

/// A phrase has words.
pub open spec fn well_formed(t: Want) -> bool {
    t matches Want::Phrase(ws) ==> ws.len() > 0
}

/// Is a term met at place `i`?
pub(crate) fn meets_at(t: &Term, line: &Vec<String>, i: usize) -> (r: bool)
    requires
        i < line@.len(),
    ensures
        r == met_at(t@, texts(line@), i as int),
{
    let ghost l = texts(line@);
    match t {
        Term::Word(w) => same_text(line[i].as_str(), w.as_str()),
        Term::Prefix(p) => begins_with(chars_of(line[i].as_str()).as_slice(), chars_of(p.as_str()).as_slice()),
        Term::Phrase(ws) => {
            if ws.len() > line.len() - i {
                return false;
            }
            let ghost w = texts(ws@);
            let mut k: usize = 0;
            while k < ws.len()
                invariant
                    k <= ws@.len(),
                    i + ws@.len() <= line.len(),
                    t@ == Want::Phrase(w),
                    l == texts(line@),
                    w == texts(ws@),
                    forall|j: int| 0 <= j < k ==> l[i + j] == #[trigger] w[j],
                decreases ws@.len() - k,
            {
                assert(l[i + k] == line@[i + k]@ && w[k as int] == ws@[k as int]@);
                if !same_text(line[i + k].as_str(), ws[k].as_str()) {
                    proof {
                        assert(l.subrange(i as int, i + w.len())[k as int] != w[k as int]);
                    }
                    return false;
                }
                k += 1;
            }
            assert(l.subrange(i as int, i + w.len()) =~= w);
            true
        },
    }
}

fn holds(term: &Term, line_words: &Vec<String>) -> (r: bool)
    ensures
        r == held(term@, texts(line_words@)),
{
    let mut i: usize = 0;
    while i < line_words.len()
        invariant
            i <= line_words@.len(),
            forall|k: int| 0 <= k < i ==> !#[trigger] met_at(term@, texts(line_words@), k),
        decreases line_words@.len() - i,
    {
        if meets_at(term, line_words, i) {
            return true;
        }
        i += 1;
    }
    false
}

/// The lines of a text: without their line feed, and without a carriage return before it.
pub open spec fn text_lines(s: Seq<char>) -> Seq<Seq<char>>
    decreases s.len(),
{
    let i = next_at(s, '\n', 0);
    if s.len() == 0 {
        Seq::empty()
    } else if i < 0 || i >= s.len() {
        seq![s]
    } else {
        seq![without_return(s.take(i))] + text_lines(s.skip(i + 1))
    }
}

pub open spec fn without_return(s: Seq<char>) -> Seq<char> {
    if s.len() > 0 && s.last() == '\r' {
        s.drop_last()
    } else {
        s
    }
}

/// Where a line lies in a text.
pub(crate) struct LineSpan {
    pub from: usize,
    pub to: usize,
}

/// The spans `ls` cut the lines out of `s`.
pub(crate) open spec fn cuts(s: Seq<char>, ls: Seq<LineSpan>, lines: Seq<Seq<char>>) -> bool {
    &&& ls.len() == lines.len()
    &&& forall|i: int|
        0 <= i < ls.len() ==> (#[trigger] ls[i]).from <= ls[i].to <= s.len() && s.subrange(
            ls[i].from as int,
            ls[i].to as int,
        ) == lines[i]
}

/// Where the lines of a text lie.
pub(crate) fn line_spans(s: &[char]) -> (out: Vec<LineSpan>)
    ensures
        cuts(s@, out@, text_lines(s@)),
{
    let mut out: Vec<LineSpan> = Vec::new();
    let mut at: usize = 0;
    let ghost mut done: Seq<Seq<char>> = Seq::empty();
    proof {
        assert(s@.skip(0) =~= s@);
        assert(done + text_lines(s@.skip(0)) =~= text_lines(s@));
    }
    while at < s.len()
        invariant
            at <= s@.len(),
            cuts(s@, out@, done),
            text_lines(s@) == done + text_lines(s@.skip(at as int)),
        decreases s@.len() - at,
    {
        let ghost rest = s@.skip(at as int);
        let e = find_char(s, '\n', at);
        proof {
            lemma_next_shift(s@, '\n', at as int);
        }
        let ghost before = out@;
        let ghost done0 = done;
        if e >= s.len() {
            out.push(LineSpan { from: at, to: e });
            proof {
                assert(s@.subrange(at as int, e as int) =~= rest);
                done = done0.push(rest);
                assert(done0 + seq![rest] =~= done);
                assert(s@.skip(e as int) =~= Seq::empty());
                assert(done + text_lines(s@.skip(e as int)) =~= done);
                lemma_cuts_push(s@, before, done0, LineSpan { from: at, to: e });
            }
            at = e;
        } else {
            let to: usize = if e > at && s[e - 1] == '\r' {
                e - 1
            } else {
                e
            };
            out.push(LineSpan { from: at, to });
            proof {
                let l = rest.take(e - at);
                assert(l =~= s@.subrange(at as int, e as int));
                if e > at {
                    assert(l.last() == s@[e - 1]);
                }
                assert(without_return(l) =~= s@.subrange(at as int, to as int));
                assert(rest.skip(e - at + 1) =~= s@.skip(e + 1));
                done = done0.push(without_return(l));
                assert(done0 + (seq![without_return(l)] + text_lines(s@.skip(e + 1))) =~= done + text_lines(s@.skip(e + 1)));
                lemma_cuts_push(s@, before, done0, LineSpan { from: at, to });
            }
            at = e + 1;
        }
    }
    assert(s@.skip(at as int) =~= Seq::empty());
    assert(done + text_lines(s@.skip(at as int)) =~= done);
    out
}

proof fn lemma_cuts_push(s: Seq<char>, ls: Seq<LineSpan>, lines: Seq<Seq<char>>, l: LineSpan)
    requires
        cuts(s, ls, lines),
        l.from <= l.to <= s.len(),
    ensures
        cuts(s, ls.push(l), lines.push(s.subrange(l.from as int, l.to as int))),
{
    let a = ls.push(l);
    let b = lines.push(s.subrange(l.from as int, l.to as int));
    assert forall|i: int| 0 <= i < a.len() implies (#[trigger] a[i]).from <= a[i].to <= s.len() && s.subrange(
        a[i].from as int,
        a[i].to as int,
    ) == b[i] by {
        if i < ls.len() {
            assert(a[i] == ls[i]);
        }
    }
}

/// Looking for a character from a place on, or in what follows it, is the same.
pub proof fn lemma_next_shift(s: Seq<char>, c: char, at: int)
    requires
        0 <= at <= s.len(),
    ensures
        next_at(s.skip(at), c, 0) == next_at(s, c, at) - at,
{
    lemma_next_shift_from(s, c, at, 0);
}

proof fn lemma_next_shift_from(s: Seq<char>, c: char, at: int, i: int)
    requires
        0 <= at <= s.len(),
        0 <= i <= s.len() - at,
    ensures
        next_at(s.skip(at), c, i) == next_at(s, c, at + i) - at,
    decreases s.len() - at - i,
{
    if i < s.len() - at {
        assert(s.skip(at)[i] == s[at + i]);
        if s[at + i] != c {
            lemma_next_shift_from(s, c, at, i + 1);
        }
    }
}

/// Does a line hold any of the terms?
pub open spec fn any_held(ts: Seq<Want>, line: Seq<char>) -> bool {
    exists|k: int| 0 <= k < ts.len() && held(#[trigger] ts[k], index_words(line))
}

/// The places of the first `n` lines that hold any of the terms.
pub open spec fn hit_lines(ts: Seq<Want>, lines: Seq<Seq<char>>, n: int) -> Seq<int>
    decreases n,
{
    if n <= 0 {
        Seq::empty()
    } else if any_held(ts, lines[n - 1]) {
        hit_lines(ts, lines, n - 1).push(n - 1)
    } else {
        hit_lines(ts, lines, n - 1)
    }
}

/// Does some of the first `n` lines hold a term?
pub open spec fn held_before(t: Want, lines: Seq<Seq<char>>, n: int) -> bool {
    exists|i: int| 0 <= i < n && held(t, index_words(#[trigger] lines[i]))
}

/// Each pair is a line's number, counted from one, and the line.
pub open spec fn lines_listed(lines: Seq<Seq<char>>, places: Seq<int>, out: Seq<(usize, &str)>) -> bool {
    &&& out.len() == places.len()
    &&& forall|i: int| 0 <= i < out.len() ==> (#[trigger] out[i]).0 == places[i] + 1 && out[i].1@ == lines[places[i]]
}

/// The lines of `text` (1-based number, the line) that hold any term, or `None` when some term
/// appears on no line at all.
///
/// `None` is what keeps document-level AND from leaking into the rows: the index says a
/// document holds every term somewhere, and this says whether any *line* does. A document
/// where the words only ever appear apart is dropped rather than reported with a line that
/// holds none of them.
pub fn matching_lines<'t>(terms: &[Term], text: &'t str) -> (r: Option<Vec<(usize, &'t str)>>)
    requires
        forall|k: int| 0 <= k < terms@.len() ==> well_formed(#[trigger] wants(terms@)[k]),
    ensures
        ({
            let lines = text_lines(text@);
            let ts = wants(terms@);
            match r {
                Some(v) => (forall|k: int| 0 <= k < ts.len() ==> held_before(#[trigger] ts[k], lines, lines.len() as int))
                    && lines_listed(lines, hit_lines(ts, lines, lines.len() as int), v@),
                None => exists|k: int| 0 <= k < ts.len() && !held_before(#[trigger] ts[k], lines, lines.len() as int),
            }
        }),
{
    let ghost ts = wants(terms@);
    let c = chars_of(text);
    let spans = line_spans(c.as_slice());
    let ghost lines = text_lines(text@);
    let mut seen: Vec<bool> = Vec::new();
    let mut k: usize = 0;
    while k < terms.len()
        invariant
            k <= terms@.len(),
            seen@.len() == k,
            forall|i: int| 0 <= i < k ==> !seen@[i],
        decreases terms@.len() - k,
    {
        seen.push(false);
        k += 1;
    }
    let mut out: Vec<(usize, &'t str)> = Vec::new();
    let mut i: usize = 0;
    while i < spans.len()
        invariant
            i <= spans@.len(),
            ts == wants(terms@),
            c@ == text@,
            lines == text_lines(text@),
            cuts(c@, spans@, lines),
            seen@.len() == terms@.len(),
            forall|k: int| 0 <= k < ts.len() ==> #[trigger] seen@[k] == held_before(ts[k], lines, i as int),
            lines_listed(lines, hit_lines(ts, lines, i as int), out@),
        decreases spans@.len() - i,
    {
        let l: &LineSpan = &spans[i];
        let line: &'t str = text.substring_char(l.from, l.to);
        let ghost seen0 = seen@;
        let ws = words(line);
        assert(line@ == lines[i as int]);
        let mut any: bool = false;
        let mut k: usize = 0;
        while k < terms.len()
            invariant
                k <= terms@.len(),
                ts == wants(terms@),
                seen@.len() == terms@.len(),
                seen0.len() == terms@.len(),
                texts(ws@) == index_words(line@),
                any == exists|j: int| 0 <= j < k && held(#[trigger] ts[j], index_words(line@)),
                forall|j: int|
                    0 <= j < k ==> #[trigger] seen@[j] == (seen0[j] || held(ts[j], index_words(line@))),
                forall|j: int| k <= j < ts.len() ==> #[trigger] seen@[j] == seen0[j],
            decreases terms@.len() - k,
        {
            assert(ts[k as int] == terms@[k as int]@);
            if holds(&terms[k], &ws) {
                seen.set(k, true);
                any = true;
            }
            k += 1;
        }
        proof {
            assert forall|j: int| 0 <= j < ts.len() implies #[trigger] seen@[j] == held_before(ts[j], lines, i + 1) by {
                assert(seen@[j] == (seen0[j] || held(ts[j], index_words(line@))));
                assert(seen0[j] == held_before(ts[j], lines, i as int));
                if held_before(ts[j], lines, i as int) {
                    let x = choose|x: int| 0 <= x < i && held(ts[j], index_words(#[trigger] lines[x]));
                    assert(held(ts[j], index_words(lines[x])));
                }
            }
            assert(any == any_held(ts, lines[i as int]));
        }
        if any {
            assert(spans@.len() == spans.len());
            let ghost out0 = out@;
            out.push((i + 1, line));
            proof {
                let places = hit_lines(ts, lines, i + 1);
                assert forall|x: int| 0 <= x < out@.len() implies (#[trigger] out@[x]).0 == places[x] + 1 && out@[x].1@
                    == lines[places[x]] by {
                    if x < out0.len() {
                        assert(out@[x] == out0[x]);
                    }
                }
            }
        }
        i += 1;
    }
    let mut all: bool = true;
    let mut k: usize = 0;
    while k < seen.len()
        invariant
            k <= seen@.len(),
            seen@.len() == ts.len(),
            forall|j: int| 0 <= j < ts.len() ==> #[trigger] seen@[j] == held_before(ts[j], lines, lines.len() as int),
            all == forall|j: int| 0 <= j < k ==> seen@[j],
            !all ==> exists|j: int| 0 <= j < ts.len() && !held_before(#[trigger] ts[j], lines, lines.len() as int),
        decreases seen@.len() - k,
    {
        if !seen[k] {
            all = false;
            assert(!held_before(ts[k as int], lines, lines.len() as int));
        }
        k += 1;
    }
    if all {
        proof {
            assert forall|k: int| 0 <= k < ts.len() implies held_before(#[trigger] ts[k], lines, lines.len() as int) by {
                assert(seen@[k]);
            }
        }
        Some(out)
    } else {
        None
    }
}

/// How much of a line to show. One length for every surface.
pub const LINE_CUT: usize = 300;

/// How much context to keep before the match when a line has to be windowed.
pub const LEAD: usize = 60;

/// The words of a term.
pub open spec fn term_words(t: Want) -> Seq<Seq<char>> {
    match t {
        Want::Word(w) => seq![w],
        Want::Prefix(w) => seq![w],
        Want::Phrase(ws) => ws,
    }
}

/// The earlier of two places, if there are any.
pub open spec fn earlier(a: Option<int>, b: Option<int>) -> Option<int> {
    match (a, b) {
        (Some(x), Some(y)) => if y < x {
            b
        } else {
            a
        },
        (None, _) => b,
        (_, None) => a,
    }
}

/// The first place in a line of any of some words.
pub open spec fn first_place(line: Seq<char>, ws: Seq<Seq<char>>) -> Option<int>
    decreases ws.len(),
{
    if ws.len() == 0 {
        None
    } else {
        earlier(first_place(line, ws.drop_last()), find_from(line, ws.last(), 0))
    }
}

/// The first place in a line of any word of some terms.
pub open spec fn first_term_place(line: Seq<char>, ts: Seq<Want>) -> Option<int>
    decreases ts.len(),
{
    if ts.len() == 0 {
        None
    } else {
        earlier(first_term_place(line, ts.drop_last()), first_place(line, term_words(ts.last())))
    }
}

pub open spec fn or_start(p: Option<int>) -> int {
    match p {
        Some(i) => i,
        None => 0,
    }
}

/// A line as a hit shows it.
pub open spec fn shown(line: Seq<char>, ts: Seq<Want>) -> Seq<char> {
    if line.len() <= LINE_CUT {
        line
    } else {
        crate::snippet::windowed(line, or_start(first_term_place(folded(line), ts)), LINE_CUT as int, LEAD as int)
    }
}

pub(crate) open spec fn place_view(p: Option<usize>) -> Option<int> {
    match p {
        Some(i) => Some(i as int),
        None => None,
    }
}

pub(crate) fn earlier_of(a: Option<usize>, b: Option<usize>) -> (r: Option<usize>)
    ensures
        place_view(r) == earlier(place_view(a), place_view(b)),
{
    match (a, b) {
        (Some(x), Some(y)) => if y < x {
            Some(y)
        } else {
            Some(x)
        },
        (None, _) => b,
        (_, None) => a,
    }
}

pub(crate) fn find_words(line: &[char], ws: &Vec<String>) -> (r: Option<usize>)
    ensures
        place_view(r) == first_place(line@, texts(ws@)),
        r matches Some(i) ==> i <= line@.len(),
{
    let ghost all = texts(ws@);
    let mut best: Option<usize> = None;
    let mut i: usize = 0;
    assert(all.take(0) =~= Seq::empty());
    while i < ws.len()
        invariant
            i <= ws@.len(),
            all == texts(ws@),
            place_view(best) == first_place(line@, all.take(i as int)),
            best matches Some(x) ==> x <= line@.len(),
        decreases ws@.len() - i,
    {
        proof {
            assert(all.take(i + 1).drop_last() =~= all.take(i as int));
            assert(all.take(i + 1).last() == ws@[i as int]@);
        }
        let w = chars_of(ws[i].as_str());
        let p = find_text(line, w.as_slice(), 0);
        best = earlier_of(best, p);
        i += 1;
    }
    assert(all.take(i as int) =~= all);
    best
}

fn find_word(line: &[char], w: &str) -> (r: Option<usize>)
    ensures
        place_view(r) == first_place(line@, seq![w@]),
        r matches Some(i) ==> i <= line@.len(),
{
    let c = chars_of(w);
    let p = find_text(line, c.as_slice(), 0);
    proof {
        reveal_with_fuel(first_place, 2);
        assert(seq![w@].drop_last() =~= Seq::<Seq<char>>::empty());
        assert(seq![w@].last() == w@);
    }
    p
}

/// The line as a hit should show it: itself when it fits, else a window around the match.
///
/// A blind prefix would drop the match off the end of any line longer than the cut, which is
/// most lines in a real document. `terms` may be empty — `grep` knows the line matched but
/// not which word — in which case the head of the line is shown.
pub fn show(line: &str, terms: &[Term]) -> (r: String)
    ensures
        r@ == shown(line@, wants(terms@)),
{
    let c = chars_of(line);
    if c.len() <= LINE_CUT {
        return string_of(c.as_slice());
    }
    let f = fold_chars(c.as_slice());
    let ghost ts = wants(terms@);
    let mut best: Option<usize> = None;
    let mut i: usize = 0;
    assert(ts.take(0) =~= Seq::empty());
    while i < terms.len()
        invariant
            i <= terms@.len(),
            ts == wants(terms@),
            place_view(best) == first_term_place(f@, ts.take(i as int)),
            best matches Some(x) ==> x <= f@.len(),
        decreases terms@.len() - i,
    {
        proof {
            assert(ts.take(i + 1).drop_last() =~= ts.take(i as int));
            assert(ts.take(i + 1).last() == terms@[i as int]@);
        }
        let p = match &terms[i] {
            Term::Word(w) => find_word(f.as_slice(), w.as_str()),
            Term::Prefix(w) => find_word(f.as_slice(), w.as_str()),
            Term::Phrase(ws) => find_words(f.as_slice(), ws),
        };
        best = earlier_of(best, p);
        i += 1;
    }
    assert(ts.take(i as int) =~= ts);
    let at: usize = match best {
        Some(i) => i,
        None => 0,
    };
    crate::snippet::window(line, at, LINE_CUT, LEAD)
}

/// `s` cut to `LINE_CUT` characters, for text that has no match to centre on.
pub fn cut(s: &str) -> (r: String)
    ensures
        r@ == crate::snippet::head_of(s@, LINE_CUT as int),
{
    crate::snippet::head(chars_of(s).as_slice(), LINE_CUT)
}

} // verus!

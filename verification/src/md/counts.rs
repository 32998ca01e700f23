//! Word counts of sections compose: a section's total is its own words and those of the sections
//! nested under it, and all sections together with what stands before the first have the words of
//! the document.

use vstd::prelude::*;
use crate::chunker::newlines;
use crate::md::extract::{
    last_line, line_offset, next_peer, own_end, section_end, section_of, words_before, words_in_lines, Title,
};
use crate::tree::{law_line_start_unique, lemma_newlines_prefix, starts_line};
use crate::words::{lemma_words_concat, word_count};

verus! {

/// Headings in document order, each on a line of its own.
pub open spec fn headings_in_order(doc: Seq<u8>, hs: Seq<Title>) -> bool {
    &&& forall|i: int| 0 <= i < hs.len() ==> 1 <= (#[trigger] hs[i]).line <= last_line(doc)
    &&& forall|i: int, j: int| 0 <= i < j < hs.len() ==> (#[trigger] hs[i]).line < (#[trigger] hs[j]).line
}

/// The own words of sections `i` up to `k`.
pub open spec fn own_sum(doc: Seq<u8>, hs: Seq<Title>, i: int, k: int) -> int
    decreases k - i,
{
    if k <= i {
        0
    } else {
        own_sum(doc, hs, i, k - 1) + section_of(doc, hs, k - 1).own_words
    }
}

/// A line that a document has begins somewhere.
proof fn lemma_line_begins(doc: Seq<u8>, k: int)
    requires
        0 < k <= newlines(doc),
    ensures
        starts_line(doc, k, line_offset(doc, k)),
{
    lemma_line_exists(doc, k);
    let o = choose|o: int| starts_line(doc, k, o);
    assert(starts_line(doc, k, o));
}

proof fn lemma_line_exists(doc: Seq<u8>, k: int)
    requires
        0 < k <= newlines(doc),
    ensures
        exists|o: int| starts_line(doc, k, o),
    decreases doc.len(),
{
    let d = doc.drop_last();
    if k <= newlines(d) {
        lemma_line_exists(d, k);
        let o = choose|o: int| starts_line(d, k, o);
        assert(d.take(o) =~= doc.take(o));
        assert(starts_line(doc, k, o));
    } else {
        let o = doc.len() as int;
        assert(doc.take(o) =~= doc);
        assert(starts_line(doc, k, o));
    }
}

/// More lines end later.
proof fn lemma_offset_order(doc: Seq<u8>, j: int, k: int)
    requires
        0 <= j <= k,
    ensures
        0 <= line_offset(doc, j) <= line_offset(doc, k) <= doc.len(),
{
    if 0 < j <= newlines(doc) {
        lemma_line_begins(doc, j);
    }
    if 0 < k <= newlines(doc) {
        lemma_line_begins(doc, k);
        if 0 < j < k {
            let a = line_offset(doc, j);
            let b = line_offset(doc, k);
            if b < a {
                assert(doc.take(a).take(b) =~= doc.take(b));
                lemma_newlines_prefix(doc.take(a), b);
            }
        }
    }
}

/// More lines have no fewer words.
proof fn lemma_words_order(doc: Seq<u8>, j: int, k: int)
    requires
        0 <= j <= k,
    ensures
        0 <= words_before(doc, j) <= words_before(doc, k),
{
    lemma_offset_order(doc, j, k);
    let a = line_offset(doc, j);
    let b = line_offset(doc, k);
    assert(doc.take(b) =~= doc.take(a) + doc.subrange(a, b));
    lemma_words_concat(doc.take(a), doc.subrange(a, b), false);
}

/// The words of some lines.
proof fn lemma_words_between(doc: Seq<u8>, from: int, to: int)
    requires
        1 <= from,
        from - 1 <= to <= newlines(doc) + 1,
    ensures
        words_in_lines(doc, from, to) == words_before(doc, to) - words_before(doc, from - 1),
{
    lemma_words_order(doc, from - 1, to);
}

proof fn lemma_last_line(doc: Seq<u8>)
    ensures
        1 <= last_line(doc) <= newlines(doc) + 1,
        words_before(doc, last_line(doc)) == word_count(doc),
{
    let k = last_line(doc);
    assert(doc.take(doc.len() as int) =~= doc);
    if doc.len() > 0 && doc.last() == 10 {
        assert(newlines(doc) >= 1);
        assert(k == newlines(doc));
        lemma_line_begins(doc, k);
        assert(starts_line(doc, k, doc.len() as int));
        law_line_start_unique(doc, k, line_offset(doc, k), doc.len() as int);
    } else {
        assert(k == newlines(doc) + 1);
    }
}

/// The line behind the own lines of section `j`.
spec fn behind(doc: Seq<u8>, hs: Seq<Title>, j: int) -> int {
    if j + 1 < hs.len() {
        hs[j + 1].line as int
    } else {
        last_line(doc) + 1
    }
}

proof fn lemma_next_peer(hs: Seq<Title>, level: u32, i: int)
    requires
        0 <= i <= hs.len(),
    ensures
        i <= next_peer(hs, level, i) <= hs.len(),
    decreases hs.len() - i,
{
    if i < hs.len() && hs[i].level > level {
        lemma_next_peer(hs, level, i + 1);
    }
}

/// A section's own lines run to the next heading.
proof fn lemma_own_words(doc: Seq<u8>, hs: Seq<Title>, j: int)
    requires
        headings_in_order(doc, hs),
        0 <= j < hs.len(),
    ensures
        hs[j].line <= behind(doc, hs, j) - 1 <= newlines(doc) + 1,
        section_of(doc, hs, j).own_words == words_before(doc, behind(doc, hs, j) - 1) - words_before(doc, hs[j].line - 1),
{
    lemma_last_line(doc);
    lemma_next_peer(hs, hs[j].level, j + 1);
    let m = next_peer(hs, hs[j].level, j + 1);
    if j + 1 < hs.len() {
        assert(hs[j].line < hs[j + 1].line);
        if m < hs.len() && m > j + 1 {
            assert(hs[j + 1].line < hs[m].line);
        }
    }
    assert(own_end(doc, hs, j) == behind(doc, hs, j) - 1);
    lemma_words_between(doc, hs[j].line as int, behind(doc, hs, j) - 1);
}

proof fn lemma_own_sum(doc: Seq<u8>, hs: Seq<Title>, i: int, k: int)
    requires
        headings_in_order(doc, hs),
        0 <= i < k <= hs.len(),
    ensures
        own_sum(doc, hs, i, k) == words_before(doc, behind(doc, hs, k - 1) - 1) - words_before(doc, hs[i].line - 1),
    decreases k - i,
{
    lemma_own_words(doc, hs, k - 1);
    if i + 1 < k {
        lemma_own_sum(doc, hs, i, k - 1);
        assert(behind(doc, hs, k - 2) == hs[k - 1].line);
    } else {
        assert(own_sum(doc, hs, i, k - 1) == 0);
    }
}

/// A section's total is its own words and the own words of every section nested under it: those up
/// to the next heading of the same or a higher level.
pub proof fn law_section_words_compose(doc: Seq<u8>, hs: Seq<Title>, i: int)
    requires
        headings_in_order(doc, hs),
        0 <= i < hs.len(),
    ensures
        section_of(doc, hs, i).all_words == section_of(doc, hs, i).own_words + own_sum(
            doc,
            hs,
            i + 1,
            next_peer(hs, hs[i].level, i + 1),
        ),
{
    let k = next_peer(hs, hs[i].level, i + 1);
    lemma_next_peer(hs, hs[i].level, i + 1);
    lemma_last_line(doc);
    lemma_own_words(doc, hs, i);
    let to = section_end(doc, hs, i);
    if k < hs.len() {
        assert(hs[i].line < hs[k].line);
    }
    assert(to == behind(doc, hs, k - 1) - 1);
    lemma_words_between(doc, hs[i].line as int, to);
    if i + 1 < k {
        lemma_own_sum(doc, hs, i + 1, k);
        assert(behind(doc, hs, i) == hs[i + 1].line);
    }
}

/// The sections and what stands before the first account for the whole document: nothing is
/// counted twice, and nothing is dropped.
pub proof fn law_words_partition(doc: Seq<u8>, hs: Seq<Title>)
    requires
        headings_in_order(doc, hs),
        hs.len() > 0,
    ensures
        words_in_lines(doc, 1, hs[0].line - 1) + own_sum(doc, hs, 0, hs.len() as int) == word_count(doc),
{
    lemma_last_line(doc);
    lemma_own_sum(doc, hs, 0, hs.len() as int);
    assert(1 <= hs[0].line <= last_line(doc));
    lemma_words_between(doc, 1, hs[0].line - 1);
    assert(doc.take(0) =~= Seq::<u8>::empty());
    assert(word_count(Seq::<u8>::empty()) == 0);
}

} // verus!

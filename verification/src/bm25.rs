//! What Okapi BM25 counts: the corpus a document is compared against, and how often the terms of
//! a query occur in it.
//!
//! **Documents, not chunks.** The index is over chunks; the ranking is over documents, from the
//! body the caller is already holding.
//!
//! **Every input is free.** `ndocs` and `total_words` are the folder totals the listing surfaces
//! already carry on every folder row, and `df` comes out of the retrieval query itself.

use vstd::prelude::*;
use crate::chars::texts;
use crate::terms::{index_words, meets_at, times_met, words, Term, Want};

verus! {

/// What the scored documents are being compared against.
#[derive(Clone, Copy, Debug, PartialEq, Eq, Structural)]
pub struct Corpus {
    /// Live documents in the searched scope — a folder's `files` total, or the store's.
    pub ndocs: u64,
    /// Words across all of them, for the mean length `b` normalises against.
    pub total_words: u64,
}

/// One term of the query, with how many documents in the scope hold it.
#[derive(Clone, Debug)]
pub struct TermDf<'a> {
    pub term: &'a Term,
    pub df: u64,
}

/// How often a term occurs among some words. A phrase counts its occurrences as a phrase, not its
/// words separately; one without words does not occur.
pub open spec fn occurrences(t: Want, doc: Seq<Seq<char>>) -> nat {
    if t matches Want::Phrase(ws) && ws.len() == 0 {
        0
    } else {
        times_met(t, doc, doc.len() as int)
    }
}

/// How often a term occurs in an already-tokenised document.
///
/// A phrase counts its occurrences as a phrase, not its words separately: `"churn prediction"`
/// twice is two, not four, which is what makes a document that happens to use both words all over
/// score below one that uses the phrase.
pub fn frequency(term: &Term, doc: &Vec<String>) -> (n: usize)
    ensures
        n == occurrences(term@, texts(doc@)),
        n <= doc@.len(),
{
    match term {
        Term::Phrase(ws) => {
            if ws.len() == 0 {
                assert(texts(ws@).len() == 0);
                return 0;
            }
            assert(texts(ws@).len() > 0);
        },
        _ => {},
    }
    let mut n: usize = 0;
    let mut i: usize = 0;
    while i < doc.len()
        invariant
            i <= doc@.len(),
            n <= i,
            n == times_met(term@, texts(doc@), i as int),
        decreases doc@.len() - i,
    {
        if meets_at(term, doc, i) {
            n = n + 1;
        }
        i += 1;
    }
    n
}

/// How long a document is in words, and how often each of some terms occurs in it.
///
/// Term frequency is counted the way the index tokenises — folded runs of letters and digits —
/// so what is counted here and what the index matched are the same words, diacritics and all.
pub fn counts<'a>(terms: &Vec<TermDf<'a>>, body: &str) -> (r: (usize, Vec<usize>))
    ensures
        r.0 == index_words(body@).len(),
        r.1@.len() == terms@.len(),
        forall|i: int|
            0 <= i < terms@.len() ==> (#[trigger] r.1@[i]) == occurrences(terms@[i].term@, index_words(body@)),
{
    let doc = words(body);
    assert(texts(doc@).len() == doc@.len());
    let mut out: Vec<usize> = Vec::new();
    let mut i: usize = 0;
    while i < terms.len()
        invariant
            i <= terms@.len(),
            texts(doc@) == index_words(body@),
            out@.len() == i,
            forall|k: int|
                0 <= k < i ==> (#[trigger] out@[k]) == occurrences(terms@[k].term@, index_words(body@)),
        decreases terms@.len() - i,
    {
        out.push(frequency(terms[i].term, &doc));
        i += 1;
    }
    (doc.len(), out)
}

} // verus!

//! A store held in memory, as links see it.

use vstd::prelude::*;
use vstd::slice::slice_subrange;
use vstd::string::*;
use crate::chars::{
    after_last, ascii_lowered, begins, begins_with, ends, ends_with, lower_case, lowered, past_last, same_chars, texts,
    to_ascii_lowered,
};
use crate::md::resolve::{files_told, FileAt, Lookup};
use crate::storage::Result;
use crate::text::chars_of;

verus! {

/// Files and their headings, each file by its id.
pub struct FileList {
    pub files: Vec<(i64, String)>,
    pub headings: Vec<(i64, String)>,
}

/// What is asked of a file.
pub enum Asked {
    Path(Seq<char>),
    Name(Seq<char>),
    Suffix(Seq<char>),
}

/// Does the file at `path` answer?
pub open spec fn answers(path: Seq<char>, q: Asked) -> bool {
    match q {
        Asked::Path(p) => ascii_lowered(path) == ascii_lowered(p),
        Asked::Name(n) => ascii_lowered(path.skip(past_last(path, '/'))) == ascii_lowered(n),
        Asked::Suffix(s) => ends(lower_case(path), s),
    }
}

/// The files that answer, in their order.
pub open spec fn answering(files: Seq<FileAt>, q: Asked) -> Seq<FileAt>
    decreases files.len(),
{
    if files.len() == 0 {
        Seq::empty()
    } else {
        let front = answering(files.drop_last(), q);
        if answers(files.last().1, q) {
            front.push(files.last())
        } else {
            front
        }
    }
}

/// The headings of one file, in their order.
pub open spec fn headed(rows: Seq<FileAt>, id: i64) -> Seq<Seq<char>>
    decreases rows.len(),
{
    if rows.len() == 0 {
        Seq::empty()
    } else {
        let front = headed(rows.drop_last(), id);
        if rows.last().0 == id {
            front.push(rows.last().1)
        } else {
            front
        }
    }
}

/// Is there a file below the folder?
pub open spec fn folds_into(files: Seq<FileAt>, folder: Seq<char>) -> bool {
    exists|i: int| 0 <= i < files.len() && begins(ascii_lowered((#[trigger] files[i]).1), ascii_lowered(folder).push('/'))
}

fn equal_folded(a: &[char], b: &[char]) -> (r: bool)
    ensures
        r == (ascii_lowered(a@) == ascii_lowered(b@)),
{
    same_chars(to_ascii_lowered(a).as_slice(), to_ascii_lowered(b).as_slice())
}

/// One kind of question, put to a file.
enum Question<'a> {
    Path(&'a [char]),
    Name(&'a [char]),
    Suffix(&'a [char]),
}

impl<'a> Question<'a> {
    spec fn asked(&self) -> Asked {
        match self {
            Question::Path(p) => Asked::Path(p@),
            Question::Name(n) => Asked::Name(n@),
            Question::Suffix(s) => Asked::Suffix(s@),
        }
    }

    fn met_by(&self, path: &str) -> (r: bool)
        ensures
            r == answers(path@, self.asked()),
    {
        let p: Vec<char> = chars_of(path);
        match self {
            Question::Path(q) => equal_folded(p.as_slice(), q),
            Question::Name(n) => {
                let at: usize = after_last(p.as_slice(), '/');
                let name = slice_subrange(p.as_slice(), at, p.len());
                proof {
                    assert(name@ =~= path@.skip(past_last(path@, '/')));
                }
                equal_folded(name, n)
            },
            Question::Suffix(s) => {
                let low: Vec<char> = chars_of(lowered(path).as_str());
                ends_with(low.as_slice(), s)
            },
        }
    }
}

impl FileList {
    fn select(&self, q: &Question) -> (out: Vec<(i64, String)>)
        ensures
            files_told(out@) == answering(files_told(self.files@), q.asked()),
    {
        let ghost rows = files_told(self.files@);
        let mut out: Vec<(i64, String)> = Vec::new();
        let mut i: usize = 0;
        proof {
            assert(files_told(out@) =~= Seq::<FileAt>::empty());
        }
        while i < self.files.len()
            invariant
                i <= self.files@.len(),
                rows == files_told(self.files@),
                files_told(out@) == answering(rows.take(i as int), q.asked()),
            decreases self.files@.len() - i,
        {
            let f = &self.files[i];
            proof {
                assert(rows.take(i + 1).drop_last() =~= rows.take(i as int));
                assert(rows.take(i + 1).last() == (f.0, f.1@));
            }
            if q.met_by(f.1.as_str()) {
                let ghost before = out@;
                out.push((f.0, f.1.clone()));
                proof {
                    assert(files_told(out@) =~= files_told(before).push((f.0, f.1@)));
                }
            }
            i += 1;
        }
        proof {
            assert(rows.take(i as int) =~= rows);
        }
        out
    }
}

impl Lookup for FileList {
    open spec fn reliable(&self) -> bool {
        true
    }

    open spec fn at_path(&self, path: Seq<char>) -> Seq<FileAt> {
        answering(files_told(self.files@), Asked::Path(path))
    }

    open spec fn with_name(&self, name: Seq<char>) -> Seq<FileAt> {
        answering(files_told(self.files@), Asked::Name(name))
    }

    open spec fn with_suffix(&self, suffix: Seq<char>) -> Seq<FileAt> {
        answering(files_told(self.files@), Asked::Suffix(suffix))
    }

    open spec fn folder_at(&self, path: Seq<char>) -> bool {
        folds_into(files_told(self.files@), path)
    }

    open spec fn heading_paths(&self, file_id: i64) -> Seq<Seq<char>> {
        headed(files_told(self.headings@), file_id)
    }

    fn files_by_path(&self, path: &str) -> (r: Result<Vec<(i64, String)>>) {
        let p: Vec<char> = chars_of(path);
        Ok(self.select(&Question::Path(p.as_slice())))
    }

    fn files_by_name(&self, name: &str) -> (r: Result<Vec<(i64, String)>>) {
        let n: Vec<char> = chars_of(name);
        Ok(self.select(&Question::Name(n.as_slice())))
    }

    fn files_by_suffix(&self, suffix: &str) -> (r: Result<Vec<(i64, String)>>) {
        let s: Vec<char> = chars_of(suffix);
        Ok(self.select(&Question::Suffix(s.as_slice())))
    }

    fn is_folder(&self, path: &str) -> (r: Result<bool>) {
        let p: Vec<char> = chars_of(path);
        let mut low: Vec<char> = to_ascii_lowered(p.as_slice());
        low.push('/');
        let ghost rows = files_told(self.files@);
        let mut i: usize = 0;
        while i < self.files.len()
            invariant
                i <= self.files@.len(),
                rows == files_told(self.files@),
                low@ == ascii_lowered(path@).push('/'),
                forall|k: int| 0 <= k < i ==> !begins(ascii_lowered((#[trigger] rows[k]).1), low@),
            decreases self.files@.len() - i,
        {
            let f: Vec<char> = chars_of(self.files[i].1.as_str());
            let here: bool = begins_with(to_ascii_lowered(f.as_slice()).as_slice(), low.as_slice());
            proof {
                assert(rows[i as int].1 == f@);
            }
            if here {
                return Ok(true);
            }
            i += 1;
        }
        Ok(false)
    }

    fn headings(&self, file_id: i64) -> (r: Result<Vec<String>>) {
        let ghost rows = files_told(self.headings@);
        let mut out: Vec<String> = Vec::new();
        let mut i: usize = 0;
        proof {
            assert(texts(out@) =~= Seq::<Seq<char>>::empty());
        }
        while i < self.headings.len()
            invariant
                i <= self.headings@.len(),
                rows == files_told(self.headings@),
                texts(out@) == headed(rows.take(i as int), file_id),
            decreases self.headings@.len() - i,
        {
            let h = &self.headings[i];
            proof {
                assert(rows.take(i + 1).drop_last() =~= rows.take(i as int));
                assert(rows.take(i + 1).last() == (h.0, h.1@));
            }
            if h.0 == file_id {
                let ghost before = out@;
                out.push(h.1.clone());
                proof {
                    assert(texts(out@) =~= texts(before).push(h.1@));
                }
            }
            i += 1;
        }
        proof {
            assert(rows.take(i as int) =~= rows);
        }
        Ok(out)
    }
}

} // verus!

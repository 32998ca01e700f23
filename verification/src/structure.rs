//! Structure extractor plugin trait. Core is format-agnostic.

use vstd::prelude::*;
use crate::value::Value;

verus! {

#[derive(Clone, Debug, PartialEq, Eq)]
pub struct Section {
    /// Heading path, e.g. `"Intro / Goals"`.
    pub heading_path: String,
    pub level: u32,
    /// 1-based inclusive line span, heading line included.
    pub line_from: u64,
    pub line_to: u64,
    /// The last component of the heading path, as written: `"Goals"`.
    pub heading: String,
    /// Words in this section's own lines, heading line included.
    ///
    /// A word never spans a line and sections partition a document by line, so this is exact
    /// and the two figures compose: `nwords_total` is this plus every nested section's own.
    pub nwords: u64,
    /// Words in this section and everything nested under it.
    pub nwords_total: u64,
}

#[derive(Debug, PartialEq, Eq)]
pub struct Link {
    /// The target as written, without `#anchor`, `|alias` or query; markdown links decoded.
    pub target_path: String,
    /// 1-based line.
    pub line: u64,
    /// `wiki`, `embed`, `md` or `image`.
    pub kind: String,
    /// `heading` or `^block` after `#`.
    pub anchor: Option<String>,
    pub alias: Option<String>,
    /// A URL, email address, query or numbered reference rather than a document.
    pub external: bool,
    /// The bytes of the target as written, when it is written in place.
    pub span: Option<(u64, u64)>,
}

#[derive(Debug, PartialEq, Eq)]
pub struct Structure {
    pub sections: Vec<Section>,
    pub links: Vec<Link>,
    pub frontmatter: Option<Value>,
}

impl Structure {
    /// Nothing was found.
    pub open spec fn is_blank(&self) -> bool {
        self.sections@.len() == 0 && self.links@.len() == 0 && self.frontmatter is None
    }
}

impl Default for Structure {
    fn default() -> (r: Self)
        ensures
            r.is_blank(),
    {
        Structure { sections: Vec::new(), links: Vec::new(), frontmatter: None }
    }
}

/// Finds the structure of a document. What it finds is up to the format.
pub trait StructureExtractor: Send + Sync {
    fn extract(&self, bytes: &[u8]) -> Structure;
}

/// Extractor that finds nothing; used when no format plugin is installed.
pub struct NoStructure;

impl StructureExtractor for NoStructure {
    fn extract(&self, _bytes: &[u8]) -> (r: Structure)
        ensures
            r.is_blank(),
    {
        Structure::default()
    }
}

/// A section as a mathematical value.
#[verifier::ext_equal]
pub struct Part {
    pub path: Seq<char>,
    pub level: u32,
    pub from: int,
    pub to: int,
    pub heading: Seq<char>,
    pub own_words: int,
    pub all_words: int,
}

impl View for Section {
    type V = Part;

    open spec fn view(&self) -> Part {
        Part {
            path: self.heading_path@,
            level: self.level,
            from: self.line_from as int,
            to: self.line_to as int,
            heading: self.heading@,
            own_words: self.nwords as int,
            all_words: self.nwords_total as int,
        }
    }
}

pub open spec fn parts(v: Seq<Section>) -> Seq<Part> {
    Seq::new(v.len(), |i: int| v[i]@)
}

} // verus!

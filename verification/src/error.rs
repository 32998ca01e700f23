//! The library's error type.

use vstd::prelude::*;
use vstd::string::*;
use crate::commit::ConflictInfo;
use crate::hash::{hex, hex_of};
use crate::text::{dec, decimal};

verus! {

#[derive(Debug)]
pub enum TextdbError {
    Storage(String),
    MissingChunk(crate::hash::Hash),
    MissingNode(crate::hash::Hash),
    InvalidEdit(String),
    NotFound(String),
    Conflict(Box<ConflictInfo>),
    Contention,
    Other(String),
}

impl TextdbError {
    /// SQLSTATE-style code used by the engine bindings.
    pub fn code(&self) -> (r: &'static str)
        ensures
            r@ == match self {
                TextdbError::Conflict(_) => "TX001"@,
                TextdbError::Contention => "TX002"@,
                TextdbError::NotFound(_) => "TX003"@,
                TextdbError::InvalidEdit(_) => "TX004"@,
                _ => "TX000"@,
            },
    {
        match self {
            TextdbError::Conflict(_) => "TX001",
            TextdbError::Contention => "TX002",
            TextdbError::NotFound(_) => "TX003",
            TextdbError::InvalidEdit(_) => "TX004",
            _ => "TX000",
        }
    }

    /// The sentence shown for the error.
    pub open spec fn sentence(&self) -> Seq<char> {
        match self {
            TextdbError::Storage(s) => "storage error: "@ + s@,
            TextdbError::MissingChunk(h) => "missing chunk "@ + hex_of(h@),
            TextdbError::MissingNode(h) => "missing node "@ + hex_of(h@),
            TextdbError::InvalidEdit(s) => "invalid edit: "@ + s@,
            TextdbError::NotFound(s) => "not found: "@ + s@,
            TextdbError::Conflict(c) => "conflict in "@ + c.path@ + " lines "@ + dec(
                c.region_line_from as nat,
            ) + "-"@ + dec(c.region_line_to as nat),
            TextdbError::Contention => "contention: retry budget exhausted"@,
            TextdbError::Other(s) => s@,
        }
    }

    pub fn message(&self) -> (r: String)
        ensures
            r@ == self.sentence(),
    {
        match self {
            TextdbError::Storage(s) => String::from_str("storage error: ").concat(s.as_str()),
            TextdbError::MissingChunk(h) => String::from_str("missing chunk ").concat(hex(h).as_str()),
            TextdbError::MissingNode(h) => String::from_str("missing node ").concat(hex(h).as_str()),
            TextdbError::InvalidEdit(s) => String::from_str("invalid edit: ").concat(s.as_str()),
            TextdbError::NotFound(s) => String::from_str("not found: ").concat(s.as_str()),
            TextdbError::Conflict(c) => {
                let mut out = String::from_str("conflict in ");
                out.append(c.path.as_str());
                out.append(" lines ");
                out.append(decimal(c.region_line_from).as_str());
                out.append("-");
                out.append(decimal(c.region_line_to).as_str());
                out
            },
            TextdbError::Contention => String::from_str("contention: retry budget exhausted"),
            TextdbError::Other(s) => s.clone(),
        }
    }
}

} // verus!

use vstd::prelude::*;

use crate::names::{decimal, usize_to_string};
use vstd::string::StringExecFns;

verus! {

/// Byte range of a node in the source text.
#[derive(Debug, Clone, Copy, PartialEq, Eq, Hash)]
pub struct SourceRef {
    pub start: usize,
    pub end: usize,
}

impl SourceRef {
    pub fn new(start: usize, end: usize) -> (r: SourceRef)
        ensures
            r.start == start,
            r.end == end,
    {
        SourceRef { start, end }
    }

    /// The reference used for synthesized nodes: the empty range at 0.
    pub fn unknown() -> (r: SourceRef)
        ensures
            r.start == 0,
            r.end == 0,
    {
        SourceRef { start: 0, end: 0 }
    }

    /// The byte range `start..end`.
    pub fn span(&self) -> (r: core::ops::Range<usize>)
        ensures
            r.start == self.start,
            r.end == self.end,
    {
        core::ops::Range { start: self.start, end: self.end }
    }

    /// The range written `start..end`.
    pub fn to_string(&self) -> (r: String)
        ensures
            r@ == source_ref_text(*self),
    {
        proof {
            reveal_strlit("..");
        }
        usize_to_string(self.start).concat("..").concat(usize_to_string(self.end).as_str())
    }

    /// A field-by-field copy.
    pub fn copy(&self) -> (r: SourceRef)
        ensures
            r == *self,
    {
        SourceRef { start: self.start, end: self.end }
    }
}

/// How a source range is written: `start..end`.
pub open spec fn source_ref_text(s: SourceRef) -> Seq<char> {
    decimal(s.start as nat) + ".."@ + decimal(s.end as nat)
}

} // verus!

use vstd::prelude::*;

verus! {

/// Failures of the number-encoding helpers.
#[derive(Debug, Clone, Copy, PartialEq, Eq)]
pub enum ToolError {
    /// The value does not fit the 56 data bits of the widest (eight-octet) vint.
    WriteVintOverflow(u64),
}

/// Failures of the tag writer.
#[derive(Debug, Clone, Copy, PartialEq, Eq)]
pub enum TagWriterError {
    /// A closing tag arrived that does not close the innermost open tag.
    ///
    /// `tag_id` is the id that the closing tag carried.  `expected_id` is the id
    /// of the innermost open tag, or `None` if no tag was open at all.
    UnexpectedClosingTag { tag_id: u64, expected_id: Option<u64> },
    /// The payload of a tag is too long for its size to be written as a vint.
    TagSizeError(ToolError),
}

} // verus!

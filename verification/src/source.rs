//! Byte ranges and owned source text.

use vstd::prelude::*;
use vstd::slice::slice_subrange;

verus! {

/// A half-open byte range `[start, end)` in a source file.
#[derive(Clone, Copy, Debug, PartialEq, Eq, Structural)]
pub struct TextRange {
    start: u32,
    end: u32,
}

impl TextRange {
    #[verifier::type_invariant]
    closed spec fn ordered(self) -> bool {
        self.start <= self.end
    }

    /// The first byte of the range.
    pub closed spec fn spec_start(self) -> u32 {
        self.start
    }

    /// One past the last byte of the range.
    pub closed spec fn spec_end(self) -> u32 {
        self.end
    }

    /// Builds a range, or `None` when `start > end`.
    pub fn new(start: u32, end: u32) -> (r: Option<TextRange>)
        ensures
            r is Some <==> start <= end,
            r matches Some(range) ==> range.spec_start() == start && range.spec_end() == end,
    {
        if start <= end {
            Some(TextRange { start, end })
        } else {
            None
        }
    }

    /// Builds a range whose order the caller has already established.
    pub(crate) fn ordered_new(start: u32, end: u32) -> (r: TextRange)
        requires
            start <= end,
        ensures
            r.spec_start() == start && r.spec_end() == end,
    {
        TextRange { start, end }
    }

    pub fn start(self) -> (r: u32)
        ensures
            r == self.spec_start(),
            self.spec_start() <= self.spec_end(),
    {
        proof {
            use_type_invariant(self);
        }
        self.start
    }

    pub fn end(self) -> (r: u32)
        ensures
            r == self.spec_end(),
            self.spec_start() <= self.spec_end(),
    {
        proof {
            use_type_invariant(self);
        }
        self.end
    }

    /// The number of bytes in the range.
    pub fn len(self) -> (r: u32)
        ensures
            r == self.spec_end() - self.spec_start(),
            self.spec_start() <= self.spec_end(),
    {
        proof {
            use_type_invariant(self);
        }
        self.end - self.start
    }

    pub fn is_empty(self) -> (r: bool)
        ensures
            r <==> self.spec_start() == self.spec_end(),
    {
        self.start == self.end
    }
}

/// Why source bytes were rejected.
#[derive(Clone, Copy, Debug, PartialEq, Eq, Structural)]
pub enum SourceError {
    /// Byte offsets are `u32`; longer inputs cannot be addressed.
    TooLarge { len: usize },
}

/// Owned source bytes whose offsets all fit in a `u32`.
#[derive(Debug)]
pub struct Source {
    bytes: Vec<u8>,
}

impl Source {
    #[verifier::type_invariant]
    closed spec fn addressable(self) -> bool {
        self.bytes@.len() <= u32::MAX
    }

    /// The bytes of the source.
    pub closed spec fn spec_bytes(self) -> Seq<u8> {
        self.bytes@
    }

    /// Takes ownership of the bytes, or fails when they are too long to address.
    pub fn new(bytes: Vec<u8>) -> (r: Result<Source, SourceError>)
        ensures
            r is Ok <==> bytes@.len() <= u32::MAX,
            r matches Ok(source) ==> source.spec_bytes() == bytes@,
            r matches Err(e) ==> e == (SourceError::TooLarge { len: bytes@.len() as usize }),
    {
        if bytes.len() <= 0xffff_ffffusize {
            Ok(Source { bytes })
        } else {
            let len = bytes.len();
            Err(SourceError::TooLarge { len })
        }
    }

    pub fn bytes(&self) -> (r: &[u8])
        ensures
            r@ == self.spec_bytes(),
            r@.len() <= u32::MAX,
    {
        proof {
            use_type_invariant(self);
        }
        self.bytes.as_slice()
    }

    /// The bytes covered by `range`, or `None` when it ends past the source.
    pub fn slice(&self, range: TextRange) -> (r: Option<&[u8]>)
        ensures
            r is Some <==> range.spec_end() <= self.spec_bytes().len(),
            r matches Some(s) ==> s@ == self.spec_bytes().subrange(
                range.spec_start() as int,
                range.spec_end() as int,
            ),
    {
        let start = range.start() as usize;
        let end = range.end() as usize;
        if end <= self.bytes.len() {
            Some(slice_subrange(self.bytes.as_slice(), start, end))
        } else {
            None
        }
    }
}

} // verus!

//! A single formatting span: a style attribute paired with a half-open
//! byte range into the owning buffer.

use vstd::prelude::*;

use crate::attr::Attr;
use crate::range::{intersection_spec, range_intersection, ByteRange};

verus! {

/// One styled region of a text buffer: an attribute and the byte range it
/// covers.
#[derive(Clone, Copy, Debug, PartialEq, Eq, Structural, Hash)]
pub struct StyledIndexedSpan {
    pub attr: Attr,
    pub range: ByteRange,
}

impl StyledIndexedSpan {
    /// Whether the span covers no byte at all.
    pub open spec fn spec_is_empty(&self) -> bool {
        self.range.spec_is_empty()
    }

    /// The two halves of a span cut at `idx`, each keeping the original
    /// attribute; a half that would be empty is absent, and a cut outside
    /// the span yields nothing.
    pub open spec fn split_at_spec(self, idx: int) -> (Option<StyledIndexedSpan>, Option<
        StyledIndexedSpan,
    >) {
        if self.range.spec_contains(idx) {
            let left = if self.range.start < idx {
                Some(
                    StyledIndexedSpan {
                        attr: self.attr,
                        range: ByteRange { start: self.range.start, end: idx as usize },
                    },
                )
            } else {
                None
            };
            let right = Some(
                StyledIndexedSpan {
                    attr: self.attr,
                    range: ByteRange { start: idx as usize, end: self.range.end },
                },
            );
            (left, right)
        } else {
            (None, None)
        }
    }

    /// A span covering the whole of `source`.
    pub fn new(source: &[u8], attr: Attr) -> (r: StyledIndexedSpan)
        ensures
            r.attr == attr,
            r.range == (ByteRange { start: 0, end: source@.len() as usize }),
    {
        StyledIndexedSpan { attr, range: ByteRange { start: 0, end: source.len() } }
    }

    /// A span covering exactly `range`.
    pub fn new_range(range: ByteRange, attr: Attr) -> (r: StyledIndexedSpan)
        ensures
            r.attr == attr,
            r.range == range,
    {
        StyledIndexedSpan { range, attr }
    }

    /// The bytes of `source` the span covers.
    pub fn resolve(&self, source: &[u8]) -> (r: Vec<u8>)
        requires
            self.range.start <= self.range.end <= source@.len(),
        ensures
            r@ == source@.subrange(self.range.start as int, self.range.end as int),
    {
        let mut r: Vec<u8> = Vec::new();
        let mut i: usize = self.range.start;
        while i < self.range.end
            invariant
                self.range.start <= i <= self.range.end <= source@.len(),
                r@ == source@.subrange(self.range.start as int, i as int),
            decreases self.range.end - i,
        {
            r.push(source[i]);
            i = i + 1;
            proof {
                assert(source@.subrange(self.range.start as int, i as int) =~= source@.subrange(
                    self.range.start as int,
                    i - 1,
                ).push(source@[i - 1]));
            }
        }
        r
    }

    /// The number of bytes the span covers.
    pub fn len(&self) -> (r: usize)
        ensures
            r == self.range.spec_len(),
    {
        self.range.len()
    }

    /// Whether the span covers no byte at all.
    #[verifier::when_used_as_spec(spec_is_empty)]
    pub fn is_empty(&self) -> (r: bool)
        ensures
            r == self.spec_is_empty(),
    {
        self.range.is_empty()
    }

    /// Shift the span forward by `offset` bytes.
    pub fn offset(&mut self, offset: usize)
        requires
            old(self).range.start + offset <= usize::MAX,
            old(self).range.end + offset <= usize::MAX,
        ensures
            final(self).attr == old(self).attr,
            final(self).range.start == old(self).range.start + offset,
            final(self).range.end == old(self).range.end + offset,
    {
        self.range.start = self.range.start + offset;
        self.range.end = self.range.end + offset;
    }

    /// Whether the span covers byte position `idx`.
    pub fn contains(&self, idx: usize) -> (r: bool)
        ensures
            r == self.range.spec_contains(idx as int),
    {
        self.range.contains(idx)
    }

    /// The intersection of the span's range with `range`.
    pub fn intersection(&self, range: ByteRange) -> (r: Option<ByteRange>)
        ensures
            r == intersection_spec(self.range, range),
    {
        range_intersection(self.range, range)
    }

    /// Cut the span at `idx` into its half before and its half from `idx`
    /// on.
    pub fn split_at(&self, idx: usize) -> (r: (Option<StyledIndexedSpan>, Option<
        StyledIndexedSpan,
    >))
        ensures
            r == self.split_at_spec(idx as int),
    {
        if self.contains(idx) {
            let left = if self.range.start < idx {
                Some(
                    StyledIndexedSpan {
                        attr: self.attr,
                        range: ByteRange { start: self.range.start, end: idx },
                    },
                )
            } else {
                None
            };
            let right = Some(
                StyledIndexedSpan {
                    attr: self.attr,
                    range: ByteRange { start: idx, end: self.range.end },
                },
            );
            (left, right)
        } else {
            (None, None)
        }
    }
}

} // verus!

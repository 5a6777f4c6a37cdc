//! Half-open `[start, end)` byte ranges and the interval algebra the span
//! engine is built on: intersection and "remove a sub-range", which may
//! leave zero, one or two remainder ranges.
//!
//! A range whose `start` is not below its `end` is empty; empty ranges
//! intersect nothing, and two ranges that merely touch at a boundary do
//! not intersect.

use vstd::prelude::*;

verus! {

/// A half-open byte range `[start, end)`. `start >= end` means empty.
#[derive(Clone, Copy, Debug, PartialEq, Eq, Structural, Hash)]
pub struct ByteRange {
    pub start: usize,
    pub end: usize,
}

impl ByteRange {
    /// Whether the range holds no position at all.
    pub open spec fn spec_is_empty(&self) -> bool {
        self.start >= self.end
    }

    /// Whether position `i` lies inside the range.
    pub open spec fn spec_contains(self, i: int) -> bool {
        self.start <= i < self.end
    }

    /// The number of positions the range holds.
    pub open spec fn spec_len(self) -> int {
        if self.start >= self.end {
            0
        } else {
            self.end - self.start
        }
    }

    #[verifier::when_used_as_spec(spec_is_empty)]
    pub fn is_empty(&self) -> (r: bool)
        ensures
            r == self.spec_is_empty(),
    {
        self.start >= self.end
    }

    pub fn contains(&self, idx: usize) -> (r: bool)
        ensures
            r == self.spec_contains(idx as int),
    {
        self.start <= idx && idx < self.end
    }

    pub fn len(&self) -> (r: usize)
        ensures
            r == self.spec_len(),
    {
        if self.start >= self.end {
            0
        } else {
            self.end - self.start
        }
    }
}

/// The intersection of two ranges: `None` if either is empty or they do
/// not overlap, otherwise the range from the larger start to the smaller
/// end. Ranges that share only a boundary do not intersect.
pub open spec fn intersection_spec(r1: ByteRange, r2: ByteRange) -> Option<ByteRange> {
    if r1.spec_is_empty() || r2.spec_is_empty() || r1.start >= r2.end || r2.start >= r1.end {
        None
    } else {
        Some(
            ByteRange {
                start: if r1.start >= r2.start {
                    r1.start
                } else {
                    r2.start
                },
                end: if r1.end <= r2.end {
                    r1.end
                } else {
                    r2.end
                },
            },
        )
    }
}

/// What removing `re` from `r1` leaves behind: the remainder left of the
/// removed part and the remainder right of it. Removing an empty range
/// from a non-empty one leaves `r1` intact; removing `r1` from itself, or
/// anything from an empty `r1`, leaves nothing.
pub open spec fn remove_spec(r1: ByteRange, re: ByteRange) -> (Option<ByteRange>, Option<
    ByteRange,
>) {
    if re.spec_is_empty() && !r1.spec_is_empty() {
        (Some(r1), None)
    } else if re.spec_is_empty() || r1.spec_is_empty() || r1 == re {
        (None, None)
    } else {
        match intersection_spec(r1, re) {
            None => (Some(r1), None),
            Some(rei) => {
                let left = if rei.start > r1.start {
                    Some(ByteRange { start: r1.start, end: rei.start })
                } else {
                    None
                };
                let right = if rei.end < r1.end {
                    Some(ByteRange { start: rei.end, end: r1.end })
                } else {
                    None
                };
                (left, right)
            },
        }
    }
}

/// Whether an optional range is present and holds position `i`.
pub open spec fn opt_contains(o: Option<ByteRange>, i: int) -> bool {
    match o {
        Some(r) => r.spec_contains(i),
        None => false,
    }
}

/// `r1` intersected with `r2`.
pub fn range_intersection(r1: ByteRange, r2: ByteRange) -> (r: Option<ByteRange>)
    ensures
        r == intersection_spec(r1, r2),
{
    if r1.is_empty() || r2.is_empty() || r1.start >= r2.end || r2.start >= r1.end {
        None
    } else {
        let start = if r1.start >= r2.start {
            r1.start
        } else {
            r2.start
        };
        let end = if r1.end <= r2.end {
            r1.end
        } else {
            r2.end
        };
        Some(ByteRange { start, end })
    }
}

/// Remove `re` from `r1`, returning the left and right remainders.
pub fn range_remove(r1: ByteRange, re: ByteRange) -> (r: (Option<ByteRange>, Option<ByteRange>))
    ensures
        r == remove_spec(r1, re),
{
    if re.is_empty() && !r1.is_empty() {
        (Some(r1), None)
    } else if re.is_empty() || r1.is_empty() || r1 == re {
        (None, None)
    } else {
        match range_intersection(r1, re) {
            None => (Some(r1), None),
            Some(rei) => {
                let left = if rei.start > r1.start {
                    Some(ByteRange { start: r1.start, end: rei.start })
                } else {
                    None
                };
                let right = if rei.end < r1.end {
                    Some(ByteRange { start: rei.end, end: r1.end })
                } else {
                    None
                };
                (left, right)
            },
        }
    }
}

/// Shift a range forward by `amount`.
pub fn range_add(r1: ByteRange, amount: usize) -> (r: ByteRange)
    requires
        r1.start + amount <= usize::MAX,
        r1.end + amount <= usize::MAX,
    ensures
        r.start == r1.start + amount,
        r.end == r1.end + amount,
{
    ByteRange { start: r1.start + amount, end: r1.end + amount }
}

/// Shift a range backward by `amount`.
pub fn range_subtract(r1: ByteRange, amount: usize) -> (r: ByteRange)
    requires
        amount <= r1.start,
        amount <= r1.end,
    ensures
        r.start == r1.start - amount,
        r.end == r1.end - amount,
{
    ByteRange { start: r1.start - amount, end: r1.end - amount }
}

/// Intersection is symmetric in its two arguments.
pub proof fn lemma_intersection_commutes(r1: ByteRange, r2: ByteRange)
    ensures
        intersection_spec(r1, r2) == intersection_spec(r2, r1),
{
}

/// A non-empty range intersected with itself is itself.
pub proof fn lemma_intersection_self(r: ByteRange)
    requires
        !r.spec_is_empty(),
    ensures
        intersection_spec(r, r) == Some(r),
{
}

/// Ranges that touch at a single boundary never intersect.
pub proof fn lemma_touching_ranges_disjoint(a: usize, b: usize, c: usize)
    ensures
        intersection_spec(ByteRange { start: a, end: b }, ByteRange { start: b, end: c })
            == None::<ByteRange>,
{
}

/// Removing `re` from `r1` splits `r1` exactly: the left remainder, the
/// intersection with `re`, and the right remainder together hold precisely
/// the positions of `r1`, and no position lies in two of the pieces.
pub proof fn lemma_remove_reconstructs(r1: ByteRange, re: ByteRange)
    ensures
        forall|i: int|
            r1.spec_contains(i) <==> (opt_contains(remove_spec(r1, re).0, i) || opt_contains(
                intersection_spec(r1, re),
                i,
            ) || opt_contains(remove_spec(r1, re).1, i)),
        forall|i: int|
            !(opt_contains(remove_spec(r1, re).0, i) && opt_contains(intersection_spec(r1, re), i)),
        forall|i: int|
            !(opt_contains(remove_spec(r1, re).0, i) && opt_contains(remove_spec(r1, re).1, i)),
        forall|i: int|
            !(opt_contains(intersection_spec(r1, re), i) && opt_contains(remove_spec(r1, re).1, i)),
{
}

} // verus!


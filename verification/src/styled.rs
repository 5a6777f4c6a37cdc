//! The styled-text structure: a byte buffer together with an ordered list
//! of formatting spans, kept within the buffer's bounds by every
//! operation.
//!
//! Spans are stored in insertion order, not sorted by range, and may
//! overlap; overlap is resolved only where an operation says so
//! (`add_span_intersect`) or when the list is flattened for display.

use vstd::prelude::*;

use crate::attr::{combine_spec, Attr};
use crate::range::{
    intersection_spec, lemma_remove_reconstructs, opt_contains, range_remove, remove_spec,
    ByteRange,
};
use crate::span::StyledIndexedSpan;

verus! {

/// What to do with a span that the insertion point falls inside.
#[derive(Debug, Copy, Clone, Eq, PartialEq, Structural)]
pub enum InsertMode {
    /// Break apart anything the text is inserted in the middle of, so the
    /// inserted text does not gain the style.
    BreakApart,
    /// Extend any style the insertion point falls inside to cover the
    /// text. Unsupported: asking for it where a span contains the
    /// insertion point is refused rather than guessed at.
    Extend,
}

/// The one recoverable refusal the engine knows.
#[derive(Debug, Copy, Clone, Eq, PartialEq, Structural)]
pub enum StyledError {
    /// Insertion was requested in a mode that cannot handle an insertion
    /// point inside an existing span.
    UnsupportedInsertMode,
}

/// A byte buffer plus an ordered list of styled spans over it.
#[derive(Debug, Clone, PartialEq)]
pub struct StyledString {
    source: Vec<u8>,
    spans: Vec<StyledIndexedSpan>,
}

/// Every span of `spans` shifted forward by `amount`.
pub open spec fn shift_all(spans: Seq<StyledIndexedSpan>, amount: int) -> Seq<StyledIndexedSpan> {
    spans.map(|i: int, s: StyledIndexedSpan| shifted(s, amount))
}

/// One span shifted forward by `amount`.
pub open spec fn shifted(span: StyledIndexedSpan, amount: int) -> StyledIndexedSpan {
    StyledIndexedSpan {
        attr: span.attr,
        range: ByteRange {
            start: (span.range.start + amount) as usize,
            end: (span.range.end + amount) as usize,
        },
    }
}

/// The span list after text of length `tlen` is inserted at `idx`: spans
/// before the first span containing `idx` are untouched; that first span
/// is split at `idx` and its right half shifted past the text; every span
/// after it in list order is shifted, whatever its range. If no span
/// contains `idx`, nothing moves.
pub open spec fn insert_repair(spans: Seq<StyledIndexedSpan>, idx: int, tlen: int) -> Seq<
    StyledIndexedSpan,
>
    decreases spans.len(),
{
    if spans.len() == 0 {
        Seq::empty()
    } else if spans[0].range.spec_contains(idx) {
        split_shifted(spans[0], idx, tlen) + shift_all(spans.skip(1), tlen)
    } else {
        seq![spans[0]] + insert_repair(spans.skip(1), idx, tlen)
    }
}

/// The pieces a span containing `idx` leaves behind after text of length
/// `tlen` lands at `idx`: its left half in place, its right half shifted.
pub open spec fn split_shifted(span: StyledIndexedSpan, idx: int, tlen: int) -> Seq<
    StyledIndexedSpan,
> {
    let left = if span.range.start < idx {
        seq![
            StyledIndexedSpan {
                attr: span.attr,
                range: ByteRange { start: span.range.start, end: idx as usize },
            },
        ]
    } else {
        Seq::empty()
    };
    left + seq![
        StyledIndexedSpan {
            attr: span.attr,
            range: ByteRange { start: (idx + tlen) as usize, end: (span.range.end + tlen) as usize },
        },
    ]
}

/// The buffer with every non-overlapping occurrence of `from`, found
/// left to right, replaced by `to`. An empty `from` matches at every
/// byte boundary, so `to` is interleaved between all bytes and placed at
/// both ends — the degenerate behavior is kept on purpose, since callers
/// may exploit it.
pub open spec fn replace_bytes(s: Seq<u8>, from: Seq<u8>, to: Seq<u8>) -> Seq<u8>
    decreases s.len(),
{
    if from.len() == 0 {
        if s.len() == 0 {
            to
        } else {
            to + seq![s[0]] + replace_bytes(s.skip(1), from, to)
        }
    } else if s.len() < from.len() {
        s
    } else if s.take(from.len() as int) == from {
        to + replace_bytes(s.skip(from.len() as int), from, to)
    } else {
        seq![s[0]] + replace_bytes(s.skip(1), from, to)
    }
}

/// Addition clamped to `usize`.
pub open spec fn sat_add_spec(a: int, b: int) -> int {
    if a + b > usize::MAX {
        usize::MAX as int
    } else {
        a + b
    }
}

/// Subtraction clamped to zero.
pub open spec fn sat_sub_spec(a: int, b: int) -> int {
    if a - b < 0 {
        0
    } else {
        a - b
    }
}

/// For one match at byte `pos`, the matched range in the old buffer and
/// the corresponding range in the replaced buffer, given how many bytes
/// earlier matches consumed (`matched`) and produced (`replaced`).
pub open spec fn match_pair_of(pos: int, flen: int, tlen: int, matched: int, replaced: int) -> (
    ByteRange,
    ByteRange,
) {
    let ns = sat_add_spec(sat_sub_spec(pos, matched), replaced);
    (
        ByteRange { start: pos as usize, end: sat_add_spec(pos, flen) as usize },
        ByteRange { start: ns as usize, end: sat_add_spec(ns, tlen) as usize },
    )
}

/// All (matched range, replacement range) pairs for the matches of
/// `from` in `s`, scanning left to right from byte `pos`, with `matched`
/// and `replaced` bytes already behind the scan.
pub open spec fn match_pairs_rec(
    s: Seq<u8>,
    from: Seq<u8>,
    to: Seq<u8>,
    pos: int,
    matched: int,
    replaced: int,
) -> Seq<(ByteRange, ByteRange)>
    decreases s.len(),
{
    if from.len() == 0 {
        seq![match_pair_of(pos, 0, to.len() as int, matched, replaced)] + if s.len() == 0 {
            Seq::empty()
        } else {
            match_pairs_rec(
                s.skip(1),
                from,
                to,
                pos + 1,
                matched,
                sat_add_spec(replaced, to.len() as int),
            )
        }
    } else if s.len() < from.len() {
        Seq::empty()
    } else if s.take(from.len() as int) == from {
        seq![match_pair_of(pos, from.len() as int, to.len() as int, matched, replaced)]
            + match_pairs_rec(
            s.skip(from.len() as int),
            from,
            to,
            pos + from.len(),
            sat_add_spec(matched, from.len() as int),
            sat_add_spec(replaced, to.len() as int),
        )
    } else {
        match_pairs_rec(s.skip(1), from, to, pos + 1, matched, replaced)
    }
}

/// The byte positions in `s`, counted from `base`, where the
/// non-overlapping matches of a non-empty `from` begin, leftmost first.
pub open spec fn match_starts(s: Seq<u8>, from: Seq<u8>, base: int) -> Seq<int>
    decreases s.len(),
{
    if from.len() == 0 || s.len() < from.len() {
        Seq::empty()
    } else if s.take(from.len() as int) == from {
        seq![base] + match_starts(s.skip(from.len() as int), from, base + from.len())
    } else {
        match_starts(s.skip(1), from, base + 1)
    }
}

/// What one span becomes when the matched region `[p, p + flen)` is
/// replaced by `tlen` bytes: the part before the region keeps its place,
/// the part after it shifts by the length difference, and the matched
/// bytes themselves drop out — the split-and-truncate of the interval
/// algebra's removal, followed by the shift.
pub open spec fn span_cut(span: StyledIndexedSpan, p: int, flen: int, tlen: int) -> Seq<
    StyledIndexedSpan,
> {
    let before = if span.range.start < p {
        seq![
            StyledIndexedSpan {
                attr: span.attr,
                range: ByteRange {
                    start: span.range.start,
                    end: (if span.range.end <= p {
                        span.range.end as int
                    } else {
                        p
                    }) as usize,
                },
            },
        ]
    } else {
        Seq::empty()
    };
    let astart = if span.range.start >= p + flen {
        span.range.start as int
    } else {
        p + flen
    };
    let after = if astart < span.range.end {
        seq![
            StyledIndexedSpan {
                attr: span.attr,
                range: ByteRange {
                    start: (astart - flen + tlen) as usize,
                    end: (span.range.end - flen + tlen) as usize,
                },
            },
        ]
    } else {
        Seq::empty()
    };
    before + after
}

/// Every span cut around one matched region, in list order.
pub open spec fn cut_all(spans: Seq<StyledIndexedSpan>, p: int, flen: int, tlen: int) -> Seq<
    StyledIndexedSpan,
>
    decreases spans.len(),
{
    if spans.len() == 0 {
        Seq::empty()
    } else {
        cut_all(spans.drop_last(), p, flen, tlen) + span_cut(spans.last(), p, flen, tlen)
    }
}

/// The span list after every match is replaced, applied rightmost match
/// first so that each earlier match still sits at its original byte
/// position when its turn comes.
pub open spec fn repair_spans(
    spans: Seq<StyledIndexedSpan>,
    matches: Seq<int>,
    flen: int,
    tlen: int,
) -> Seq<StyledIndexedSpan>
    decreases matches.len(),
{
    if matches.len() == 0 {
        spans
    } else {
        repair_spans(cut_all(spans, matches.last(), flen, tlen), matches.drop_last(), flen, tlen)
    }
}

/// The spans of the style-keeping replacement. With `from` and `to` of
/// one length no byte position moves and the spans carry over unchanged.
/// Otherwise each match shifts everything after it by the length
/// difference and cuts the spans it lands in. The degenerate empty
/// pattern interleaves `to` between all bytes; what a span means across
/// that has no clear answer, and the styles are dropped there.
pub open spec fn replace_spans_spec(
    src: Seq<u8>,
    spans: Seq<StyledIndexedSpan>,
    from: Seq<u8>,
    to: Seq<u8>,
) -> Seq<StyledIndexedSpan> {
    if from.len() == to.len() {
        spans
    } else if from.len() == 0 {
        Seq::empty()
    } else {
        repair_spans(spans, match_starts(src, from, 0), from.len() as int, to.len() as int)
    }
}

/// The pieces one existing span contributes when a new span is merged
/// in: an untouched copy if the two do not intersect; otherwise what is
/// left of it on each side of the intersection, around one span covering
/// exactly the intersection with the combined attribute.
pub open spec fn merge_pieces(span: StyledIndexedSpan, new: StyledIndexedSpan) -> Seq<
    StyledIndexedSpan,
> {
    match intersection_spec(span.range, new.range) {
        None => seq![span],
        Some(inter) => {
            let parts = remove_spec(span.range, inter);
            opt_span(parts.0, span.attr) + seq![
                StyledIndexedSpan { attr: combine_spec(span.attr, new.attr), range: inter },
            ] + opt_span(parts.1, span.attr)
        },
    }
}

/// An optional range as a span list: one span with `attr` if present,
/// nothing otherwise.
pub open spec fn opt_span(o: Option<ByteRange>, attr: Attr) -> Seq<StyledIndexedSpan> {
    match o {
        Some(r) => seq![StyledIndexedSpan { attr, range: r }],
        None => Seq::empty(),
    }
}

/// All pieces the existing spans contribute, in list order.
pub open spec fn merge_body(spans: Seq<StyledIndexedSpan>, new: StyledIndexedSpan) -> Seq<
    StyledIndexedSpan,
>
    decreases spans.len(),
{
    if spans.len() == 0 {
        Seq::empty()
    } else {
        merge_body(spans.drop_last(), new) + merge_pieces(spans.last(), new)
    }
}

/// The end of the running union of consumed new-span positions: it starts
/// at the new span's start and only ever grows to the largest
/// intersection end seen, so a gap between two intersected spans is
/// recorded as consumed too — a documented limitation of the merge, kept
/// as it is rather than silently reworked.
pub open spec fn used_end(spans: Seq<StyledIndexedSpan>, new: StyledIndexedSpan) -> usize
    decreases spans.len(),
{
    if spans.len() == 0 {
        new.range.start
    } else {
        let prev = used_end(spans.drop_last(), new);
        match intersection_spec(spans.last().range, new.range) {
            None => prev,
            Some(inter) => if inter.end > prev {
                inter.end
            } else {
                prev
            },
        }
    }
}

/// The whole span list after merging `new` in: each existing span's
/// pieces in order, then whatever the running union left of the new span,
/// carrying the new span's own attribute. An empty new span changes
/// nothing.
pub open spec fn add_intersect_spec(spans: Seq<StyledIndexedSpan>, new: StyledIndexedSpan) -> Seq<
    StyledIndexedSpan,
> {
    if new.range.spec_is_empty() {
        spans
    } else {
        let used = ByteRange { start: new.range.start, end: used_end(spans, new) };
        let leftover = remove_spec(new.range, used);
        merge_body(spans, new) + opt_span(leftover.0, new.attr) + opt_span(leftover.1, new.attr)
    }
}

impl StyledString {
    /// The text buffer, as a sequence of bytes.
    pub closed spec fn spec_source(&self) -> Seq<u8> {
        self.source@
    }

    /// The stored spans, in list order.
    pub closed spec fn spec_spans(&self) -> Seq<StyledIndexedSpan> {
        self.spans@
    }

    /// The bounds invariant: every span lies within the buffer, its start
    /// not past its end. Constructors establish it and every mutator
    /// keeps it.
    pub open spec fn wf(&self) -> bool {
        forall|i: int|
            0 <= i < self.spec_spans().len() ==> {
                &&& (#[trigger] self.spec_spans()[i]).range.start <= self.spec_spans()[i].range.end
                &&& self.spec_spans()[i].range.end <= self.spec_source().len()
            }
    }

    /// A styled text with no spans at all.
    pub fn new(source: Vec<u8>) -> (r: StyledString)
        ensures
            r.spec_source() == source@,
            r.spec_spans() == Seq::<StyledIndexedSpan>::empty(),
            r.wf(),
    {
        let r = StyledString { source, spans: Vec::new() };
        proof {
            assert(r.spec_spans() =~= Seq::<StyledIndexedSpan>::empty());
        }
        r
    }

    /// A styled text from a buffer and a pre-built span list. A span that
    /// leaves the buffer's bounds is a programming error in the caller,
    /// and such a list is refused outright by the precondition.
    pub fn with_spans(source: Vec<u8>, spans: Vec<StyledIndexedSpan>) -> (r: StyledString)
        requires
            forall|i: int|
                0 <= i < spans@.len() ==> {
                    &&& (#[trigger] spans@[i]).range.start <= spans@[i].range.end
                    &&& spans@[i].range.end <= source@.len()
                },
        ensures
            r.spec_source() == source@,
            r.spec_spans() == spans@,
            r.wf(),
    {
        StyledString { source, spans }
    }

    /// A styled text whose single span covers the whole buffer with
    /// `attr`.
    pub fn single_span(source: Vec<u8>, attr: Attr) -> (r: StyledString)
        ensures
            r.spec_source() == source@,
            r.spec_spans() =~= seq![
                StyledIndexedSpan {
                    attr,
                    range: ByteRange { start: 0, end: source@.len() as usize },
                },
            ],
            r.wf(),
    {
        let span = StyledIndexedSpan::new(source.as_slice(), attr);
        let mut spans: Vec<StyledIndexedSpan> = Vec::new();
        spans.push(span);
        StyledString { source, spans }
    }

    /// The length of the buffer in bytes.
    pub fn len(&self) -> (r: usize)
        ensures
            r == self.spec_source().len(),
    {
        self.source.len()
    }

    /// Whether the buffer is empty.
    pub fn is_empty(&self) -> (r: bool)
        ensures
            r == (self.spec_source().len() == 0),
    {
        self.source.len() == 0
    }

    /// The raw buffer.
    pub fn source(&self) -> (r: &[u8])
        ensures
            r@ == self.spec_source(),
    {
        self.source.as_slice()
    }

    /// The raw span list.
    pub fn spans(&self) -> (r: &[StyledIndexedSpan])
        ensures
            r@ == self.spec_spans(),
    {
        self.spans.as_slice()
    }

    /// The spans that cover byte position `idx`, in list order.
    pub fn spans_at(&self, idx: usize) -> (r: Vec<StyledIndexedSpan>)
        ensures
            r@ == self.spec_spans().filter(
                |s: StyledIndexedSpan| s.range.spec_contains(idx as int),
            ),
    {
        let mut r: Vec<StyledIndexedSpan> = Vec::new();
        let mut i: usize = 0;
        proof {
            assert(self.spec_spans().take(0) =~= Seq::<StyledIndexedSpan>::empty());
            reveal(Seq::filter);
        }
        while i < self.spans.len()
            invariant
                i <= self.spec_spans().len(),
                r@ == self.spec_spans().take(i as int).filter(
                    |s: StyledIndexedSpan| s.range.spec_contains(idx as int),
                ),
            decreases self.spans.len() - i,
        {
            proof {
                reveal(Seq::filter);
                assert(self.spec_spans().take(i + 1).drop_last() =~= self.spec_spans().take(
                    i as int,
                ));
                assert(self.spec_spans().take(i + 1).last() == self.spec_spans()[i as int]);
            }
            if self.spans[i].contains(idx) {
                r.push(self.spans[i]);
            }
            i = i + 1;
        }
        proof {
            assert(self.spec_spans().take(self.spec_spans().len() as int) =~= self.spec_spans());
        }
        r
    }

    /// The spans whose range intersects `range`, in list order.
    pub fn intersecting_spans(&self, range: ByteRange) -> (r: Vec<StyledIndexedSpan>)
        ensures
            r@ == self.spec_spans().filter(
                |s: StyledIndexedSpan| intersection_spec(s.range, range) is Some,
            ),
    {
        let mut r: Vec<StyledIndexedSpan> = Vec::new();
        let mut i: usize = 0;
        proof {
            assert(self.spec_spans().take(0) =~= Seq::<StyledIndexedSpan>::empty());
            reveal(Seq::filter);
        }
        while i < self.spans.len()
            invariant
                i <= self.spec_spans().len(),
                r@ == self.spec_spans().take(i as int).filter(
                    |s: StyledIndexedSpan| intersection_spec(s.range, range) is Some,
                ),
            decreases self.spans.len() - i,
        {
            proof {
                reveal(Seq::filter);
                assert(self.spec_spans().take(i + 1).drop_last() =~= self.spec_spans().take(
                    i as int,
                ));
                assert(self.spec_spans().take(i + 1).last() == self.spec_spans()[i as int]);
            }
            if self.spans[i].intersection(range).is_some() {
                r.push(self.spans[i]);
            }
            i = i + 1;
        }
        proof {
            assert(self.spec_spans().take(self.spec_spans().len() as int) =~= self.spec_spans());
        }
        r
    }

    /// Insert `text` into the buffer at byte offset `idx`, then repair
    /// the spans in one scan: spans before the first span containing
    /// `idx` stay put; that first span is split at `idx`, its right half
    /// shifted past the text; every span after it in list order is
    /// shifted too. If no span contains `idx`, no span moves at all.
    ///
    /// `Extend` mode cannot handle an insertion point inside a span and
    /// is refused with `UnsupportedInsertMode`, leaving the text
    /// untouched, rather than guessing at merge semantics.
    pub fn insert_str(&mut self, idx: usize, text: &[u8], mode: InsertMode) -> (r: Result<
        (),
        StyledError,
    >)
        requires
            old(self).wf(),
            idx <= old(self).spec_source().len(),
            old(self).spec_source().len() + text@.len() <= usize::MAX,
        ensures
            final(self).wf(),
            (r is Err) <==> (mode is Extend && exists|i: int|
                0 <= i < old(self).spec_spans().len() && (#[trigger] old(self).spec_spans()[i])
                    .range.spec_contains(idx as int)),
            r is Err ==> final(self).spec_source() == old(self).spec_source(),
            r is Err ==> final(self).spec_spans() == old(self).spec_spans(),
            r is Err ==> r == Err::<(), StyledError>(StyledError::UnsupportedInsertMode),
            r is Ok ==> final(self).spec_source() == old(self).spec_source().take(idx as int)
                + text@ + old(self).spec_source().skip(idx as int),
            r is Ok ==> final(self).spec_spans() == insert_repair(
                old(self).spec_spans(),
                idx as int,
                text@.len() as int,
            ),
    {
        let ghost spans0 = self.spans@;
        let ghost src0 = self.source@;
        let ghost tl = text@.len() as int;

        // Is the insertion point inside any span?
        let mut any: bool = false;
        let mut i: usize = 0;
        while i < self.spans.len()
            invariant
                i <= spans0.len(),
                self.spans@ == spans0,
                any == exists|j: int|
                    0 <= j < i && (#[trigger] spans0[j]).range.spec_contains(idx as int),
            decreases spans0.len() - i,
        {
            if self.spans[i].contains(idx) {
                any = true;
            }
            i = i + 1;
        }
        if mode == InsertMode::Extend && any {
            return Err(StyledError::UnsupportedInsertMode);
        }

        // Splice the text into the buffer.
        let mut new_source: Vec<u8> = Vec::new();
        let mut i: usize = 0;
        while i < idx
            invariant
                i <= idx <= src0.len(),
                self.source@ == src0,
                new_source@ == src0.take(i as int),
            decreases idx - i,
        {
            new_source.push(self.source[i]);
            i = i + 1;
            proof {
                assert(src0.take(i as int) =~= src0.take(i - 1).push(src0[i - 1]));
            }
        }
        let mut t: usize = 0;
        while t < text.len()
            invariant
                t <= text@.len(),
                self.source@ == src0,
                idx <= src0.len(),
                new_source@ == src0.take(idx as int) + text@.take(t as int),
            decreases text@.len() - t,
        {
            new_source.push(text[t]);
            t = t + 1;
            proof {
                assert(src0.take(idx as int) + text@.take(t as int) =~= (src0.take(idx as int)
                    + text@.take(t - 1)).push(text@[t - 1]));
            }
        }
        let mut i: usize = idx;
        while i < self.source.len()
            invariant
                idx <= i <= src0.len(),
                self.source@ == src0,
                new_source@ == src0.take(idx as int) + text@ + src0.subrange(idx as int, i as int),
            decreases src0.len() - i,
        {
            new_source.push(self.source[i]);
            i = i + 1;
            proof {
                assert(src0.take(idx as int) + text@ + src0.subrange(idx as int, i as int) =~= (
                src0.take(idx as int) + text@ + src0.subrange(idx as int, i - 1)).push(
                    src0[i - 1],
                ));
            }
        }
        proof {
            assert(src0.subrange(idx as int, src0.len() as int) =~= src0.skip(idx as int));
        }
        self.source = new_source;

        // Repair the spans.
        let tlen = text.len();
        let mut new_spans: Vec<StyledIndexedSpan> = Vec::new();
        let mut found: bool = false;
        let mut j: usize = 0;
        proof {
            assert(spans0.take(0) =~= Seq::<StyledIndexedSpan>::empty());
            assert(spans0.skip(0) =~= spans0);
            assert(spans0.take(0) + insert_repair(spans0.skip(0), idx as int, tl) =~= insert_repair(
                spans0,
                idx as int,
                tl,
            ));
        }
        while j < self.spans.len()
            invariant
                j <= spans0.len(),
                self.spans@ == spans0,
                tlen == tl,
                idx <= src0.len(),
                src0.len() + tl <= usize::MAX,
                forall|k: int|
                    0 <= k < spans0.len() ==> {
                        &&& (#[trigger] spans0[k]).range.start <= spans0[k].range.end
                        &&& spans0[k].range.end <= src0.len()
                    },
                forall|m: int|
                    0 <= m < new_spans@.len() ==> {
                        &&& (#[trigger] new_spans@[m]).range.start <= new_spans@[m].range.end
                        &&& new_spans@[m].range.end <= src0.len() + tl
                    },
                found ==> insert_repair(spans0, idx as int, tl) == new_spans@ + shift_all(
                    spans0.skip(j as int),
                    tl,
                ),
                !found ==> new_spans@ == spans0.take(j as int),
                !found ==> insert_repair(spans0, idx as int, tl) == spans0.take(j as int)
                    + insert_repair(spans0.skip(j as int), idx as int, tl),
                !found ==> forall|k: int|
                    0 <= k < j ==> !(#[trigger] spans0[k]).range.spec_contains(idx as int),
            decreases spans0.len() - j,
        {
            let span = self.spans[j];
            proof {
                assert(spans0.skip(j as int)[0] == spans0[j as int]);
                assert(spans0.skip(j as int).skip(1) =~= spans0.skip(j + 1));
            }
            if found {
                let mut s = span;
                s.offset(tlen);
                new_spans.push(s);
                proof {
                    assert(shift_all(spans0.skip(j as int), tl) =~= seq![
                        shifted(spans0[j as int], tl),
                    ] + shift_all(spans0.skip(j + 1), tl));
                    assert(new_spans@ + shift_all(spans0.skip(j + 1), tl) =~= new_spans@.drop_last()
                        + shift_all(spans0.skip(j as int), tl));
                }
            } else if span.contains(idx) {
                found = true;
                let pieces = span.split_at(idx);
                if let Some(l) = pieces.0 {
                    new_spans.push(l);
                }
                if let Some(mut rsp) = pieces.1 {
                    rsp.offset(tlen);
                    new_spans.push(rsp);
                }
                proof {
                    assert(insert_repair(spans0.skip(j as int), idx as int, tl) == split_shifted(
                        spans0[j as int],
                        idx as int,
                        tl,
                    ) + shift_all(spans0.skip(j + 1), tl));
                    assert(new_spans@ =~= spans0.take(j as int) + split_shifted(
                        spans0[j as int],
                        idx as int,
                        tl,
                    ));
                    assert(insert_repair(spans0, idx as int, tl) =~= new_spans@ + shift_all(
                        spans0.skip(j + 1),
                        tl,
                    ));
                }
            } else {
                new_spans.push(span);
                proof {
                    assert(insert_repair(spans0.skip(j as int), idx as int, tl) == seq![
                        spans0[j as int],
                    ] + insert_repair(spans0.skip(j + 1), idx as int, tl));
                    assert(new_spans@ =~= spans0.take(j + 1));
                    assert(spans0.take(j as int) + insert_repair(spans0.skip(j as int), idx as int, tl)
                        =~= spans0.take(j + 1) + insert_repair(spans0.skip(j + 1), idx as int, tl));
                }
            }
            j = j + 1;
        }
        proof {
            assert(spans0.skip(spans0.len() as int) =~= Seq::<StyledIndexedSpan>::empty());
            if found {
                assert(shift_all(spans0.skip(spans0.len() as int), tl) =~= Seq::<
                    StyledIndexedSpan,
                >::empty());
                assert(insert_repair(spans0, idx as int, tl) =~= new_spans@);
            } else {
                assert(insert_repair(Seq::<StyledIndexedSpan>::empty(), idx as int, tl) == Seq::<
                    StyledIndexedSpan,
                >::empty());
                assert(spans0.take(spans0.len() as int) =~= spans0);
                assert(insert_repair(spans0, idx as int, tl) =~= new_spans@);
            }
        }
        self.spans = new_spans;
        Ok(())
    }

    /// Add a new span, merging its attribute into any existing span it
    /// overlaps: each overlapped span is split around the intersection,
    /// which gets the combined attribute; pieces keep list order, and
    /// whatever the running union leaves of the new span is appended at
    /// the end with its own attribute.
    pub fn add_span_intersect(&mut self, new_span: StyledIndexedSpan)
        requires
            old(self).wf(),
            !new_span.spec_is_empty() ==> new_span.range.end <= old(self).spec_source().len(),
        ensures
            final(self).spec_source() == old(self).spec_source(),
            final(self).spec_spans() == add_intersect_spec(old(self).spec_spans(), new_span),
            final(self).wf(),
    {
        if new_span.is_empty() {
            return ;
        }
        let ghost spans0 = self.spans@;
        let ghost srclen = self.source@.len() as int;
        let mut resulting: Vec<StyledIndexedSpan> = Vec::new();
        let mut used = ByteRange { start: new_span.range.start, end: new_span.range.start };
        let mut i: usize = 0;
        proof {
            assert(spans0.take(0) =~= Seq::<StyledIndexedSpan>::empty());
        }
        while i < self.spans.len()
            invariant
                i <= spans0.len(),
                self.spans@ == spans0,
                self.source@ == old(self).source@,
                srclen == self.source@.len(),
                !new_span.range.spec_is_empty(),
                new_span.range.end <= srclen,
                forall|k: int|
                    0 <= k < spans0.len() ==> {
                        &&& (#[trigger] spans0[k]).range.start <= spans0[k].range.end
                        &&& spans0[k].range.end <= srclen
                    },
                used.start == new_span.range.start,
                used.end == used_end(spans0.take(i as int), new_span),
                resulting@ == merge_body(spans0.take(i as int), new_span),
                forall|m: int|
                    0 <= m < resulting@.len() ==> {
                        &&& (#[trigger] resulting@[m]).range.start <= resulting@[m].range.end
                        &&& resulting@[m].range.end <= srclen
                    },
            decreases spans0.len() - i,
        {
            let span = self.spans[i];
            proof {
                assert(spans0.take(i + 1).drop_last() =~= spans0.take(i as int));
                assert(spans0.take(i + 1).last() == spans0[i as int]);
            }
            match span.intersection(new_span.range) {
                Some(inter) => {
                    if inter.end > used.end {
                        used.end = inter.end;
                    }
                    let parts = range_remove(span.range, inter);
                    if let Some(l) = parts.0 {
                        resulting.push(StyledIndexedSpan::new_range(l, span.attr));
                    }
                    resulting.push(
                        StyledIndexedSpan::new_range(inter, span.attr.combine(new_span.attr)),
                    );
                    if let Some(rt) = parts.1 {
                        resulting.push(StyledIndexedSpan::new_range(rt, span.attr));
                    }
                    proof {
                        assert(resulting@ =~= merge_body(spans0.take(i as int), new_span)
                            + merge_pieces(spans0[i as int], new_span));
                    }
                },
                None => {
                    resulting.push(span);
                    proof {
                        assert(resulting@ =~= merge_body(spans0.take(i as int), new_span)
                            + merge_pieces(spans0[i as int], new_span));
                    }
                },
            }
            i = i + 1;
        }
        proof {
            assert(spans0.take(spans0.len() as int) =~= spans0);
        }
        let parts = range_remove(new_span.range, used);
        if let Some(l) = parts.0 {
            resulting.push(StyledIndexedSpan::new_range(l, new_span.attr));
        }
        if let Some(rt) = parts.1 {
            resulting.push(StyledIndexedSpan::new_range(rt, new_span.attr));
        }
        proof {
            assert(resulting@ =~= add_intersect_spec(spans0, new_span));
        }
        self.spans = resulting;
    }

    /// Replace every occurrence of `from` with `to`, dropping all style
    /// spans: the result is plain text only.
    pub fn simple_replace(&self, from: &[u8], to: &[u8]) -> (r: StyledString)
        ensures
            r.spec_source() == replace_bytes(self.spec_source(), from@, to@),
            r.spec_spans() == Seq::<StyledIndexedSpan>::empty(),
            r.wf(),
    {
        let ghost src = self.source@;
        let mut out: Vec<u8> = Vec::new();
        let mut i: usize = 0;
        proof {
            assert(src.skip(0) =~= src);
        }
        if from.len() == 0 {
            while i < self.source.len()
                invariant
                    i <= src.len(),
                    self.source@ == src,
                    from@.len() == 0,
                    replace_bytes(src, from@, to@) == out@ + replace_bytes(
                        src.skip(i as int),
                        from@,
                        to@,
                    ),
                decreases src.len() - i,
            {
                push_bytes(&mut out, to);
                out.push(self.source[i]);
                i = i + 1;
                proof {
                    assert(src.skip(i - 1).skip(1) =~= src.skip(i as int));
                }
            }
            push_bytes(&mut out, to);
            proof {
                assert(src.skip(src.len() as int) =~= Seq::<u8>::empty());
            }
        } else {
            while i < self.source.len()
                invariant
                    i <= src.len(),
                    self.source@ == src,
                    from@.len() > 0,
                    replace_bytes(src, from@, to@) == out@ + replace_bytes(
                        src.skip(i as int),
                        from@,
                        to@,
                    ),
                decreases src.len() - i,
            {
                if from.len() <= self.source.len() - i && bytes_match_at(
                    self.source.as_slice(),
                    i,
                    from,
                ) {
                    push_bytes(&mut out, to);
                    proof {
                        assert(src.skip(i as int).take(from@.len() as int) =~= src.subrange(
                            i as int,
                            i + from@.len(),
                        ));
                        assert(src.skip(i as int).skip(from@.len() as int) =~= src.skip(
                            i + from@.len(),
                        ));
                    }
                    i = i + from.len();
                } else {
                    proof {
                        if from@.len() <= src.len() - i {
                            assert(src.skip(i as int).take(from@.len() as int) =~= src.subrange(
                                i as int,
                                i + from@.len(),
                            ));
                        }
                        assert(src.skip(i as int).skip(1) =~= src.skip(i + 1));
                    }
                    out.push(self.source[i]);
                    i = i + 1;
                }
            }
            proof {
                assert(src.skip(src.len() as int) =~= Seq::<u8>::empty());
            }
        }
        let r = StyledString { source: out, spans: Vec::new() };
        proof {
            assert(r.spec_spans() =~= Seq::<StyledIndexedSpan>::empty());
        }
        r
    }

    /// For each occurrence of `from`, the range it covers in this buffer
    /// paired with the range its replacement covers in the buffer
    /// `simple_replace` would build, in match order.
    pub fn match_replaced_indices(&self, from: &[u8], to: &[u8]) -> (r: Vec<(ByteRange, ByteRange)>)
        ensures
            r@ == match_pairs_rec(self.spec_source(), from@, to@, 0, 0, 0),
    {
        let ghost src = self.source@;
        let mut r: Vec<(ByteRange, ByteRange)> = Vec::new();
        let mut i: usize = 0;
        let mut matched: usize = 0;
        let mut replaced: usize = 0;
        proof {
            assert(src.skip(0) =~= src);
        }
        if from.len() == 0 {
            while i < self.source.len()
                invariant
                    i <= src.len(),
                    self.source@ == src,
                    from@.len() == 0,
                    matched == 0,
                    match_pairs_rec(src, from@, to@, 0, 0, 0) == r@ + match_pairs_rec(
                        src.skip(i as int),
                        from@,
                        to@,
                        i as int,
                        matched as int,
                        replaced as int,
                    ),
                decreases src.len() - i,
            {
                let ns = sat_add(i, replaced);
                r.push(
                    (
                        ByteRange { start: i, end: i },
                        ByteRange { start: ns, end: sat_add(ns, to.len()) },
                    ),
                );
                replaced = sat_add(replaced, to.len());
                i = i + 1;
                proof {
                    assert(src.skip(i - 1).skip(1) =~= src.skip(i as int));
                }
            }
            let ns = sat_add(i, replaced);
            r.push(
                (
                    ByteRange { start: i, end: i },
                    ByteRange { start: ns, end: sat_add(ns, to.len()) },
                ),
            );
            proof {
                assert(src.skip(src.len() as int) =~= Seq::<u8>::empty());
            }
        } else {
            while i < self.source.len()
                invariant
                    i <= src.len(),
                    self.source@ == src,
                    from@.len() > 0,
                    matched <= i,
                    match_pairs_rec(src, from@, to@, 0, 0, 0) == r@ + match_pairs_rec(
                        src.skip(i as int),
                        from@,
                        to@,
                        i as int,
                        matched as int,
                        replaced as int,
                    ),
                decreases src.len() - i,
            {
                if from.len() <= self.source.len() - i && bytes_match_at(
                    self.source.as_slice(),
                    i,
                    from,
                ) {
                    proof {
                        assert(src.skip(i as int).take(from@.len() as int) =~= src.subrange(
                            i as int,
                            i + from@.len(),
                        ));
                        assert(src.skip(i as int).skip(from@.len() as int) =~= src.skip(
                            i + from@.len(),
                        ));
                    }
                    let ns = sat_add(i - matched, replaced);
                    r.push(
                        (
                            ByteRange { start: i, end: sat_add(i, from.len()) },
                            ByteRange { start: ns, end: sat_add(ns, to.len()) },
                        ),
                    );
                    matched = sat_add(matched, from.len());
                    replaced = sat_add(replaced, to.len());
                    i = i + from.len();
                } else {
                    proof {
                        if from@.len() <= src.len() - i {
                            assert(src.skip(i as int).take(from@.len() as int) =~= src.subrange(
                                i as int,
                                i + from@.len(),
                            ));
                        }
                        assert(src.skip(i as int).skip(1) =~= src.skip(i + 1));
                    }
                    i = i + 1;
                }
            }
            proof {
                assert(src.skip(src.len() as int) =~= Seq::<u8>::empty());
            }
        }
        r
    }

    /// Replace text like `simple_replace`, keeping the styles: with
    /// `from` and `to` of one length no byte position moves and the
    /// spans carry over unchanged; otherwise each match shifts every
    /// span position after it by the length difference and cuts the
    /// spans it lands in, so every kept byte keeps its style. Only the
    /// degenerate empty pattern, which interleaves `to` between all
    /// bytes, drops the styles.
    pub fn replace_styled(&self, from: &[u8], to: &[u8]) -> (r: StyledString)
        requires
            self.wf(),
        ensures
            r.spec_source() == replace_bytes(self.spec_source(), from@, to@),
            r.spec_spans() == replace_spans_spec(
                self.spec_source(),
                self.spec_spans(),
                from@,
                to@,
            ),
            r.wf(),
    {
        let mut result = self.simple_replace(from, to);
        if from.len() == to.len() {
            proof {
                lemma_replace_bytes_len_eq(self.source@, from@, to@);
            }
            let mut i: usize = 0;
            while i < self.spans.len()
                invariant
                    i <= self.spans@.len(),
                    result.spans@ == self.spans@.take(i as int),
                    result.source@ == replace_bytes(self.source@, from@, to@),
                decreases self.spans@.len() - i,
            {
                result.spans.push(self.spans[i]);
                i = i + 1;
                proof {
                    assert(self.spans@.take(i as int) =~= self.spans@.take(i - 1).push(
                        self.spans@[i - 1],
                    ));
                }
            }
            proof {
                assert(self.spans@.take(self.spans@.len() as int) =~= self.spans@);
            }
        } else if from.len() > 0 {
            let ghost spans0 = self.spans@;
            let ghost starts_spec = match_starts(self.source@, from@, 0);
            let ghost flen = from@.len() as int;
            let ghost tlen = to@.len() as int;
            let ghost d = tlen - flen;
            let orig_len = self.source.len();
            let fin_len = result.source.len();
            let ghost orig = orig_len as int;
            let ghost fin = fin_len as int;
            let starts = find_matches(self.source.as_slice(), from);
            proof {
                lemma_match_starts_bounds(self.source@, from@, 0);
                lemma_replace_len_matches(self.source@, from@, to@, 0);
                assert(fin == orig + starts_spec.len() * d) by (nonlinear_arith)
                    requires
                        fin == orig - starts_spec.len() * flen + starts_spec.len() * tlen,
                        d == tlen - flen,
                ;
            }
            let ghost m = starts_spec.len() as int;

            // The spans, still at their original byte positions.
            let mut cur: Vec<StyledIndexedSpan> = Vec::new();
            let mut i: usize = 0;
            proof {
                assert(spans0.take(0) =~= Seq::<StyledIndexedSpan>::empty());
            }
            while i < self.spans.len()
                invariant
                    i <= spans0.len(),
                    self.spans@ == spans0,
                    cur@ == spans0.take(i as int),
                decreases spans0.len() - i,
            {
                cur.push(self.spans[i]);
                i = i + 1;
                proof {
                    assert(spans0.take(i as int) =~= spans0.take(i - 1).push(spans0[i - 1]));
                }
            }
            proof {
                assert(spans0.take(spans0.len() as int) =~= spans0);
            }

            // Cut and shift, rightmost match first, so that each earlier
            // match still sits at its original position when its turn
            // comes. The ghost length tracks how long the buffer is once
            // the matches processed so far are replaced.
            let mut k = starts.len();
            let ghost mut l: int = orig;
            proof {
                assert(starts_spec.take(m) =~= starts_spec);
            }
            while k > 0
                invariant
                    k <= m,
                    m == starts_spec.len(),
                    starts@.len() == m,
                    forall|j: int| 0 <= j < m ==> starts@[j] as int == starts_spec[j],
                    forall|j: int|
                        0 <= j < m ==> starts_spec[j] + (m - j) * flen <= orig && 0 <= #[trigger] starts_spec[j],
                    from@.len() == flen,
                    to@.len() == tlen,
                    0 < flen,
                    0 <= tlen,
                    d == tlen - flen,
                    0 <= orig <= usize::MAX,
                    0 <= fin <= usize::MAX,
                    fin == orig + m * d,
                    l == orig + (m - k) * d,
                    l <= if d >= 0 {
                        fin
                    } else {
                        orig
                    },
                    forall|j: int|
                        0 <= j < cur@.len() ==> (#[trigger] cur@[j]).range.start
                            <= cur@[j].range.end && cur@[j].range.end <= l,
                    repair_spans(spans0, starts_spec, flen, tlen) == repair_spans(
                        cur@,
                        starts_spec.take(k as int),
                        flen,
                        tlen,
                    ),
                decreases k,
            {
                k = k - 1;
                let p = starts[k];
                let ghost lnext = l + d;
                proof {
                    assert((m - k) * flen >= flen) by (nonlinear_arith)
                        requires
                            m - k >= 1,
                            flen > 0,
                    ;
                    assert(p + flen <= orig);
                    assert(lnext == orig + (m - k) * d) by (nonlinear_arith)
                        requires
                            lnext == orig + (m - k - 1) * d + d,
                    ;
                    assert(p as int <= lnext) by (nonlinear_arith)
                        requires
                            p + (m - k) * flen <= orig,
                            lnext == orig + (m - k) * (tlen - flen),
                            m - k >= 1,
                            tlen >= 0,
                            flen > 0,
                    ;
                    if d >= 0 {
                        assert(lnext <= fin) by (nonlinear_arith)
                            requires
                                lnext == orig + (m - k) * d,
                                fin == orig + m * d,
                                0 <= m - k <= m,
                                d >= 0,
                        ;
                    }
                }
                cur = cut_spans(&cur, p, from.len(), to.len(), Ghost(lnext));
                proof {
                    l = lnext;
                    assert(starts_spec.take(k + 1).drop_last() =~= starts_spec.take(k as int));
                    assert(starts_spec.take(k + 1).last() == starts_spec[k as int]);
                }
            }
            proof {
                assert(starts_spec.take(0) =~= Seq::<int>::empty());
                assert(l == fin) by (nonlinear_arith)
                    requires
                        l == orig + (m - 0) * d,
                        fin == orig + m * d,
                ;
            }
            result.spans = cur;
        }
        result
    }

    /// Replace text, trying to keep styles; the style-keeping rule is
    /// `replace_styled`'s.
    pub fn replace(&self, from: &[u8], to: &[u8]) -> (r: StyledString)
        requires
            self.wf(),
        ensures
            r.spec_source() == replace_bytes(self.spec_source(), from@, to@),
            r.spec_spans() == replace_spans_spec(
                self.spec_source(),
                self.spec_spans(),
                from@,
                to@,
            ),
            r.wf(),
    {
        self.replace_styled(from, to)
    }

    /// The gap-filled, non-overlapping projection for display: the
    /// stored spans in order, with a plain span synthesized for every
    /// gap before a span and for the tail after the last one, so that a
    /// renderer that draws only what a span covers shows every byte. The
    /// span list is assumed already merge-resolved, having been produced
    /// by `add_span_intersect` and `append_styled`.
    pub fn flattened_spans(&self) -> (r: Vec<StyledIndexedSpan>)
        ensures
            r@ == flatten_spec(self.spec_spans(), self.spec_source().len() as int),
    {
        let ghost spans0 = self.spans@;
        let ghost len = self.source@.len() as int;
        let mut r: Vec<StyledIndexedSpan> = Vec::new();
        let mut last: usize = 0;
        let mut i: usize = 0;
        proof {
            assert(spans0.skip(0) =~= spans0);
        }
        while i < self.spans.len()
            invariant
                i <= spans0.len(),
                self.spans@ == spans0,
                self.source@.len() == len,
                flatten_spec(spans0, len) == r@ + flatten_rec(
                    spans0.skip(i as int),
                    last as int,
                    len,
                ),
            decreases spans0.len() - i,
        {
            let span = self.spans[i];
            proof {
                assert(spans0.skip(i as int)[0] == spans0[i as int]);
                assert(spans0.skip(i as int).skip(1) =~= spans0.skip(i + 1));
            }
            if last < span.range.start {
                r.push(
                    StyledIndexedSpan {
                        attr: Attr::plain(),
                        range: ByteRange { start: last, end: span.range.start },
                    },
                );
            }
            r.push(span);
            last = span.range.end;
            i = i + 1;
        }
        proof {
            assert(spans0.skip(spans0.len() as int) =~= Seq::<StyledIndexedSpan>::empty());
        }
        if last < self.source.len() {
            r.push(
                StyledIndexedSpan {
                    attr: Attr::plain(),
                    range: ByteRange { start: last, end: self.source.len() },
                },
            );
        }
        r
    }

    /// Concatenate raw text onto the buffer; no span moves.
    pub fn append_source(&mut self, source: &[u8])
        requires
            old(self).wf(),
        ensures
            final(self).spec_source() == old(self).spec_source() + source@,
            final(self).spec_spans() == old(self).spec_spans(),
            final(self).wf(),
    {
        let mut i: usize = 0;
        while i < source.len()
            invariant
                i <= source@.len(),
                self.spans@ == old(self).spans@,
                self.source@ == old(self).source@ + source@.take(i as int),
            decreases source@.len() - i,
        {
            self.source.push(source[i]);
            i = i + 1;
            proof {
                assert(old(self).source@ + source@.take(i as int) =~= (old(self).source@
                    + source@.take(i - 1)).push(source@[i - 1]));
            }
        }
        proof {
            assert(source@.take(source@.len() as int) =~= source@);
        }
    }

    /// Append text and one new span covering exactly the appended region.
    pub fn append_styled(&mut self, other: &[u8], style: Attr)
        requires
            old(self).wf(),
            old(self).spec_source().len() + other@.len() <= usize::MAX,
        ensures
            final(self).spec_source() == old(self).spec_source() + other@,
            final(self).spec_spans() == old(self).spec_spans().push(
                StyledIndexedSpan {
                    attr: style,
                    range: ByteRange {
                        start: old(self).spec_source().len() as usize,
                        end: (old(self).spec_source().len() + other@.len()) as usize,
                    },
                },
            ),
            final(self).wf(),
    {
        let start = self.source.len();
        let end = other.len() + start;
        self.append_source(other);
        self.spans.push(
            StyledIndexedSpan { attr: style, range: ByteRange { start, end } },
        );
    }

    /// Concatenate another styled text: its buffer goes on the end of
    /// this one, and each of its spans follows, shifted past the old
    /// buffer.
    pub fn append(&mut self, other: StyledString)
        requires
            old(self).wf(),
            other.wf(),
            old(self).spec_source().len() + other.spec_source().len() <= usize::MAX,
        ensures
            final(self).spec_source() == old(self).spec_source() + other.spec_source(),
            final(self).spec_spans() == old(self).spec_spans() + shift_all(
                other.spec_spans(),
                old(self).spec_source().len() as int,
            ),
            final(self).wf(),
    {
        let offset = self.source.len();
        self.append_source(other.source.as_slice());
        let ghost others = other.spans@;
        let mut i: usize = 0;
        while i < other.spans.len()
            invariant
                i <= others.len(),
                other.spans@ == others,
                offset + other.source@.len() <= usize::MAX,
                forall|j: int|
                    0 <= j < others.len() ==> {
                        &&& (#[trigger] others[j]).range.start <= others[j].range.end
                        &&& others[j].range.end <= other.source@.len()
                    },
                self.source@ == old(self).source@ + other.source@,
                self.spans@ == old(self).spans@ + shift_all(others.take(i as int), offset as int),
            decreases others.len() - i,
        {
            let mut span = other.spans[i];
            span.offset(offset);
            self.spans.push(span);
            i = i + 1;
            proof {
                assert(old(self).spans@ + shift_all(others.take(i as int), offset as int)
                    =~= (old(self).spans@ + shift_all(others.take(i - 1), offset as int)).push(
                    shifted(others[i - 1], offset as int),
                ));
            }
        }
        proof {
            assert(shift_all(others.take(others.len() as int), offset as int) =~= shift_all(
                others,
                offset as int,
            ));
        }
    }
}

/// The gap-filled projection of a span list over a buffer of length
/// `len`, scanned with the end of the previously emitted span at `last`:
/// a plain span is synthesized for every gap before a stored span and
/// for the tail after the last one.
pub open spec fn flatten_rec(spans: Seq<StyledIndexedSpan>, last: int, len: int) -> Seq<
    StyledIndexedSpan,
>
    decreases spans.len(),
{
    if spans.len() == 0 {
        if last < len {
            seq![
                StyledIndexedSpan {
                    attr: Attr::spec_plain(),
                    range: ByteRange { start: last as usize, end: len as usize },
                },
            ]
        } else {
            Seq::empty()
        }
    } else {
        let s = spans[0];
        let gap = if last < s.range.start {
            seq![
                StyledIndexedSpan {
                    attr: Attr::spec_plain(),
                    range: ByteRange { start: last as usize, end: s.range.start },
                },
            ]
        } else {
            Seq::empty()
        };
        gap + seq![s] + flatten_rec(spans.skip(1), s.range.end as int, len)
    }
}

/// The fully-covering, non-overlapping display projection of a span
/// list: every byte of the buffer is covered, gaps by synthesized plain
/// spans.
pub open spec fn flatten_spec(spans: Seq<StyledIndexedSpan>, len: int) -> Seq<StyledIndexedSpan> {
    flatten_rec(spans, 0, len)
}

/// A span list is merge-resolved when its spans sit in range order
/// without overlap, each within the buffer — the shape
/// `add_span_intersect` and `append_styled` produce.
pub open spec fn merge_resolved(spans: Seq<StyledIndexedSpan>, len: int) -> bool {
    &&& forall|i: int|
        0 <= i < spans.len() ==> (#[trigger] spans[i]).range.start <= spans[i].range.end <= len
    &&& forall|i: int|
        0 <= i < spans.len() - 1 ==> (#[trigger] spans[i]).range.end <= spans[i + 1].range.start
}

/// The pieces of a projection form an unbroken chain from `from` to
/// `to`: each piece begins where the previous one ended.
spec fn chained(r: Seq<StyledIndexedSpan>, from: int, to: int) -> bool {
    &&& forall|a: int| 0 <= a < r.len() ==> (#[trigger] r[a]).range.start <= r[a].range.end
    &&& forall|a: int| 0 <= a < r.len() - 1 ==> (#[trigger] r[a]).range.end == r[a + 1].range.start
    &&& if r.len() == 0 {
        from == to
    } else {
        r[0].range.start == from && r[r.len() - 1].range.end == to
    }
}

/// The projection of a sorted, in-bounds span list whose first span does
/// not start before `last` is a chain from `last` to `len`.
proof fn lemma_flatten_rec_chain(spans: Seq<StyledIndexedSpan>, last: int, len: int)
    requires
        0 <= last <= len <= usize::MAX,
        forall|i: int|
            0 <= i < spans.len() ==> (#[trigger] spans[i]).range.start <= spans[i].range.end <= len,
        forall|i: int|
            0 <= i < spans.len() - 1 ==> (#[trigger] spans[i]).range.end <= spans[i + 1].range.start,
        spans.len() > 0 ==> last <= spans[0].range.start,
    ensures
        chained(flatten_rec(spans, last, len), last, len),
    decreases spans.len(),
{
    if spans.len() == 0 {
    } else {
        let s = spans[0];
        let tail = spans.skip(1);
        assert(forall|i: int|
            0 <= i < tail.len() ==> (#[trigger] tail[i]).range.start <= tail[i].range.end <= len);
        assert(forall|i: int|
            0 <= i < tail.len() - 1 ==> (#[trigger] tail[i]).range.end <= tail[i + 1].range.start);
        lemma_flatten_rec_chain(tail, s.range.end as int, len);
    }
}

/// Pieces of a chain keep their order: an earlier piece ends no later
/// than a later piece starts.
proof fn lemma_chain_mono(r: Seq<StyledIndexedSpan>, from: int, to: int, a: int, b: int)
    requires
        chained(r, from, to),
        0 <= a < b < r.len(),
    ensures
        r[a].range.end <= r[b].range.start,
    decreases b - a,
{
    if b > a + 1 {
        lemma_chain_mono(r, from, to, a, b - 1);
    }
}

/// Every position between a chain's ends lies in one of its pieces.
proof fn lemma_chain_cover(r: Seq<StyledIndexedSpan>, from: int, to: int, x: int)
    requires
        chained(r, from, to),
        from <= x < to,
    ensures
        exists|a: int| 0 <= a < r.len() && (#[trigger] r[a]).range.spec_contains(x),
    decreases r.len(),
{
    if r.len() == 0 {
    } else if x < r[0].range.end {
        assert(r[0].range.spec_contains(x));
    } else {
        let tail = r.skip(1);
        assert(r.len() > 1) by {
            if r.len() == 1 {
                assert(r[0].range.end == to);
            }
        }
        assert(chained(tail, r[0].range.end as int, to)) by {
            assert(forall|a: int|
                0 <= a < tail.len() ==> (#[trigger] tail[a]).range.start <= tail[a].range.end);
            assert(forall|a: int|
                0 <= a < tail.len() - 1 ==> (#[trigger] tail[a]).range.end
                    == tail[a + 1].range.start);
            assert(tail[0] == r[1]);
            assert(tail[tail.len() - 1] == r[r.len() - 1]);
        }
        lemma_chain_cover(tail, r[0].range.end as int, to, x);
        let a = choose|a: int| 0 <= a < tail.len() && (#[trigger] tail[a]).range.spec_contains(x);
        assert(r[a + 1].range.spec_contains(x));
    }
}

/// Flatten totality: over a merge-resolved span list the flattened
/// projection's spans are pairwise non-overlapping, and together they
/// cover exactly the whole buffer — a byte position lies in some piece
/// if and only if it lies in the buffer.
pub proof fn lemma_flatten_totality(spans: Seq<StyledIndexedSpan>, len: int, x: int)
    requires
        0 <= len <= usize::MAX,
        merge_resolved(spans, len),
    ensures
        forall|a: int, b: int|
            0 <= a < b < flatten_spec(spans, len).len() ==> !((#[trigger] flatten_spec(
                spans,
                len,
            )[a].range.spec_contains(x)) && (#[trigger] flatten_spec(
                spans,
                len,
            )[b].range.spec_contains(x))),
        (0 <= x < len) <==> exists|a: int|
            0 <= a < flatten_spec(spans, len).len() && (#[trigger] flatten_spec(
                spans,
                len,
            )[a]).range.spec_contains(x),
{
    let r = flatten_spec(spans, len);
    lemma_flatten_rec_chain(spans, 0, len);
    assert forall|a: int, b: int| 0 <= a < b < r.len() implies !((#[trigger] r[a]
        .range.spec_contains(x)) && (#[trigger] r[b].range.spec_contains(x))) by {
        lemma_chain_mono(r, 0, len, a, b);
    }
    if 0 <= x < len {
        lemma_chain_cover(r, 0, len, x);
    }
    assert forall|a: int| 0 <= a < r.len() implies (#[trigger] r[a]).range.end <= len by {
        if a < r.len() - 1 {
            lemma_chain_mono(r, 0, len, a, r.len() - 1);
        }
    }
}

/// The pieces an existing span contributes appear contiguously, in
/// order, inside the merged body, right after the pieces of the spans
/// before it.
proof fn lemma_merge_body_index(spans: Seq<StyledIndexedSpan>, new: StyledIndexedSpan, i: int)
    requires
        0 <= i < spans.len(),
    ensures
        merge_body(spans.take(i), new).len() + merge_pieces(spans[i], new).len() <= merge_body(
            spans,
            new,
        ).len(),
        forall|k: int|
            0 <= k < merge_pieces(spans[i], new).len() ==> #[trigger] merge_body(
                spans,
                new,
            )[merge_body(spans.take(i), new).len() + k] == merge_pieces(spans[i], new)[k],
    decreases spans.len(),
{
    if i == spans.len() - 1 {
        assert(spans.take(i) =~= spans.drop_last());
        assert(spans.last() == spans[i]);
    } else {
        lemma_merge_body_index(spans.drop_last(), new, i);
        assert(spans.drop_last().take(i) =~= spans.take(i));
        assert(spans.drop_last()[i] == spans[i]);
    }
}

/// The running-union end never leaves the new span's range.
proof fn lemma_used_end_bounds(spans: Seq<StyledIndexedSpan>, new: StyledIndexedSpan)
    requires
        !new.spec_is_empty(),
    ensures
        new.range.start <= used_end(spans, new) <= new.range.end,
    decreases spans.len(),
{
    if spans.len() > 0 {
        lemma_used_end_bounds(spans.drop_last(), new);
    }
}

/// Whether some span of the list covers byte position `y`.
pub open spec fn covered_by(spans: Seq<StyledIndexedSpan>, y: int) -> bool {
    exists|i: int| 0 <= i < spans.len() && (#[trigger] spans[i]).range.spec_contains(y)
}

/// A position inside both an existing span and the new span lies inside
/// their intersection.
proof fn lemma_inter_contains(s: ByteRange, n: ByteRange, x: int)
    requires
        s.spec_contains(x),
        n.spec_contains(x),
    ensures
        intersection_spec(s, n) is Some,
        intersection_spec(s, n).unwrap().spec_contains(x),
{
}

/// Merge coverage, existing side: every byte an existing span covered is
/// still covered by some span after `add_span_intersect`.
pub proof fn lemma_add_span_covers_existing(
    spans: Seq<StyledIndexedSpan>,
    new: StyledIndexedSpan,
    x: int,
)
    requires
        covered_by(spans, x),
    ensures
        covered_by(add_intersect_spec(spans, new), x),
{
    let i = choose|i: int| 0 <= i < spans.len() && (#[trigger] spans[i]).range.spec_contains(x);
    if new.range.spec_is_empty() {
        assert(add_intersect_spec(spans, new)[i].range.spec_contains(x));
    } else {
        let s = spans[i];
        let pieces = merge_pieces(s, new);
        let k: int = match intersection_spec(s.range, new.range) {
            None => 0,
            Some(inter) => {
                lemma_remove_reconstructs(s.range, inter);
                assert(intersection_spec(s.range, inter) == Some(inter));
                let parts = remove_spec(s.range, inter);
                if opt_contains(parts.0, x) {
                    0
                } else if inter.spec_contains(x) {
                    opt_span(parts.0, s.attr).len() as int
                } else {
                    (opt_span(parts.0, s.attr).len() + 1) as int
                }
            },
        };
        assert(0 <= k < pieces.len() && pieces[k].range.spec_contains(x));
        lemma_merge_body_index(spans, new, i);
        let off = merge_body(spans.take(i), new).len() as int;
        assert(add_intersect_spec(spans, new)[off + k] == merge_body(spans, new)[off + k]);
        assert(add_intersect_spec(spans, new)[off + k].range.spec_contains(x));
    }
}

/// Merge coverage, new side: a byte of the new span is still covered
/// after the merge, provided every byte of the new span below the
/// running-union end lay inside some existing span. (Without that
/// proviso the running union, which starts at the new span's start and
/// only grows its end, records uncovered bytes before or between
/// overlapped spans as consumed, and they are lost — the documented
/// limitation of the merge.)
pub proof fn lemma_add_span_covers_new(
    spans: Seq<StyledIndexedSpan>,
    new: StyledIndexedSpan,
    x: int,
)
    requires
        !new.spec_is_empty(),
        new.range.spec_contains(x),
        forall|y: int|
            new.range.start <= y < used_end(spans, new) ==> #[trigger] covered_by(spans, y),
    ensures
        covered_by(add_intersect_spec(spans, new), x),
{
    let ue = used_end(spans, new) as int;
    lemma_used_end_bounds(spans, new);
    let result = add_intersect_spec(spans, new);
    let used = ByteRange { start: new.range.start, end: used_end(spans, new) };
    let leftover = remove_spec(new.range, used);
    if x < ue {
        assert(covered_by(spans, x));
        let i = choose|i: int| 0 <= i < spans.len() && (#[trigger] spans[i]).range.spec_contains(x);
        let s = spans[i];
        lemma_inter_contains(s.range, new.range, x);
        let inter = intersection_spec(s.range, new.range).unwrap();
        lemma_remove_reconstructs(s.range, inter);
        assert(intersection_spec(s.range, inter) == Some(inter));
        let parts = remove_spec(s.range, inter);
        let k = opt_span(parts.0, s.attr).len() as int;
        assert(merge_pieces(s, new)[k].range.spec_contains(x));
        lemma_merge_body_index(spans, new, i);
        let off = merge_body(spans.take(i), new).len() as int;
        assert(result[off + k] == merge_body(spans, new)[off + k]);
        assert(result[off + k].range.spec_contains(x));
    } else {
        if ue == new.range.start {
            assert(leftover == (Some(new.range), None::<ByteRange>));
            let j = merge_body(spans, new).len() as int;
            assert(result[j].range.spec_contains(x));
        } else {
            assert(ue < new.range.end);
            assert(intersection_spec(new.range, used) == Some(used));
            assert(leftover == (
                None::<ByteRange>,
                Some(ByteRange { start: used.end, end: new.range.end }),
            ));
            let j = merge_body(spans, new).len() as int;
            assert(result[j].range.spec_contains(x));
        }
    }
}

/// Merge coverage, attribute side: where an existing span overlaps the
/// new span, the result holds a span covering exactly the overlap whose
/// attribute is the existing span's attribute combined with the new
/// one's.
pub proof fn lemma_add_span_combined_attr(
    spans: Seq<StyledIndexedSpan>,
    new: StyledIndexedSpan,
    i: int,
)
    requires
        !new.spec_is_empty(),
        0 <= i < spans.len(),
        intersection_spec(spans[i].range, new.range) is Some,
    ensures
        exists|j: int|
            0 <= j < add_intersect_spec(spans, new).len() && #[trigger] add_intersect_spec(
                spans,
                new,
            )[j] == (StyledIndexedSpan {
                attr: combine_spec(spans[i].attr, new.attr),
                range: intersection_spec(spans[i].range, new.range).unwrap(),
            }),
{
    let s = spans[i];
    let inter = intersection_spec(s.range, new.range).unwrap();
    let parts = remove_spec(s.range, inter);
    let k = opt_span(parts.0, s.attr).len() as int;
    assert(merge_pieces(s, new)[k] == StyledIndexedSpan {
        attr: combine_spec(s.attr, new.attr),
        range: inter,
    });
    lemma_merge_body_index(spans, new, i);
    let off = merge_body(spans.take(i), new).len() as int;
    assert(add_intersect_spec(spans, new)[off + k] == merge_body(spans, new)[off + k]);
}

impl Default for StyledString {
    /// An empty buffer with no spans.
    fn default() -> (r: Self)
        ensures
            r.spec_source() == Seq::<u8>::empty(),
            r.spec_spans() == Seq::<StyledIndexedSpan>::empty(),
            r.wf(),
    {
        let r = StyledString { source: Vec::new(), spans: Vec::new() };
        proof {
            assert(r.spec_source() =~= Seq::<u8>::empty());
            assert(r.spec_spans() =~= Seq::<StyledIndexedSpan>::empty());
        }
        r
    }
}

/// Append every byte of `bytes` to `out`.
fn push_bytes(out: &mut Vec<u8>, bytes: &[u8])
    ensures
        final(out)@ == old(out)@ + bytes@,
{
    let mut i: usize = 0;
    while i < bytes.len()
        invariant
            i <= bytes@.len(),
            out@ == old(out)@ + bytes@.take(i as int),
        decreases bytes@.len() - i,
    {
        out.push(bytes[i]);
        i = i + 1;
        proof {
            assert(old(out)@ + bytes@.take(i as int) =~= (old(out)@ + bytes@.take(i - 1)).push(
                bytes@[i - 1],
            ));
        }
    }
    proof {
        assert(bytes@.take(bytes@.len() as int) =~= bytes@);
    }
}

/// Whether `pat` occurs in `src` exactly at byte offset `i`.
fn bytes_match_at(src: &[u8], i: usize, pat: &[u8]) -> (r: bool)
    requires
        i + pat@.len() <= src@.len(),
    ensures
        r == (src@.subrange(i as int, i + pat@.len()) == pat@),
{
    let n = src.len();
    let mut j: usize = 0;
    while j < pat.len()
        invariant
            j <= pat@.len(),
            n == src@.len(),
            i + pat@.len() <= n,
            forall|k: int| 0 <= k < j ==> src@[i + k] == pat@[k],
        decreases pat@.len() - j,
    {
        if src[i + j] != pat[j] {
            proof {
                assert(src@.subrange(i as int, i + pat@.len())[j as int] != pat@[j as int]);
            }
            return false;
        }
        j = j + 1;
    }
    proof {
        assert(src@.subrange(i as int, i + pat@.len()) =~= pat@);
    }
    true
}

/// Addition that stops at the largest `usize` instead of overflowing.
fn sat_add(a: usize, b: usize) -> (r: usize)
    ensures
        r as int == sat_add_spec(a as int, b as int),
{
    if a > usize::MAX - b {
        usize::MAX
    } else {
        a + b
    }
}

/// The byte positions where `pat` matches in `src`, leftmost first,
/// non-overlapping.
fn find_matches(src: &[u8], pat: &[u8]) -> (r: Vec<usize>)
    requires
        pat@.len() > 0,
    ensures
        r@.map_values(|v: usize| v as int) == match_starts(src@, pat@, 0),
{
    let n = src.len();
    let mut r: Vec<usize> = Vec::new();
    let mut i: usize = 0;
    proof {
        assert(src@.skip(0) =~= src@);
        assert(r@.map_values(|v: usize| v as int) =~= Seq::<int>::empty());
    }
    while i < n
        invariant
            i <= n,
            n == src@.len(),
            pat@.len() > 0,
            r@.map_values(|v: usize| v as int) + match_starts(src@.skip(i as int), pat@, i as int)
                == match_starts(src@, pat@, 0),
        decreases n - i,
    {
        if pat.len() <= n - i && bytes_match_at(src, i, pat) {
            r.push(i);
            proof {
                assert(src@.skip(i as int).take(pat@.len() as int) =~= src@.subrange(
                    i as int,
                    i + pat@.len(),
                ));
                assert(src@.skip(i as int).skip(pat@.len() as int) =~= src@.skip(i + pat@.len()));
                assert(r@.map_values(|v: usize| v as int) =~= r@.drop_last().map_values(
                    |v: usize| v as int,
                ).push(i as int));
                assert(r@.map_values(|v: usize| v as int) + match_starts(
                    src@.skip(i + pat@.len()),
                    pat@,
                    i + pat@.len(),
                ) =~= r@.drop_last().map_values(|v: usize| v as int) + (seq![i as int]
                    + match_starts(src@.skip(i + pat@.len()), pat@, i + pat@.len())));
            }
            i = i + pat.len();
        } else {
            proof {
                if pat@.len() <= n - i {
                    assert(src@.skip(i as int).take(pat@.len() as int) =~= src@.subrange(
                        i as int,
                        i + pat@.len(),
                    ));
                }
                assert(src@.skip(i as int).skip(1) =~= src@.skip(i + 1));
            }
            i = i + 1;
        }
    }
    proof {
        assert(src@.skip(n as int) =~= Seq::<u8>::empty());
    }
    r
}

/// Cut every span around the matched region `[p, p + flen)` and shift
/// what follows it by the length difference; `bnext` bounds where the
/// pieces may end, so the caller can carry the bounds invariant.
fn cut_spans(
    spans: &Vec<StyledIndexedSpan>,
    p: usize,
    flen: usize,
    tlen: usize,
    Ghost(bnext): Ghost<int>,
) -> (r: Vec<StyledIndexedSpan>)
    requires
        flen >= 1,
        p + flen <= usize::MAX,
        p as int <= bnext,
        bnext <= usize::MAX,
        forall|i: int|
            0 <= i < spans@.len() ==> (#[trigger] spans@[i]).range.start <= spans@[i].range.end,
        forall|i: int|
            0 <= i < spans@.len() ==> (#[trigger] spans@[i]).range.end - flen + tlen <= bnext,
    ensures
        r@ == cut_all(spans@, p as int, flen as int, tlen as int),
        forall|j: int|
            0 <= j < r@.len() ==> (#[trigger] r@[j]).range.start <= r@[j].range.end
                && r@[j].range.end <= bnext,
{
    let mut r: Vec<StyledIndexedSpan> = Vec::new();
    let mut i: usize = 0;
    proof {
        assert(spans@.take(0) =~= Seq::<StyledIndexedSpan>::empty());
    }
    while i < spans.len()
        invariant
            i <= spans@.len(),
            flen >= 1,
            p + flen <= usize::MAX,
            p as int <= bnext,
            bnext <= usize::MAX,
            forall|j: int|
                0 <= j < spans@.len() ==> (#[trigger] spans@[j]).range.start <= spans@[j].range.end,
            forall|j: int|
                0 <= j < spans@.len() ==> (#[trigger] spans@[j]).range.end - flen + tlen <= bnext,
            r@ == cut_all(spans@.take(i as int), p as int, flen as int, tlen as int),
            forall|j: int|
                0 <= j < r@.len() ==> (#[trigger] r@[j]).range.start <= r@[j].range.end
                    && r@[j].range.end <= bnext,
        decreases spans@.len() - i,
    {
        let s = spans[i];
        proof {
            assert(spans@.take(i + 1).drop_last() =~= spans@.take(i as int));
            assert(spans@.take(i + 1).last() == spans@[i as int]);
        }
        if s.range.start < p {
            let e = if s.range.end <= p {
                s.range.end
            } else {
                p
            };
            r.push(StyledIndexedSpan { attr: s.attr, range: ByteRange { start: s.range.start, end: e } });
        }
        let astart = if s.range.start >= p + flen {
            s.range.start
        } else {
            p + flen
        };
        if astart < s.range.end {
            r.push(
                StyledIndexedSpan {
                    attr: s.attr,
                    range: ByteRange { start: astart - flen + tlen, end: s.range.end - flen + tlen },
                },
            );
        }
        proof {
            assert(r@ =~= cut_all(spans@.take(i as int), p as int, flen as int, tlen as int)
                + span_cut(spans@[i as int], p as int, flen as int, tlen as int));
        }
        i = i + 1;
    }
    proof {
        assert(spans@.take(spans@.len() as int) =~= spans@);
    }
    r
}

/// The match positions of a non-empty pattern lie in order within the
/// buffer, each a pattern's length apart from the next, so that from any
/// of them the remaining matches still fit before the buffer's end.
proof fn lemma_match_starts_bounds(s: Seq<u8>, from: Seq<u8>, base: int)
    requires
        from.len() > 0,
    ensures
        forall|k: int|
            0 <= k < match_starts(s, from, base).len() ==> {
                &&& base <= #[trigger] match_starts(s, from, base)[k]
                &&& match_starts(s, from, base)[k] + (match_starts(s, from, base).len() - k)
                    * from.len() <= base + s.len()
            },
    decreases s.len(),
{
    let starts = match_starts(s, from, base);
    if s.len() < from.len() {
    } else if s.take(from.len() as int) == from {
        let tail = match_starts(s.skip(from.len() as int), from, base + from.len());
        lemma_match_starts_bounds(s.skip(from.len() as int), from, base + from.len());
        assert forall|k: int| 0 <= k < starts.len() implies {
            &&& base <= #[trigger] starts[k]
            &&& starts[k] + (starts.len() - k) * from.len() <= base + s.len()
        } by {
            if k == 0 {
                assert((tail.len() + 1) * from.len() == tail.len() * from.len() + from.len())
                    by (nonlinear_arith);
                if tail.len() > 0 {
                    assert(tail[0] + (tail.len() - 0) * from.len() <= base + from.len() + (s.len()
                        - from.len()));
                    assert(tail.len() * from.len() <= s.len() - from.len());
                } else {
                    assert(tail.len() * from.len() == 0) by (nonlinear_arith)
                        requires
                            tail.len() == 0,
                    ;
                }
            } else {
                assert(starts[k] == tail[k - 1]);
                assert(tail[k - 1] + (tail.len() - (k - 1)) * from.len() <= base + from.len() + (
                s.len() - from.len()));
            }
        }
    } else {
        lemma_match_starts_bounds(s.skip(1), from, base + 1);
        let tail = match_starts(s.skip(1), from, base + 1);
        assert forall|k: int| 0 <= k < starts.len() implies {
            &&& base <= #[trigger] starts[k]
            &&& starts[k] + (starts.len() - k) * from.len() <= base + s.len()
        } by {
            assert(base + 1 <= tail[k]);
            assert(tail[k] + (tail.len() - k) * from.len() <= base + 1 + (s.len() - 1));
        }
    }
}

/// The replaced buffer's length: each match trades the pattern's length
/// for the replacement's.
proof fn lemma_replace_len_matches(s: Seq<u8>, from: Seq<u8>, to: Seq<u8>, base: int)
    requires
        from.len() > 0,
    ensures
        replace_bytes(s, from, to).len() == s.len() - match_starts(s, from, base).len()
            * from.len() + match_starts(s, from, base).len() * to.len(),
    decreases s.len(),
{
    if s.len() < from.len() {
        assert(match_starts(s, from, base).len() * from.len() == 0) by (nonlinear_arith)
            requires
                match_starts(s, from, base).len() == 0,
        ;
        assert(match_starts(s, from, base).len() * to.len() == 0) by (nonlinear_arith)
            requires
                match_starts(s, from, base).len() == 0,
        ;
    } else if s.take(from.len() as int) == from {
        lemma_replace_len_matches(s.skip(from.len() as int), from, to, base + from.len() as int);
        let c = match_starts(s.skip(from.len() as int), from, base + from.len()).len() as int;
        assert((c + 1) * from.len() == c * from.len() + from.len()) by (nonlinear_arith);
        assert((c + 1) * to.len() == c * to.len() + to.len()) by (nonlinear_arith);
    } else {
        lemma_replace_len_matches(s.skip(1), from, to, base + 1);
    }
}

/// Replacement with `from` and `to` of one length never changes the
/// buffer's length.
proof fn lemma_replace_bytes_len_eq(s: Seq<u8>, from: Seq<u8>, to: Seq<u8>)
    requires
        from.len() == to.len(),
    ensures
        replace_bytes(s, from, to).len() == s.len(),
    decreases s.len(),
{
    if from.len() == 0 {
        if s.len() > 0 {
            lemma_replace_bytes_len_eq(s.skip(1), from, to);
        }
    } else if s.len() < from.len() {
    } else if s.take(from.len() as int) == from {
        lemma_replace_bytes_len_eq(s.skip(from.len() as int), from, to);
    } else {
        lemma_replace_bytes_len_eq(s.skip(1), from, to);
    }
}

} // verus!

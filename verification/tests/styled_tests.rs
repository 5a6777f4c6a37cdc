use fiskar::attr::{Attr, ColorSpec};
use fiskar::range::ByteRange;
use fiskar::span::StyledIndexedSpan;
use fiskar::styled::{InsertMode, StyledError, StyledString};

fn br(start: usize, end: usize) -> ByteRange {
    ByteRange { start, end }
}

fn span(start: usize, end: usize, attr: Attr) -> StyledIndexedSpan {
    StyledIndexedSpan::new_range(br(start, end), attr)
}

#[test]
fn test_add_span_intersect() {
    let simple_style = Attr::underline();
    let style2 = Attr::colored(
        ColorSpec::Rgb(0xFF, 0xAA, 0xFF),
        ColorSpec::Rgb(0x00, 0xF0, 0x0F),
    );
    let testing_span = span(0, 4, simple_style);
    let mut testing = StyledString::with_spans(b"Testing".to_vec(), vec![testing_span]);
    let original_testing = testing.clone();
    assert_eq!(testing, testing);
    // Inserting empty
    testing.add_span_intersect(span(0, 0, style2));
    assert_eq!(testing, original_testing);

    // Inserting adjacent, but not intersecting
    let adjacent_span = span(4, 7, style2);
    testing.add_span_intersect(adjacent_span);
    assert_eq!(testing.spans(), &[testing_span, adjacent_span]);

    // For simplicities sake
    testing = original_testing.clone();

    let intersecting_span = span(2, 6, style2);
    testing.add_span_intersect(intersecting_span);
    assert_eq!(
        testing.spans(),
        &[
            span(0, 2, simple_style),
            span(2, 4, Attr::merge(&[simple_style, style2])),
            span(4, 6, style2),
        ]
    );

    let style3 = Attr::merge(&[Attr::italic(), Attr::bold()]);
    let intersecting_span2 = span(3, 7, style3);
    testing.add_span_intersect(intersecting_span2);
    assert_eq!(
        testing.spans(),
        &[
            span(0, 2, simple_style),
            span(2, 3, Attr::merge(&[simple_style, style2])),
            span(3, 4, Attr::merge(&[simple_style, style2, style3])),
            span(4, 6, Attr::merge(&[style2, style3])),
            span(6, 7, style3),
        ]
    );
}

#[test]
fn round_trip_scenario() {
    // buffer "Testing", no spans; add an underline span, an adjacent
    // span, then (from a fresh start) an overlapping one
    let underline = Attr::underline();
    let color_x = Attr::colored(ColorSpec::Rgb(1, 2, 3), ColorSpec::Inherit);
    let mut text = StyledString::new(b"Testing".to_vec());
    text.add_span_intersect(span(0, 4, underline));
    assert_eq!(text.spans(), &[span(0, 4, underline)]);

    text.add_span_intersect(span(4, 7, color_x));
    assert_eq!(text.spans(), &[span(0, 4, underline), span(4, 7, color_x)]);

    let mut text = StyledString::new(b"Testing".to_vec());
    text.add_span_intersect(span(0, 4, underline));
    text.add_span_intersect(span(2, 6, color_x));
    assert_eq!(
        text.spans(),
        &[
            span(0, 2, underline),
            span(2, 4, underline.combine(color_x)),
            span(4, 6, color_x),
        ]
    );
}

#[test]
fn insertion_scenario() {
    // "ab" with a bold span over the whole buffer; inserting "X" at 1
    // splits the span and leaves the inserted byte unstyled
    let bold = Attr::bold();
    let mut text = StyledString::with_spans(b"ab".to_vec(), vec![span(0, 2, bold)]);
    let r = text.insert_str(1, b"X", InsertMode::BreakApart);
    assert_eq!(r, Ok(()));
    assert_eq!(text.source(), b"aXb");
    assert_eq!(text.spans(), &[span(0, 1, bold), span(2, 3, bold)]);
}

#[test]
fn insertion_extend_mode_refused() {
    let bold = Attr::bold();
    let mut text = StyledString::with_spans(b"ab".to_vec(), vec![span(0, 2, bold)]);
    let r = text.insert_str(1, b"X", InsertMode::Extend);
    assert_eq!(r, Err(StyledError::UnsupportedInsertMode));
    // nothing changed
    assert_eq!(text.source(), b"ab");
    assert_eq!(text.spans(), &[span(0, 2, bold)]);
}

#[test]
fn insertion_outside_any_span_moves_nothing() {
    let bold = Attr::bold();
    let mut text = StyledString::with_spans(b"abcd".to_vec(), vec![span(0, 2, bold)]);
    // index 3 is inside no span: the buffer grows, no span moves
    let r = text.insert_str(3, b"zz", InsertMode::BreakApart);
    assert_eq!(r, Ok(()));
    assert_eq!(text.source(), b"abczzd");
    assert_eq!(text.spans(), &[span(0, 2, bold)]);
    // Extend mode succeeds too when no span contains the index
    let r = text.insert_str(6, b"!", InsertMode::Extend);
    assert_eq!(r, Ok(()));
    assert_eq!(text.source(), b"abczzd!");
    assert_eq!(text.spans(), &[span(0, 2, bold)]);
}

#[test]
fn literal_replace_scenario() {
    // "foo1bar1" with the ones removed is "foobar", unstyled
    let text = StyledString::new(b"foo1bar1".to_vec());
    let replaced = text.simple_replace(b"1", b"");
    assert_eq!(replaced.source(), b"foobar");
    assert_eq!(replaced.spans(), &[]);
}

#[test]
fn simple_replace_cases() {
    let empty = StyledString::default();
    assert_eq!(empty.simple_replace(b"a", b"b").source(), b"");
    assert_eq!(empty.simple_replace(b"", b"b").source(), b"b");
    assert_eq!(empty.simple_replace(b"a", b"").source(), b"");
    let simple = StyledString::new(b"foo1bar1".to_vec());
    // empty pattern interleaves the replacement everywhere
    assert_eq!(simple.simple_replace(b"", b"").source(), b"foo1bar1");
    assert_eq!(
        simple.simple_replace(b"", b"z").source(),
        b"zfzozoz1zbzazrz1z"
    );
    // nonexistent
    assert_eq!(simple.simple_replace(b"z", b"").source(), b"foo1bar1");
    // identity
    assert_eq!(simple.simple_replace(b"f", b"f").source(), b"foo1bar1");
    assert_eq!(
        simple.simple_replace(b"foo1bar1", b"foo1bar1").source(),
        b"foo1bar1"
    );
    assert_eq!(simple.simple_replace(b"f", b"a").source(), b"aoo1bar1");
    assert_eq!(
        simple.simple_replace(b"foo", b"alpha").source(),
        b"alpha1bar1"
    );
    // matches do not overlap
    let aaa = StyledString::new(b"aaa".to_vec());
    assert_eq!(aaa.simple_replace(b"aa", b"b").source(), b"ba");
    // a styled source loses its spans
    let styled = StyledString::with_spans(b"foo".to_vec(), vec![span(0, 3, Attr::bold())]);
    assert_eq!(styled.simple_replace(b"o", b"0").spans(), &[]);
}

#[test]
fn replace_styled_repairs_spans() {
    let bold = Attr::bold();
    let styled = StyledString::with_spans(b"foo1bar1".to_vec(), vec![span(0, 3, bold)]);
    // equal lengths: positions stay valid and spans carry over
    let same_len = styled.replace_styled(b"1", b"2");
    assert_eq!(same_len.source(), b"foo2bar2");
    assert_eq!(same_len.spans(), &[span(0, 3, bold)]);
    // differing lengths with matches outside the span: the span stays put
    let shorter = styled.replace_styled(b"1", b"");
    assert_eq!(shorter.source(), b"foobar");
    assert_eq!(shorter.spans(), &[span(0, 3, bold)]);
    // differing lengths and no occurrence at all: a no-op keeps the spans
    let no_match = styled.replace_styled(b"zzz", b"!");
    assert_eq!(no_match.source(), b"foo1bar1");
    assert_eq!(no_match.spans(), &[span(0, 3, bold)]);
    // replace is the style-keeping variant
    let via_replace = styled.replace(b"1", b"2");
    assert_eq!(via_replace.source(), b"foo2bar2");
    assert_eq!(via_replace.spans(), &[span(0, 3, bold)]);
}

#[test]
fn replace_styled_shifts_and_splits() {
    let bold = Attr::bold();
    // a span over the whole buffer is cut around every growing match
    let whole = StyledString::with_spans(b"foo1bar1".to_vec(), vec![span(0, 8, bold)]);
    let grown = whole.replace_styled(b"1", b"xx");
    assert_eq!(grown.source(), b"fooxxbarxx");
    assert_eq!(grown.spans(), &[span(0, 3, bold), span(5, 8, bold)]);
    // a span after the match shifts with the text it covers
    let tail = StyledString::with_spans(b"a1bc".to_vec(), vec![span(2, 4, bold)]);
    let shifted = tail.replace_styled(b"1", b"xyz");
    assert_eq!(shifted.source(), b"axyzbc");
    assert_eq!(shifted.spans(), &[span(4, 6, bold)]);
    // a span entirely inside the matched region vanishes
    let inner = StyledString::with_spans(b"ab1cd".to_vec(), vec![span(2, 3, bold)]);
    let dropped = inner.replace_styled(b"1", b"");
    assert_eq!(dropped.source(), b"abcd");
    assert_eq!(dropped.spans(), &[]);
    // a straddling span is truncated around the matched region
    let straddle = StyledString::with_spans(b"ab1cd".to_vec(), vec![span(1, 4, bold)]);
    let cut = straddle.replace_styled(b"1", b"");
    assert_eq!(cut.source(), b"abcd");
    assert_eq!(cut.spans(), &[span(1, 2, bold), span(2, 3, bold)]);
    // the degenerate empty pattern interleaves and drops the styles
    let styled = StyledString::with_spans(b"ab".to_vec(), vec![span(0, 2, bold)]);
    let interleaved = styled.replace_styled(b"", b"z");
    assert_eq!(interleaved.source(), b"zazbz");
    assert_eq!(interleaved.spans(), &[]);
}

#[test]
fn match_replaced_indices_reports_both_sides() {
    let text = StyledString::new(b"foo1bar1".to_vec());
    let pairs = text.match_replaced_indices(b"1", b"xyz");
    // "foo1bar1" -> "fooxyzbarxyz": matches at 3 and 7 map to 3..6 and 9..12
    assert_eq!(pairs, vec![(br(3, 4), br(3, 6)), (br(7, 8), br(9, 12))]);
    let none = text.match_replaced_indices(b"q", b"x");
    assert_eq!(none, vec![]);
    // the empty pattern matches at every byte boundary
    let tiny = StyledString::new(b"ab".to_vec());
    let pairs = tiny.match_replaced_indices(b"", b"z");
    assert_eq!(
        pairs,
        vec![(br(0, 0), br(0, 1)), (br(1, 1), br(2, 3)), (br(2, 2), br(4, 5))]
    );
}

#[test]
fn append_families() {
    let bold = Attr::bold();
    let color = Attr::colored(ColorSpec::Rgb(9, 9, 9), ColorSpec::Inherit);
    let mut text = StyledString::new(b"ab".to_vec());
    text.append_styled(b"cd", bold);
    assert_eq!(text.source(), b"abcd");
    assert_eq!(text.spans(), &[span(2, 4, bold)]);

    let other = StyledString::with_spans(b"xyz".to_vec(), vec![span(1, 3, color)]);
    text.append(other);
    assert_eq!(text.source(), b"abcdxyz");
    assert_eq!(text.spans(), &[span(2, 4, bold), span(5, 7, color)]);

    text.append_source(b"!");
    assert_eq!(text.source(), b"abcdxyz!");
    assert_eq!(text.spans(), &[span(2, 4, bold), span(5, 7, color)]);
}

#[test]
fn accessors_and_constructors() {
    let bold = Attr::bold();
    let text = StyledString::single_span(b"hello".to_vec(), bold);
    assert_eq!(text.source(), b"hello");
    assert_eq!(text.spans(), &[span(0, 5, bold)]);
    assert_eq!(text.len(), 5);
    assert!(!text.is_empty());
    assert!(StyledString::default().is_empty());

    // spans_at and intersecting_spans filter in list order
    let a = Attr::underline();
    let b = Attr::italic();
    let text = StyledString::with_spans(
        b"abcdef".to_vec(),
        vec![span(0, 3, a), span(2, 5, b), span(5, 5, a)],
    );
    assert_eq!(text.spans_at(2), vec![span(0, 3, a), span(2, 5, b)]);
    assert_eq!(text.spans_at(5), vec![]);
    assert_eq!(
        text.intersecting_spans(br(4, 6)),
        vec![span(2, 5, b)]
    );
    assert_eq!(
        text.intersecting_spans(br(0, 6)),
        vec![span(0, 3, a), span(2, 5, b)]
    );
}

#[test]
fn span_helpers() {
    let bold = Attr::bold();
    let s = StyledIndexedSpan::new(b"abcd", bold);
    assert_eq!(s.range, br(0, 4));
    assert_eq!(s.len(), 4);
    assert!(!s.is_empty());
    assert!(s.contains(0));
    assert!(s.contains(3));
    assert!(!s.contains(4));
    assert_eq!(s.resolve(b"abcd"), b"abcd".to_vec());

    let mut shifted = span(1, 3, bold);
    shifted.offset(4);
    assert_eq!(shifted, span(5, 7, bold));
    assert_eq!(shifted.resolve(b"0123456789"), b"56".to_vec());

    assert_eq!(s.intersection(br(2, 9)), Some(br(2, 4)));
    assert_eq!(s.intersection(br(4, 9)), None);

    let (left, right) = span(1, 5, bold).split_at(3);
    assert_eq!(left, Some(span(1, 3, bold)));
    assert_eq!(right, Some(span(3, 5, bold)));
    let (left, right) = span(1, 5, bold).split_at(1);
    assert_eq!(left, None);
    assert_eq!(right, Some(span(1, 5, bold)));
    let (left, right) = span(1, 5, bold).split_at(5);
    assert_eq!(left, None);
    assert_eq!(right, None);
}

#[test]
fn flatten_fills_gaps() {
    let bold = Attr::bold();
    let plain = Attr::plain();
    let text = StyledString::with_spans(b"abcdefg".to_vec(), vec![span(1, 3, bold)]);
    assert_eq!(
        text.flattened_spans(),
        vec![span(0, 1, plain), span(1, 3, bold), span(3, 7, plain)]
    );
    // spans touching both ends synthesize nothing extra
    let text = StyledString::with_spans(b"abc".to_vec(), vec![span(0, 3, bold)]);
    assert_eq!(text.flattened_spans(), vec![span(0, 3, bold)]);
    // an empty text flattens to nothing
    assert_eq!(StyledString::default().flattened_spans(), vec![]);
    // an unstyled buffer becomes one plain span
    let text = StyledString::new(b"xy".to_vec());
    assert_eq!(text.flattened_spans(), vec![span(0, 2, plain)]);
}

#[test]
fn merge_running_union_drops_uncovered_head() {
    // The running union of consumed new-span positions starts at the new
    // span's start and only grows its end, so the part of a new span
    // before the first existing span it overlaps is recorded as consumed
    // and lost — the documented limitation of the merge.
    let a = Attr::bold();
    let n = Attr::italic();
    let mut text = StyledString::with_spans(b"0123456789".to_vec(), vec![span(5, 10, a)]);
    text.add_span_intersect(span(0, 7, n));
    assert_eq!(text.spans(), &[span(5, 7, a.combine(n)), span(7, 10, a)]);
}

#[test]
fn merge_running_union_spans_gaps() {
    // A new span overlapping two existing spans separated by a gap has
    // the gap recorded as consumed too, so no piece covers it.
    let a = Attr::bold();
    let b = Attr::underline();
    let n = Attr::italic();
    let mut text =
        StyledString::with_spans(b"012345".to_vec(), vec![span(1, 2, a), span(4, 5, b)]);
    text.add_span_intersect(span(1, 5, n));
    assert_eq!(
        text.spans(),
        &[span(1, 2, a.combine(n)), span(4, 5, b.combine(n))]
    );
}

#[test]
fn flatten_with_several_gaps() {
    let a = Attr::bold();
    let b = Attr::underline();
    let plain = Attr::plain();
    let text = StyledString::with_spans(b"012345".to_vec(), vec![span(1, 2, a), span(4, 5, b)]);
    assert_eq!(
        text.flattened_spans(),
        vec![
            span(0, 1, plain),
            span(1, 2, a),
            span(2, 4, plain),
            span(4, 5, b),
            span(5, 6, plain),
        ]
    );
}

#[test]
fn attr_combine_rules() {
    let underline = Attr::underline();
    let colored = Attr::colored(ColorSpec::Rgb(1, 2, 3), ColorSpec::TerminalDefault);
    let combined = underline.combine(colored);
    assert!(combined.underline);
    assert_eq!(combined.front, ColorSpec::Rgb(1, 2, 3));
    assert_eq!(combined.back, ColorSpec::TerminalDefault);
    // an inherited color does not override
    let recombined = combined.combine(Attr::bold());
    assert!(recombined.bold && recombined.underline);
    assert_eq!(recombined.front, ColorSpec::Rgb(1, 2, 3));
    // merging a single style over plain yields that style
    assert_eq!(Attr::merge(&[underline]), underline);
    assert_eq!(Attr::merge(&[]), Attr::plain());
}

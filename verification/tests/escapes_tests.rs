use fiskar::attr::Attr;
use fiskar::escapes::Escapes;
use fiskar::range::ByteRange;
use fiskar::span::StyledIndexedSpan;
use fiskar::styled::StyledString;

#[test]
fn default_escapes_control_bytes() {
    let escapes = Escapes::default();
    let text = StyledString::new(b"a\x00b\x01c".to_vec());
    let escaped = escapes.apply(text);
    assert_eq!(escaped.inner().source(), b"a\\0b\\1c");
    assert_eq!(escaped.inner().spans(), &[]);
}

#[test]
fn default_escapes_shift_styles_past_the_escape() {
    // A styled buffer holding a control byte: the span pieces around the
    // replaced byte keep their style; the written-out escape is plain.
    let escapes = Escapes::default();
    let styled = StyledString::with_spans(
        b"a\x00b".to_vec(),
        vec![StyledIndexedSpan::new_range(
            ByteRange { start: 0, end: 3 },
            Attr::bold(),
        )],
    );
    let escaped = escapes.apply(styled);
    assert_eq!(escaped.inner().source(), b"a\\0b");
    assert_eq!(
        escaped.inner().spans(),
        &[
            StyledIndexedSpan::new_range(ByteRange { start: 0, end: 1 }, Attr::bold()),
            StyledIndexedSpan::new_range(ByteRange { start: 3, end: 4 }, Attr::bold()),
        ]
    );
}

#[test]
fn apply_runs_escapes_in_order() {
    let mut escapes = Escapes::new();
    escapes.add(b"a".to_vec(), b"b".to_vec());
    escapes.add(b"bb".to_vec(), b"c".to_vec());
    // "aab" -> (a->b) "bbb" -> (bb->c) "cb"
    let escaped = escapes.apply(StyledString::new(b"aab".to_vec()));
    assert_eq!(escaped.inner().source(), b"cb");
}

#[test]
fn add_replaces_an_existing_key_in_place() {
    let mut escapes = Escapes::with_capacity(4);
    escapes.add(b"x".to_vec(), b"1".to_vec());
    escapes.add(b"y".to_vec(), b"2".to_vec());
    escapes.add(b"x".to_vec(), b"9".to_vec());
    let escaped = escapes.apply(StyledString::new(b"xy".to_vec()));
    assert_eq!(escaped.inner().source(), b"92");
}

#[test]
fn default_escapes_keep_styles_of_clean_text() {
    // An ordinary line holds no control bytes, so the escape table has
    // nothing to replace and the styling survives.
    let escapes = Escapes::default();
    let styled = StyledString::with_spans(
        b"hello".to_vec(),
        vec![StyledIndexedSpan::new_range(
            ByteRange { start: 0, end: 5 },
            Attr::italic(),
        )],
    );
    let escaped = escapes.apply(styled);
    assert_eq!(escaped.inner().source(), b"hello");
    assert_eq!(
        escaped.inner().spans(),
        &[StyledIndexedSpan::new_range(
            ByteRange { start: 0, end: 5 },
            Attr::italic(),
        )]
    );
}

#[test]
fn apply_with_no_escapes_is_identity() {
    let escapes = Escapes::new();
    let escaped = escapes.apply(StyledString::new(b"abc".to_vec()));
    assert_eq!(escaped.into_inner().source(), b"abc");
}

#[test]
fn equal_length_escape_keeps_styles() {
    let mut escapes = Escapes::new();
    escapes.add(b"o".to_vec(), b"0".to_vec());
    let styled = StyledString::with_spans(
        b"foo".to_vec(),
        vec![StyledIndexedSpan::new_range(
            ByteRange { start: 0, end: 3 },
            Attr::bold(),
        )],
    );
    let escaped = escapes.apply(styled);
    assert_eq!(escaped.inner().source(), b"f00");
    assert_eq!(
        escaped.inner().spans(),
        &[StyledIndexedSpan::new_range(
            ByteRange { start: 0, end: 3 },
            Attr::bold(),
        )]
    );
}

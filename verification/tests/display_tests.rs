use fiskar::actions::MessageName;
use fiskar::attr::{Attr, ColorSpec};
use fiskar::display::format_sender;
use fiskar::range::ByteRange;

fn trip_attr() -> Attr {
    let mut attr = Attr::plain();
    attr.italic = true;
    attr.front = ColorSpec::Rgb(0x33, 0x33, 0x33);
    attr
}

#[test]
fn sender_with_trip_is_padded_and_styled() {
    let text = format_sender(&MessageName::Server, Some(b"abc123"));
    // "abc123 *| " is 10 bytes, padded left to 33
    let expected = format!("{}abc123 *| ", " ".repeat(23));
    assert_eq!(text.source(), expected.as_bytes());
    // the trip span moved right past the padding
    assert_eq!(text.spans().len(), 1);
    assert_eq!(text.spans()[0].range, ByteRange { start: 23, end: 29 });
    assert_eq!(text.spans()[0].attr, trip_attr());
}

#[test]
fn sender_without_trip_keeps_degenerate_span() {
    let text = format_sender(&MessageName::User(b"alice".to_vec()), None);
    let expected = format!("{}alice| ", " ".repeat(26));
    assert_eq!(text.source(), expected.as_bytes());
    assert_eq!(text.spans().len(), 1);
    assert_eq!(text.spans()[0].range, ByteRange { start: 0, end: 0 });
}

#[test]
fn sender_marks_by_kind() {
    let warn = format_sender(&MessageName::ServerWarn, None);
    assert!(warn.source().ends_with(b"!| "));
    let anon = format_sender(&MessageName::Anonymous, None);
    assert!(anon.source().ends_with(b"| "));
    assert_eq!(anon.len(), 33);
}

#[test]
fn long_sender_is_not_padded() {
    let nick = vec![b'x'; 40];
    let text = format_sender(&MessageName::User(nick), None);
    // 40 bytes of nickname plus "| " exceeds the column width
    assert_eq!(text.len(), 42);
    assert!(text.source().starts_with(b"xxxx"));
}

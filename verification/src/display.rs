//! Formatting of the sender column of a chat line: the trip code in a
//! dim italic style, the sender mark, a separator, and left padding up
//! to a fixed column width.

use vstd::prelude::*;

use crate::actions::MessageName;
use crate::attr::{Attr, ColorSpec};
use crate::range::ByteRange;
use crate::span::StyledIndexedSpan;
use crate::styled::{InsertMode, StyledString};

verus! {

/// The column width the sender text is padded to: room for a nickname,
/// a trip code, and the two separators.
pub const SENDER_WIDTH: usize = 33;

/// The style the trip code is shown in.
pub open spec fn trip_attr_spec() -> Attr {
    Attr {
        italic: true,
        front: ColorSpec::Rgb(0x33, 0x33, 0x33),
        ..Attr::spec_plain()
    }
}

/// The mark a sender kind puts before the separator: `*` for the
/// server, `!` for a server warning, the nickname for a user, nothing
/// for an anonymous line.
pub open spec fn sender_mark(nick: MessageName) -> Seq<u8> {
    match nick {
        MessageName::Server => seq![42u8],
        MessageName::ServerWarn => seq![33u8],
        MessageName::User(u) => u@,
        MessageName::Anonymous => Seq::empty(),
    }
}

/// The sender text before padding: the trip code and a space (when a
/// trip is given), the sender mark, and the separator `| `.
pub open spec fn sender_content(nick: MessageName, trip: Option<Seq<u8>>) -> Seq<u8> {
    (match trip {
        Some(t) => t + seq![32u8],
        None => Seq::empty(),
    }) + sender_mark(nick) + seq![124u8, 32u8]
}

/// `n` spaces.
pub open spec fn spaces(n: int) -> Seq<u8> {
    Seq::new(n as nat, |i: int| 32u8)
}

/// The length of the given trip, zero when none is given.
pub open spec fn trip_len(trip: Option<Seq<u8>>) -> int {
    match trip {
        Some(t) => t.len() as int,
        None => 0,
    }
}

/// The view of an optional byte slice.
pub open spec fn opt_bytes_view(trip: Option<&[u8]>) -> Option<Seq<u8>> {
    match trip {
        Some(t) => Some(t@),
        None => None,
    }
}

/// Build the styled sender column of a chat line: the trip code styled
/// dim italic, then the sender mark and the separator `| `, the whole
/// left-padded with spaces to `SENDER_WIDTH` when shorter. The padding
/// is inserted in break-apart mode, so the trip span moves right past
/// the padding (an empty trip leaves only a degenerate span, which
/// never moves).
pub fn format_sender(nick: &MessageName, trip: Option<&[u8]>) -> (r: StyledString)
    ensures
        r.wf(),
        r.spec_source() == if sender_content(*nick, opt_bytes_view(trip)).len() < SENDER_WIDTH {
            spaces(SENDER_WIDTH - sender_content(*nick, opt_bytes_view(trip)).len())
                + sender_content(*nick, opt_bytes_view(trip))
        } else {
            sender_content(*nick, opt_bytes_view(trip))
        },
        r.spec_spans() == seq![
            StyledIndexedSpan {
                attr: trip_attr_spec(),
                range: if sender_content(*nick, opt_bytes_view(trip)).len() < SENDER_WIDTH
                    && trip_len(opt_bytes_view(trip)) > 0 {
                    ByteRange {
                        start: (SENDER_WIDTH - sender_content(*nick, opt_bytes_view(trip)).len())
                            as usize,
                        end: (SENDER_WIDTH - sender_content(*nick, opt_bytes_view(trip)).len()
                            + trip_len(opt_bytes_view(trip))) as usize,
                    }
                } else {
                    ByteRange { start: 0, end: trip_len(opt_bytes_view(trip)) as usize }
                },
            },
        ],
{
    let ghost tv = opt_bytes_view(trip);
    let ghost content = sender_content(*nick, tv);
    let trip_attr = Attr {
        italic: true,
        front: ColorSpec::Rgb(0x33, 0x33, 0x33),
        ..Attr::plain()
    };
    let mut text = StyledString::default();
    match trip {
        Some(t) => {
            let tn = t.len();
            proof {
                assert(t@.len() == tn);
            }
            text.append_styled(t, trip_attr);
            let sep: [u8; 1] = [32u8];
            text.append_source(sep.as_slice());
        },
        None => {
            let empty: [u8; 0] = [];
            text.append_styled(empty.as_slice(), trip_attr);
        },
    }
    match nick {
        MessageName::Anonymous => {},
        MessageName::Server => {
            let mark: [u8; 1] = [42u8];
            text.append_source(mark.as_slice());
        },
        MessageName::ServerWarn => {
            let mark: [u8; 1] = [33u8];
            text.append_source(mark.as_slice());
        },
        MessageName::User(user) => {
            text.append_source(user.as_slice());
        },
    }
    let sep2: [u8; 2] = [124u8, 32u8];
    text.append_source(sep2.as_slice());
    proof {
        assert(text.spec_source() =~= content);
        assert(text.spec_spans() =~= seq![
            StyledIndexedSpan {
                attr: trip_attr_spec(),
                range: ByteRange { start: 0, end: trip_len(tv) as usize },
            },
        ]);
    }
    if text.len() < SENDER_WIDTH {
        let amount = SENDER_WIDTH - text.len();
        let mut pad: Vec<u8> = Vec::new();
        let mut i: usize = 0;
        while i < amount
            invariant
                i <= amount,
                pad@ =~= spaces(i as int),
            decreases amount - i,
        {
            pad.push(32u8);
            i = i + 1;
            proof {
                assert(pad@ =~= spaces(i as int));
            }
        }
        let res = text.insert_str(0, pad.as_slice(), InsertMode::BreakApart);
        proof {
            assert(res is Ok);
            assert(text.spec_source() =~= spaces(SENDER_WIDTH - content.len()) + content);
            if trip_len(tv) > 0 {
                assert(text.spec_spans() =~= seq![
                    StyledIndexedSpan {
                        attr: trip_attr_spec(),
                        range: ByteRange {
                            start: (SENDER_WIDTH - content.len()) as usize,
                            end: (SENDER_WIDTH - content.len() + trip_len(tv)) as usize,
                        },
                    },
                ]);
            } else {
                let sp = StyledIndexedSpan {
                    attr: trip_attr_spec(),
                    range: ByteRange { start: 0, end: 0 },
                };
                assert(seq![sp].skip(1) =~= Seq::<StyledIndexedSpan>::empty());
                assert(crate::styled::insert_repair(
                    Seq::<StyledIndexedSpan>::empty(),
                    0,
                    pad@.len() as int,
                ) == Seq::<StyledIndexedSpan>::empty());
                assert(text.spec_spans() =~= seq![sp]);
            }
        }
    }
    text
}

} // verus!

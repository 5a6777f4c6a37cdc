//! The style attribute a span carries. The engine never interprets an
//! attribute; it only stores attributes and merges two of them when spans
//! overlap, so the type is a plain record of terminal effects and colors
//! with one combine rule.

use vstd::prelude::*;

verus! {

/// A color layer of an attribute: inherited from the surrounding text,
/// the terminal's own default, or a concrete RGB value.
#[derive(Clone, Copy, Debug, PartialEq, Eq, Structural, Hash)]
pub enum ColorSpec {
    /// Keep whatever color the enclosing text already has.
    Inherit,
    /// The terminal's default color.
    TerminalDefault,
    /// A concrete RGB color.
    Rgb(u8, u8, u8),
}

/// A style attribute: a set of text effects plus a foreground and a
/// background color.
#[derive(Clone, Copy, Debug, PartialEq, Eq, Structural, Hash)]
pub struct Attr {
    pub bold: bool,
    pub italic: bool,
    pub underline: bool,
    pub strikethrough: bool,
    pub reverse: bool,
    pub dim: bool,
    pub blink: bool,
    /// Foreground color.
    pub front: ColorSpec,
    /// Background color.
    pub back: ColorSpec,
}

/// The combine rule for two overlapping attributes: effects accumulate,
/// and a color of `other` that is not `Inherit` overrides the color of
/// `self`.
pub open spec fn combine_spec(a: Attr, b: Attr) -> Attr {
    Attr {
        bold: a.bold || b.bold,
        italic: a.italic || b.italic,
        underline: a.underline || b.underline,
        strikethrough: a.strikethrough || b.strikethrough,
        reverse: a.reverse || b.reverse,
        dim: a.dim || b.dim,
        blink: a.blink || b.blink,
        front: if b.front is Inherit {
            a.front
        } else {
            b.front
        },
        back: if b.back is Inherit {
            a.back
        } else {
            b.back
        },
    }
}

impl Attr {
    /// The attribute of plain, unstyled text: no effects, both colors
    /// inherited.
    pub open spec fn spec_plain() -> Attr {
        Attr {
            bold: false,
            italic: false,
            underline: false,
            strikethrough: false,
            reverse: false,
            dim: false,
            blink: false,
            front: ColorSpec::Inherit,
            back: ColorSpec::Inherit,
        }
    }

    #[verifier::when_used_as_spec(spec_plain)]
    pub fn plain() -> (r: Attr)
        ensures
            r == Attr::spec_plain(),
    {
        Attr {
            bold: false,
            italic: false,
            underline: false,
            strikethrough: false,
            reverse: false,
            dim: false,
            blink: false,
            front: ColorSpec::Inherit,
            back: ColorSpec::Inherit,
        }
    }

    /// A plain attribute with one effect switched on.
    pub fn bold() -> (r: Attr)
        ensures
            r == (Attr { bold: true, ..Attr::spec_plain() }),
    {
        Attr { bold: true, ..Attr::plain() }
    }

    /// A plain attribute with one effect switched on.
    pub fn italic() -> (r: Attr)
        ensures
            r == (Attr { italic: true, ..Attr::spec_plain() }),
    {
        Attr { italic: true, ..Attr::plain() }
    }

    /// A plain attribute with one effect switched on.
    pub fn underline() -> (r: Attr)
        ensures
            r == (Attr { underline: true, ..Attr::spec_plain() }),
    {
        Attr { underline: true, ..Attr::plain() }
    }

    /// A plain attribute carrying the given foreground and background
    /// colors.
    pub fn colored(front: ColorSpec, back: ColorSpec) -> (r: Attr)
        ensures
            r == (Attr { front, back, ..Attr::spec_plain() }),
    {
        Attr { front, back, ..Attr::plain() }
    }

    /// Merge `other` into `self` by the combine rule.
    pub fn combine(&self, other: Attr) -> (r: Attr)
        ensures
            r == combine_spec(*self, other),
    {
        Attr {
            bold: self.bold || other.bold,
            italic: self.italic || other.italic,
            underline: self.underline || other.underline,
            strikethrough: self.strikethrough || other.strikethrough,
            reverse: self.reverse || other.reverse,
            dim: self.dim || other.dim,
            blink: self.blink || other.blink,
            front: if matches!(other.front, ColorSpec::Inherit) {
                self.front
            } else {
                other.front
            },
            back: if matches!(other.back, ColorSpec::Inherit) {
                self.back
            } else {
                other.back
            },
        }
    }

    /// Merge a whole list of attributes left to right, starting from the
    /// plain attribute.
    pub fn merge(attrs: &[Attr]) -> (r: Attr)
        ensures
            r == attrs@.fold_left(Attr::spec_plain(), |acc: Attr, a: Attr| combine_spec(acc, a)),
    {
        let mut result = Attr::plain();
        let mut i: usize = 0;
        while i < attrs.len()
            invariant
                i <= attrs@.len(),
                result == attrs@.take(i as int).fold_left(
                    Attr::spec_plain(),
                    |acc: Attr, a: Attr| combine_spec(acc, a),
                ),
            decreases attrs@.len() - i,
        {
            proof {
                assert(attrs@.take(i + 1).drop_last() =~= attrs@.take(i as int));
                assert(attrs@.take(i + 1).last() == attrs@[i as int]);
            }
            result = result.combine(attrs[i]);
            i = i + 1;
        }
        proof {
            assert(attrs@.take(attrs@.len() as int) =~= attrs@);
        }
        result
    }
}

} // verus!

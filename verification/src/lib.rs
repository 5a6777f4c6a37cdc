//! A styled-text engine: a byte buffer paired with a list of formatting
//! spans that stays consistent under insertion, merging, appending and
//! literal replacement.
//!
//! The engine operates on byte offsets into the buffer; it never inspects
//! the meaning of a style attribute, only carries attributes around and
//! merges two of them when spans overlap.

pub mod actions;
pub mod attr;
pub mod display;
pub mod escapes;
pub mod katex_approx;
pub mod range;
pub mod span;
pub mod styled;

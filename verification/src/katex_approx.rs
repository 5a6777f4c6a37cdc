//! An approximation of mathematical markup for the terminal. For now the
//! conversion passes text through unchanged; the options record what a
//! fuller conversion would honor.

use vstd::prelude::*;

use crate::styled::StyledString;

verus! {

/// A failure of the markup conversion. The pass-through conversion never
/// fails: no function returns this value, and `convert_to_approximate`
/// promises `Ok`.
#[derive(Debug)]
pub enum KatexError {
    /// Reserved for markup a fuller conversion would refuse.
    Unsupported,
}

/// How mathematical markup should be approximated.
#[derive(Debug)]
pub struct KatexOptions {
    /// Whether unicode symbols may be used; without them the output can
    /// emulate far less.
    pub unicode: bool,
    /// The character the markup is wrapped in.
    pub enclosure: char,
}

impl Default for KatexOptions {
    fn default() -> (r: Self)
        ensures
            r.unicode == true,
            r.enclosure == '$',
    {
        KatexOptions { unicode: true, enclosure: '$' }
    }
}

/// Approximate mathematical markup in `text` for terminal display. The
/// current conversion returns the text unchanged and unstyled.
#[allow(unused_variables)]
pub fn convert_to_approximate(text: &[u8], options: KatexOptions) -> (r: Result<
    StyledString,
    KatexError,
>)
    ensures
        r matches Ok(s) && s.spec_source() == text@ && s.spec_spans() == Seq::<
            crate::span::StyledIndexedSpan,
        >::empty() && s.wf(),
{
    let mut source: Vec<u8> = Vec::new();
    let mut i: usize = 0;
    while i < text.len()
        invariant
            i <= text@.len(),
            source@ == text@.take(i as int),
        decreases text@.len() - i,
    {
        source.push(text[i]);
        i = i + 1;
        proof {
            assert(text@.take(i as int) =~= text@.take(i - 1).push(text@[i - 1]));
        }
    }
    proof {
        assert(text@.take(text@.len() as int) =~= text@);
    }
    Ok(StyledString::new(source))
}

} // verus!

//! Escaping of text before display: an ordered table of byte sequences
//! to replace, applied one after another with the style-keeping
//! replacement of the styled-text engine.

use vstd::prelude::*;

use crate::styled::{replace_bytes, replace_spans_spec, StyledString};

verus! {

/// One replacement step of `Escapes::apply`: the buffer and the spans
/// after the style-keeping replacement of one key.
pub open spec fn escape_step(
    src: Seq<u8>,
    spans: Seq<crate::span::StyledIndexedSpan>,
    from: Seq<u8>,
    to: Seq<u8>,
) -> (Seq<u8>, Seq<crate::span::StyledIndexedSpan>) {
    (replace_bytes(src, from, to), replace_spans_spec(src, spans, from, to))
}

/// The result of applying a whole escape table, first entry first.
pub open spec fn apply_escapes_spec(
    src: Seq<u8>,
    spans: Seq<crate::span::StyledIndexedSpan>,
    escapes: Seq<(Seq<u8>, Seq<u8>)>,
) -> (Seq<u8>, Seq<crate::span::StyledIndexedSpan>)
    decreases escapes.len(),
{
    if escapes.len() == 0 {
        (src, spans)
    } else {
        let stepped = escape_step(src, spans, escapes[0].0, escapes[0].1);
        apply_escapes_spec(stepped.0, stepped.1, escapes.skip(1))
    }
}

/// An ordered table mapping byte sequences to their replacements, each
/// key held once.
#[derive(Debug, Clone)]
pub struct Escapes {
    escapes: Vec<(Vec<u8>, Vec<u8>)>,
}

impl Escapes {
    /// The table as (key, replacement) pairs, in application order.
    pub closed spec fn spec_escapes(&self) -> Seq<(Seq<u8>, Seq<u8>)> {
        self.escapes@.map(|i: int, p: (Vec<u8>, Vec<u8>)| (p.0@, p.1@))
    }

    /// No key occurs twice.
    pub open spec fn wf(&self) -> bool {
        forall|i: int, j: int|
            0 <= i < j < self.spec_escapes().len() ==> (#[trigger] self.spec_escapes()[i]).0 != (
            #[trigger] self.spec_escapes()[j]).0
    }

    /// An empty escape table.
    pub fn new() -> (r: Self)
        ensures
            r.spec_escapes() == Seq::<(Seq<u8>, Seq<u8>)>::empty(),
            r.wf(),
    {
        let r = Escapes { escapes: Vec::new() };
        proof {
            assert(r.spec_escapes() =~= Seq::<(Seq<u8>, Seq<u8>)>::empty());
        }
        r
    }

    /// An empty escape table with room reserved for `capacity` entries.
    pub fn with_capacity(capacity: usize) -> (r: Self)
        ensures
            r.spec_escapes() == Seq::<(Seq<u8>, Seq<u8>)>::empty(),
            r.wf(),
    {
        let r = Escapes { escapes: Vec::with_capacity(capacity) };
        proof {
            assert(r.spec_escapes() =~= Seq::<(Seq<u8>, Seq<u8>)>::empty());
        }
        r
    }

    /// Set what `value` is replaced with: a key already present keeps
    /// its place with the new replacement, a new key goes to the end.
    pub fn add(&mut self, value: Vec<u8>, escape: Vec<u8>)
        requires
            old(self).wf(),
        ensures
            final(self).wf(),
            (exists|i: int|
                0 <= i < old(self).spec_escapes().len() && (#[trigger] old(
                    self,
                ).spec_escapes()[i]).0 == value@) ==> exists|i: int|
                {
                    &&& 0 <= i < old(self).spec_escapes().len()
                    &&& (#[trigger] old(self).spec_escapes()[i]).0 == value@
                    &&& final(self).spec_escapes() == old(self).spec_escapes().update(
                        i,
                        (value@, escape@),
                    )
                },
            !(exists|i: int|
                0 <= i < old(self).spec_escapes().len() && (#[trigger] old(
                    self,
                ).spec_escapes()[i]).0 == value@) ==> final(self).spec_escapes() == old(
                self,
            ).spec_escapes().push((value@, escape@)),
    {
        let ghost es0 = self.spec_escapes();
        let mut i: usize = 0;
        while i < self.escapes.len()
            invariant
                i <= es0.len(),
                self.spec_escapes() == es0,
                old(self).spec_escapes() == es0,
                old(self).wf(),
                self.escapes@.len() == es0.len(),
                forall|k: int| 0 <= k < i ==> (#[trigger] es0[k]).0 != value@,
            decreases es0.len() - i,
        {
            if bytes_eq(self.escapes[i].0.as_slice(), value.as_slice()) {
                proof {
                    assert(es0[i as int].0 == value@);
                }
                let pair = (value, escape);
                self.escapes.set(i, pair);
                proof {
                    assert(self.spec_escapes() =~= es0.update(i as int, (pair.0@, pair.1@)));
                    assert(old(self).spec_escapes() == es0);
                    assert(0 <= i < es0.len() && es0[i as int].0 == pair.0@ && self.spec_escapes()
                        == es0.update(i as int, (pair.0@, pair.1@)));
                    assert forall|a: int, b: int|
                        0 <= a < b < self.spec_escapes().len() implies (
                    #[trigger] self.spec_escapes()[a]).0 != (#[trigger] self.spec_escapes()[b]).0 by {
                        assert((#[trigger] old(self).spec_escapes()[a]).0 != (#[trigger] old(
                            self,
                        ).spec_escapes()[b]).0);
                        if a == i as int {
                            assert(self.spec_escapes()[a].0 == es0[i as int].0);
                        }
                        if b == i as int {
                            assert(self.spec_escapes()[b].0 == es0[i as int].0);
                        }
                    }
                }
                return ;
            }
            i = i + 1;
        }
        self.escapes.push((value, escape));
        proof {
            assert(self.spec_escapes() =~= es0.push(
                (self.escapes@[es0.len() as int].0@, self.escapes@[es0.len() as int].1@),
            ));
        }
    }

    /// Apply every escape in table order to `text`, each step replacing
    /// one key by its escape with the style-keeping replacement.
    pub fn apply(&self, text: StyledString) -> (r: Escaped<StyledString>)
        requires
            text.wf(),
        ensures
            r.spec_inner().spec_source() == apply_escapes_spec(
                text.spec_source(),
                text.spec_spans(),
                self.spec_escapes(),
            ).0,
            r.spec_inner().spec_spans() == apply_escapes_spec(
                text.spec_source(),
                text.spec_spans(),
                self.spec_escapes(),
            ).1,
            r.spec_inner().wf(),
    {
        let ghost es = self.spec_escapes();
        let ghost full = apply_escapes_spec(text.spec_source(), text.spec_spans(), es);
        let mut styled = text;
        let mut i: usize = 0;
        proof {
            assert(es.skip(0) =~= es);
        }
        while i < self.escapes.len()
            invariant
                i <= es.len(),
                self.spec_escapes() == es,
                self.escapes@.len() == es.len(),
                styled.wf(),
                full == apply_escapes_spec(styled.spec_source(), styled.spec_spans(), es.skip(
                    i as int,
                )),
            decreases es.len() - i,
        {
            proof {
                assert(es.skip(i as int)[0] == es[i as int]);
                assert(es.skip(i as int).skip(1) =~= es.skip(i + 1));
            }
            let from = &self.escapes[i].0;
            let to = &self.escapes[i].1;
            styled = styled.replace_styled(from.as_slice(), to.as_slice());
            i = i + 1;
        }
        proof {
            assert(es.skip(es.len() as int) =~= Seq::<(Seq<u8>, Seq<u8>)>::empty());
        }
        Escaped(styled)
    }
}

impl Default for Escapes {
    /// The escape table used for chat text: the NUL byte and the byte
    /// `0x01` are written out as the two-character escapes `\0` and
    /// `\1`.
    fn default() -> (r: Self)
        ensures
            r.spec_escapes() =~= seq![
                (seq![0u8], seq![92u8, 48u8]),
                (seq![1u8], seq![92u8, 49u8]),
            ],
            r.wf(),
    {
        let mut escapes = Escapes::with_capacity(16);
        let mut k: Vec<u8> = Vec::new();
        k.push(0u8);
        let mut v: Vec<u8> = Vec::new();
        v.push(92u8);
        v.push(48u8);
        proof {
            assert(k@ =~= seq![0u8]);
            assert(v@ =~= seq![92u8, 48u8]);
        }
        escapes.add(k, v);
        proof {
            assert(escapes.spec_escapes() =~= seq![(seq![0u8], seq![92u8, 48u8])]);
        }
        let mut k: Vec<u8> = Vec::new();
        k.push(1u8);
        let mut v: Vec<u8> = Vec::new();
        v.push(92u8);
        v.push(49u8);
        proof {
            assert(k@ =~= seq![1u8]);
            assert(v@ =~= seq![92u8, 49u8]);
        }
        escapes.add(k, v);
        proof {
            assert(seq![0u8] != seq![1u8]) by {
                assert(seq![0u8][0] != seq![1u8][0]);
            }
            assert(escapes.spec_escapes() =~= seq![
                (seq![0u8], seq![92u8, 48u8]),
                (seq![1u8], seq![92u8, 49u8]),
            ]);
        }
        escapes
    }
}

/// A value that has been through `Escapes::apply` and is safe to hand to
/// the display.
#[derive(Debug, Clone, Eq, PartialEq, Hash)]
pub struct Escaped<T>(T);

impl<T> Escaped<T> {
    /// The escaped value.
    pub closed spec fn spec_inner(&self) -> T {
        self.0
    }

    /// Take the escaped value out.
    pub fn into_inner(self) -> (r: T)
        ensures
            r == self.spec_inner(),
    {
        self.0
    }

    /// Borrow the escaped value.
    pub fn inner(&self) -> (r: &T)
        ensures
            r == self.spec_inner(),
    {
        &self.0
    }
}

impl Escaped<String> {
    /// Borrow an escaped string as a plain `&str`.
    pub fn inner_str(&self) -> (r: &str)
        ensures
            r@ == self.spec_inner()@,
    {
        self.0.as_str()
    }
}

/// Whether two byte slices hold the same bytes.
fn bytes_eq(a: &[u8], b: &[u8]) -> (r: bool)
    ensures
        r == (a@ == b@),
{
    if a.len() != b.len() {
        proof {
            assert(a@.len() != b@.len());
        }
        return false;
    }
    let mut i: usize = 0;
    while i < a.len()
        invariant
            i <= a@.len(),
            a@.len() == b@.len(),
            forall|k: int| 0 <= k < i ==> a@[k] == b@[k],
        decreases a@.len() - i,
    {
        if a[i] != b[i] {
            return false;
        }
        i = i + 1;
    }
    proof {
        assert(a@ =~= b@);
    }
    true
}

} // verus!

//! A handle on statically-lived text that carries a one-bit "trusted static
//! literal" marker beside the reference.

use vstd::prelude::*;
use vstd::string::StringSliceAdditionalSpecFns;
use vstd::utf8::is_char_boundary;

verus! {

/// Statically-lived text together with its marker bit. The length of the
/// text that a holder means is kept by the holder and handed to `as_str`.
#[derive(Clone, Copy)]
pub struct FastStr {
    pub text: &'static str,
    pub literal: bool,
}

impl FastStr {
    /// Wraps `s` and sets the marker.
    pub fn new(s: &'static str) -> (r: Self)
        ensures
            r == (FastStr { text: s, literal: true }),
    {
        FastStr { text: s, literal: true }
    }

    /// The first `len` bytes of the wrapped text, whatever the marker says.
    /// `len` is the length that the holder keeps: it lies within the text
    /// and on a character boundary.
    pub fn as_str(&self, len: usize) -> (r: &'static str)
        requires
            is_char_boundary(self.text.spec_bytes(), len as int),
        ensures
            r.spec_bytes() == self.text.spec_bytes().subrange(0, len as int),
    {
        self.text.split_at(len).0
    }
}

} // verus!

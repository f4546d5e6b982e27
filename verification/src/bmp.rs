//! The image type itself: one byte buffer holding the whole file.

use vstd::prelude::*;

pub use crate::errors::ErrorKind;

verus! {

/// A whole BMP file held in memory.  `contents` is the raw byte buffer
/// (file header, DIB header, optional palette, pixel rows); `from_file`
/// records whether the buffer was read in or synthesized.
#[derive(Clone)]
pub struct BMP {
    pub contents: Vec<u8>,
    pub from_file: bool,
}

impl PartialEq for BMP {
    /// Two images are equal when they hold the same bytes.
    fn eq(&self, other: &BMP) -> (r: bool) {
        let r = self.contents == other.contents;
        proof {
            if self.contents@.len() == other.contents@.len() && (forall|i: int|
                0 <= i < self.contents@.len() ==> self.contents@[i] == other.contents@[i]) {
                assert(self.contents@ =~= other.contents@);
            }
        }
        r
    }
}

impl vstd::std_specs::cmp::PartialEqSpecImpl for BMP {
    open spec fn obeys_eq_spec() -> bool {
        true
    }

    open spec fn eq_spec(&self, other: &BMP) -> bool {
        self.contents@ == other.contents@
    }
}

impl BMP {
    /// Whether this image was read from an existing buffer rather than
    /// synthesized fresh.
    pub fn is_from_file(&self) -> (r: bool)
        ensures
            r == self.from_file,
    {
        self.from_file
    }
}

} // verus!

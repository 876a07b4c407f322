//! Definition of backends to create character bitmaps
use vstd::prelude::*;
use super::{Bitmap, is_char_bitmap};

pub mod fallback;

pub use self::fallback::FallbackBackend;

verus! {

/// Represents the backend of `IndexBuilder` to create character bitmaps
pub trait Backend {
    /// Create a new bitmap from slice of bytes
    fn create_full_bitmap(&self, s: &[u8], offset: usize) -> (r: Bitmap)
        requires
            offset + 64 <= s@.len(),
        ensures
            is_char_bitmap(r, s@, offset as int),
    ;

    /// Create a new bitmap from slice of bytes, whose length may be less than 64.
    fn create_partial_bitmap(&self, s: &[u8], offset: usize) -> (r: Bitmap)
        requires
            offset <= s@.len(),
        ensures
            is_char_bitmap(r, s@, offset as int),
    ;
}

} // verus!

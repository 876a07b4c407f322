//! A backend that reads the record one byte at a time.
use vstd::prelude::*;
use super::Backend;
use crate::bit::{bit, lemma_bit_single, group_bit};
use crate::index_builder::{
    Bitmap, is_char_bitmap, BACKSLASH, QUOTE, COLON, COMMA, LEFT_BRACE, RIGHT_BRACE,
    LEFT_BRACKET, RIGHT_BRACKET,
};

verus! {

/// A backend that looks at each byte in turn.
#[derive(Clone, Copy, Debug, Default)]
pub struct FallbackBackend;

/// Whether `w` marks exactly the bytes `c` among the first `k` bytes of `s[off ..]`.
spec fn marks_prefix(w: u64, s: Seq<u8>, off: int, c: u8, k: int) -> bool {
    forall|b: int| 0 <= b < 64 ==> (#[trigger] bit(w, b) <==> (b < k && s[off + b] == c))
}

/// The bitmaps of the (at most 64) bytes of `s` from `offset` on.
fn scan(s: &[u8], offset: usize) -> (r: Bitmap)
    requires
        offset <= s@.len(),
    ensures
        is_char_bitmap(r, s@, offset as int),
{
    let rest: usize = s.len() - offset;
    let n: usize = if rest < 64 {
        rest
    } else {
        64
    };
    let mut bm = Bitmap {
        backslash: 0,
        quote: 0,
        colon: 0,
        comma: 0,
        left_brace: 0,
        right_brace: 0,
        left_bracket: 0,
        right_bracket: 0,
    };
    proof {
        broadcast use group_bit;
    }
    let mut k: usize = 0;
    while k < n
        invariant
            n <= 64,
            offset + n <= s.len(),
            s.len() == s@.len(),
            n == 64 || offset + n == s@.len(),
            k <= n,
            marks_prefix(bm.backslash, s@, offset as int, BACKSLASH, k as int),
            marks_prefix(bm.quote, s@, offset as int, QUOTE, k as int),
            marks_prefix(bm.colon, s@, offset as int, COLON, k as int),
            marks_prefix(bm.comma, s@, offset as int, COMMA, k as int),
            marks_prefix(bm.left_brace, s@, offset as int, LEFT_BRACE, k as int),
            marks_prefix(bm.right_brace, s@, offset as int, RIGHT_BRACE, k as int),
            marks_prefix(bm.left_bracket, s@, offset as int, LEFT_BRACKET, k as int),
            marks_prefix(bm.right_bracket, s@, offset as int, RIGHT_BRACKET, k as int),
        decreases n - k,
    {
        let c: u8 = s[offset + k];
        let m: u64 = 1u64 << k;
        proof {
            broadcast use group_bit;

            assert forall|b: int| #[trigger] bit(m, b) <==> b == k by {
                lemma_bit_single(k as u64, b);
            }
        }
        if c == BACKSLASH {
            bm.backslash = bm.backslash | m;
        } else if c == QUOTE {
            bm.quote = bm.quote | m;
        } else if c == COLON {
            bm.colon = bm.colon | m;
        } else if c == COMMA {
            bm.comma = bm.comma | m;
        } else if c == LEFT_BRACE {
            bm.left_brace = bm.left_brace | m;
        } else if c == RIGHT_BRACE {
            bm.right_brace = bm.right_brace | m;
        } else if c == LEFT_BRACKET {
            bm.left_bracket = bm.left_bracket | m;
        } else if c == RIGHT_BRACKET {
            bm.right_bracket = bm.right_bracket | m;
        }
        k = k + 1;
    }
    bm
}

impl Backend for FallbackBackend {
    fn create_full_bitmap(&self, s: &[u8], offset: usize) -> (r: Bitmap) {
        scan(s, offset)
    }

    fn create_partial_bitmap(&self, s: &[u8], offset: usize) -> (r: Bitmap) {
        scan(s, offset)
    }
}

} // verus!

//! Character bitmaps of a record and the builder of its structural index.
use vstd::prelude::*;
use crate::bit::bit;
use vstd::arithmetic::div_mod::lemma_fundamental_div_mod_converse;

pub mod backend;
pub mod structure;
pub mod laws;
pub mod syntax;
pub mod builder;
mod lemmas;
pub mod index;

pub use self::builder::IndexBuilder;
pub use self::index::StructuralIndex;

verus! {

/// The byte `\`.
pub const BACKSLASH: u8 = 0x5c;
/// The byte `"`.
pub const QUOTE: u8 = 0x22;
/// The byte `:`.
pub const COLON: u8 = 0x3a;
/// The byte `,`.
pub const COMMA: u8 = 0x2c;
/// The byte `{`.
pub const LEFT_BRACE: u8 = 0x7b;
/// The byte `}`.
pub const RIGHT_BRACE: u8 = 0x7d;
/// The byte `[`.
pub const LEFT_BRACKET: u8 = 0x5b;
/// The byte `]`.
pub const RIGHT_BRACKET: u8 = 0x5d;

/// The character bitmaps of one word of 64 bytes of a record: bit `k` of a field is set
/// when byte `k` of the word is that field's character.
#[derive(Clone, Copy, Debug, PartialEq, Eq, Default)]
pub struct Bitmap {
    pub backslash: u64,
    pub quote: u64,
    pub colon: u64,
    pub comma: u64,
    pub left_brace: u64,
    pub right_brace: u64,
    pub left_bracket: u64,
    pub right_bracket: u64,
}

/// Whether global position `p` is set in a sequence of words, word `i` holding the
/// positions `64 * i .. 64 * i + 64`.
pub open spec fn gbit(ws: Seq<u64>, p: int) -> bool {
    0 <= p < 64 * ws.len() && bit(ws[p / 64], p % 64)
}

/// Global position `64 * w + b` is bit `b` of word `w`.
pub proof fn lemma_gbit(ws: Seq<u64>, w: int, b: int)
    requires
        0 <= w < ws.len(),
        0 <= b < 64,
    ensures
        gbit(ws, 64 * w + b) == bit(ws[w], b),
        (64 * w + b) / 64 == w,
        (64 * w + b) % 64 == b,
{
    lemma_fundamental_div_mod_converse(64 * w + b, 64, w, b);
}

/// Every global position is a bit of some word.
pub proof fn lemma_split(p: int)
    ensures
        p == 64 * (p / 64) + p % 64,
        0 <= p % 64 < 64,
{
}

/// The positions set in a sequence of words.
pub open spec fn stream(ws: Seq<u64>) -> spec_fn(int) -> bool {
    |p: int| gbit(ws, p)
}

/// The positions at which the bytes `s` hold `c`.
pub open spec fn is_char(s: Seq<u8>, c: u8) -> spec_fn(int) -> bool {
    |p: int| 0 <= p < s.len() && s[p] == c
}

/// Whether `w` marks exactly the bytes `c` among `s[off .. off + 64]`.
pub open spec fn char_word(w: u64, s: Seq<u8>, off: int, c: u8) -> bool {
    forall|b: int| 0 <= b < 64 ==> (#[trigger] bit(w, b) <==> (off + b < s.len() && s[off + b] == c))
}

/// Whether `bm` holds the character bitmaps of the word of `s` that starts at `off`.
pub open spec fn is_char_bitmap(bm: Bitmap, s: Seq<u8>, off: int) -> bool {
    &&& char_word(bm.backslash, s, off, BACKSLASH)
    &&& char_word(bm.quote, s, off, QUOTE)
    &&& char_word(bm.colon, s, off, COLON)
    &&& char_word(bm.comma, s, off, COMMA)
    &&& char_word(bm.left_brace, s, off, LEFT_BRACE)
    &&& char_word(bm.right_brace, s, off, RIGHT_BRACE)
    &&& char_word(bm.left_bracket, s, off, LEFT_BRACKET)
    &&& char_word(bm.right_bracket, s, off, RIGHT_BRACKET)
}

/// The backslash words of a sequence of bitmaps.
pub open spec fn backslash_words(bms: Seq<Bitmap>) -> Seq<u64> {
    bms.map_values(|b: Bitmap| b.backslash)
}

/// The quote words of a sequence of bitmaps.
pub open spec fn quote_words(bms: Seq<Bitmap>) -> Seq<u64> {
    bms.map_values(|b: Bitmap| b.quote)
}

/// The colon words of a sequence of bitmaps.
pub open spec fn colon_words(bms: Seq<Bitmap>) -> Seq<u64> {
    bms.map_values(|b: Bitmap| b.colon)
}

/// The comma words of a sequence of bitmaps.
pub open spec fn comma_words(bms: Seq<Bitmap>) -> Seq<u64> {
    bms.map_values(|b: Bitmap| b.comma)
}

/// The left-brace words of a sequence of bitmaps.
pub open spec fn left_brace_words(bms: Seq<Bitmap>) -> Seq<u64> {
    bms.map_values(|b: Bitmap| b.left_brace)
}

/// The right-brace words of a sequence of bitmaps.
pub open spec fn right_brace_words(bms: Seq<Bitmap>) -> Seq<u64> {
    bms.map_values(|b: Bitmap| b.right_brace)
}

/// The left-bracket words of a sequence of bitmaps.
pub open spec fn left_bracket_words(bms: Seq<Bitmap>) -> Seq<u64> {
    bms.map_values(|b: Bitmap| b.left_bracket)
}

/// The right-bracket words of a sequence of bitmaps.
pub open spec fn right_bracket_words(bms: Seq<Bitmap>) -> Seq<u64> {
    bms.map_values(|b: Bitmap| b.right_bracket)
}

} // verus!

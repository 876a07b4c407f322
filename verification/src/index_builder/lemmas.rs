//! Lemmas about backslash runs, quote counts and modular counters used by the builder.
use vstd::prelude::*;
use vstd::arithmetic::div_mod::lemma_fundamental_div_mod_converse;
use crate::bit::{bit, ones_below};
use super::structure::{run_before, count_before};
use super::{
    Bitmap, gbit, stream, lemma_gbit, lemma_split, is_char_bitmap, is_char, backslash_words,
    quote_words, colon_words, comma_words, left_brace_words, right_brace_words, left_bracket_words,
    right_bracket_words, BACKSLASH, QUOTE, COLON, COMMA, LEFT_BRACE, RIGHT_BRACE, LEFT_BRACKET,
    RIGHT_BRACKET,
};
use super::structure::word_count;

verus! {

/// `run_before` only looks at the positions before `p`.
pub(crate) proof fn lemma_run_before_agree(f: spec_fn(int) -> bool, g: spec_fn(int) -> bool, p: int)
    requires
        forall|q: int| 0 <= q < p ==> #[trigger] f(q) == g(q),
    ensures
        run_before(f, p) == run_before(g, p),
    decreases p,
{
    if p > 0 {
        lemma_run_before_agree(f, g, p - 1);
    }
}

/// The run of backslashes before a position inside word `w` either ends inside the word or
/// covers its whole beginning and goes on into the words before.
pub(crate) proof fn lemma_run_in_word(ws: Seq<u64>, w: int, pos: int)
    requires
        0 <= w < ws.len(),
        0 <= pos <= 64,
    ensures
        ones_below(ws[w], pos) < pos ==> run_before(stream(ws), 64 * w + pos) == ones_below(
            ws[w],
            pos,
        ),
        ones_below(ws[w], pos) == pos ==> run_before(stream(ws), 64 * w + pos) == pos
            + run_before(stream(ws), 64 * w),
        ones_below(ws[w], pos) <= pos,
    decreases pos,
{
    if pos > 0 {
        lemma_run_in_word(ws, w, pos - 1);
        lemma_gbit(ws, w, pos - 1);
        assert(stream(ws)(64 * w + pos - 1) == bit(ws[w], pos - 1));
    }
}

pub(crate) proof fn lemma_wrap_add(a: u32, l: u32, x: int)
    requires
        x >= 0,
        a as int == x % 0x1_0000_0000,
        l <= 64,
    ensures
        a.wrapping_add(l) as int == (x + l) % 0x1_0000_0000,
{
    let m: int = 0x1_0000_0000;
    let q = x / m;
    lemma_fundamental_div_mod_converse(x, m, q, a as int);
    if a + l < m {
        lemma_fundamental_div_mod_converse(x + l, m, q, a + l);
    } else {
        lemma_fundamental_div_mod_converse(x + l, m, q + 1, a + l - m);
    }
}

pub(crate) proof fn lemma_mod_parity(x: int)
    requires
        x >= 0,
    ensures
        (x % 0x1_0000_0000) % 2 == x % 2,
{
    let m: int = 0x1_0000_0000;
    let r = x % m;
    let q = x / m;
    lemma_fundamental_div_mod_converse(x, m, q, r);
    lemma_fundamental_div_mod_converse(x, 2, q * 0x8000_0000 + r / 2, r % 2);
}

pub(crate) proof fn lemma_wrap_inc(a: u64, x: int)
    requires
        x >= 0,
        a as int == x % 0x1_0000_0000_0000_0000,
    ensures
        a.wrapping_add(1) as int == (x + 1) % 0x1_0000_0000_0000_0000,
        (a as int) % 2 == x % 2,
{
    let m: int = 0x1_0000_0000_0000_0000;
    let q = x / m;
    lemma_fundamental_div_mod_converse(x, m, q, a as int);
    if a + 1 < m {
        lemma_fundamental_div_mod_converse(x + 1, m, q, a + 1);
    } else {
        lemma_fundamental_div_mod_converse(x + 1, m, q + 1, 0);
    }
    lemma_fundamental_div_mod_converse(x, 2, q * 0x8000_0000_0000_0000 + (a as int) / 2, (a as int) % 2);
}

/// Positions without a set bit leave the count unchanged.
pub(crate) proof fn lemma_count_skip(f: spec_fn(int) -> bool, p1: int, p2: int)
    requires
        0 <= p1 <= p2,
        forall|q: int| p1 <= q < p2 ==> !#[trigger] f(q),
    ensures
        count_before(f, p2) == count_before(f, p1),
    decreases p2 - p1,
{
    if p1 < p2 {
        lemma_count_skip(f, p1, p2 - 1);
    }
}

/// The character bitmaps of each word mark the characters of the whole record.
pub(crate) proof fn lemma_char_streams(bms: Seq<Bitmap>, s: Seq<u8>)
    requires
        bms.len() == word_count(s.len() as int),
        forall|w: int| 0 <= w < bms.len() ==> is_char_bitmap(#[trigger] bms[w], s, 64 * w),
    ensures
        stream(backslash_words(bms)) == is_char(s, BACKSLASH),
        stream(quote_words(bms)) == is_char(s, QUOTE),
        stream(colon_words(bms)) == is_char(s, COLON),
        stream(comma_words(bms)) == is_char(s, COMMA),
        stream(left_brace_words(bms)) == is_char(s, LEFT_BRACE),
        stream(right_brace_words(bms)) == is_char(s, RIGHT_BRACE),
        stream(left_bracket_words(bms)) == is_char(s, LEFT_BRACKET),
        stream(right_bracket_words(bms)) == is_char(s, RIGHT_BRACKET),
{
    assert forall|p: int|
        {
            &&& #[trigger] gbit(backslash_words(bms), p) == is_char(s, BACKSLASH)(p)
            &&& gbit(quote_words(bms), p) == is_char(s, QUOTE)(p)
            &&& gbit(colon_words(bms), p) == is_char(s, COLON)(p)
            &&& gbit(comma_words(bms), p) == is_char(s, COMMA)(p)
            &&& gbit(left_brace_words(bms), p) == is_char(s, LEFT_BRACE)(p)
            &&& gbit(right_brace_words(bms), p) == is_char(s, RIGHT_BRACE)(p)
            &&& gbit(left_bracket_words(bms), p) == is_char(s, LEFT_BRACKET)(p)
            &&& gbit(right_bracket_words(bms), p) == is_char(s, RIGHT_BRACKET)(p)
        } by {
        lemma_split(p);
        if 0 <= p < 64 * bms.len() {
            let w = p / 64;
            let b = p % 64;
            assert(is_char_bitmap(bms[w], s, 64 * w));
            lemma_gbit(backslash_words(bms), w, b);
            lemma_gbit(quote_words(bms), w, b);
            lemma_gbit(colon_words(bms), w, b);
            lemma_gbit(comma_words(bms), w, b);
            lemma_gbit(left_brace_words(bms), w, b);
            lemma_gbit(right_brace_words(bms), w, b);
            lemma_gbit(left_bracket_words(bms), w, b);
            lemma_gbit(right_bracket_words(bms), w, b);
        }
    }
    assert(stream(backslash_words(bms)) =~= is_char(s, BACKSLASH));
    assert(stream(quote_words(bms)) =~= is_char(s, QUOTE));
    assert(stream(colon_words(bms)) =~= is_char(s, COLON));
    assert(stream(comma_words(bms)) =~= is_char(s, COMMA));
    assert(stream(left_brace_words(bms)) =~= is_char(s, LEFT_BRACE));
    assert(stream(right_brace_words(bms)) =~= is_char(s, RIGHT_BRACE));
    assert(stream(left_bracket_words(bms)) =~= is_char(s, LEFT_BRACKET));
    assert(stream(right_bracket_words(bms)) =~= is_char(s, RIGHT_BRACKET));
}

} // verus!
